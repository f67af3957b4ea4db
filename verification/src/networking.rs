//! The request envelope of the wire protocol. Transport is out of scope:
//! these are the shapes that cross it, with values and view keys carried as
//! bytes; the receiver performs typed deserialization.

use vstd::prelude::*;

use crate::database::{AccessPolicy, QueryKey, SerializedMapping};
use crate::document::{Document, DocumentV};
use crate::error::Error;
use crate::pubsub::Message;
use crate::transaction::{Executed, OperationResult, Transaction};
use crate::schema::{CollectionName, ViewName};

verus! {

/// Controls how a server should handle a connection.
#[derive(Debug)]
pub enum ConnectionHandling {
    /// The server should accept this connection.
    Accept,
    /// The server should reject this connection.
    Reject,
}

/// A payload with an associated correlation id.
#[derive(Debug)]
pub struct Payload<T> {
    /// The unique id for this payload.
    pub id: Option<u32>,
    /// The wrapped payload.
    pub wrapped: T,
}

/// A request made to a server.
#[derive(Debug)]
pub enum Request {
    /// A server-related request.
    Server(ServerRequest),
    /// A database-related request.
    Database { database: String, request: DatabaseRequest },
}

/// A database on a server: its name and the schema it was created under.
#[derive(Debug)]
pub struct Database {
    pub name: String,
    pub schema: String,
}

/// A server-related request.
#[derive(Debug)]
pub enum ServerRequest {
    /// Creates a database.
    CreateDatabase(Database),
    /// Deletes the named database.
    DeleteDatabase { name: String },
    /// Lists all databases.
    ListDatabases,
    /// Lists available schemas.
    ListAvailableSchemas,
}

/// A database-related request.
#[derive(Debug)]
pub enum DatabaseRequest {
    /// Retrieve a single document.
    Get { collection: CollectionName, id: u64 },
    /// Retrieve multiple documents.
    GetMultiple { collection: CollectionName, ids: Vec<u64> },
    /// Queries a view.
    Query { view: ViewName, key: Option<QueryKey>, access_policy: AccessPolicy, with_docs: bool },
    /// Reduces a view.
    Reduce { view: ViewName, key: Option<QueryKey>, access_policy: AccessPolicy, grouped: bool },
    /// Applies a transaction.
    ApplyTransaction { transaction: Transaction },
    /// Lists executed transactions.
    ListExecutedTransactions { starting_id: Option<u64>, result_limit: Option<usize> },
    /// Queries the last transaction id.
    LastTransactionId,
    /// Creates a pub/sub subscriber.
    CreateSubscriber,
    /// Publishes a pub/sub message.
    Publish(Message),
    /// Subscribes the subscriber to a topic.
    SubscribeTo { subscriber_id: u64, topic: Vec<u8> },
    /// Unsubscribes the subscriber from a topic.
    UnsubscribeFrom { subscriber_id: u64, topic: Vec<u8> },
    /// Unregisters the subscriber.
    UnregisterSubscriber { subscriber_id: u64 },
}

/// A response from a server.
#[derive(Debug)]
pub enum Response {
    /// A request succeeded but provided no output.
    Accepted,
    /// A response to a server request.
    Server(ServerResponse),
    /// A response to a database request.
    Database(DatabaseResponse),
    /// An error occurred processing a request.
    Error(Error),
}

/// A response to a server request.
#[derive(Debug)]
pub enum ServerResponse {
    /// The named database was created.
    DatabaseCreated { name: String },
    /// The named database was removed.
    DatabaseDeleted { name: String },
    /// The databases of this server.
    Databases(Vec<Database>),
    /// The schemas registered with this server.
    AvailableSchemas(Vec<String>),
}

/// A response to a database request.
#[derive(Debug)]
pub enum DatabaseResponse {
    /// One or more documents.
    Documents(Vec<Document>),
    /// The results of an applied transaction.
    TransactionResults(Vec<OperationResult>),
    /// The rows of a view query without documents.
    ViewMappings(Vec<SerializedMapping>),
    /// The rows of a view query with their source documents.
    ViewMappingsWithDocs(Vec<MappedDocument>),
    /// A single reduced value.
    ViewReduction(Vec<u8>),
    /// Reduced values grouped by key.
    ViewGroupedReduction(Vec<(Vec<u8>, Vec<u8>)>),
    /// Executed transaction records.
    ExecutedTransactions(Vec<Executed>),
    /// The most recent transaction id.
    LastTransactionId(Option<u64>),
    /// A new subscriber was created.
    SubscriberCreated { subscriber_id: u64 },
    /// A pub/sub message was received.
    MessageReceived { subscriber_id: u64, message: Message },
}

/// A serialized view row together with its source document.
#[derive(Debug)]
pub struct MappedDocument {
    /// The serialized key.
    pub key: Vec<u8>,
    /// The serialized value.
    pub value: Vec<u8>,
    /// The source document.
    pub source: Document,
}

/// The mathematical value of a `MappedDocument`.
#[verifier::ext_equal]
pub struct MappedDocumentV {
    pub key: Seq<u8>,
    pub value: Seq<u8>,
    pub source: DocumentV,
}

impl View for MappedDocument {
    type V = MappedDocumentV;

    open spec fn view(&self) -> MappedDocumentV {
        MappedDocumentV { key: self.key@, value: self.value@, source: self.source@ }
    }
}

/// The views of a list of mapped documents.
pub open spec fn mapped_docs_view(s: Seq<MappedDocument>) -> Seq<MappedDocumentV> {
    s.map_values(|m: MappedDocument| m@)
}

} // verus!
