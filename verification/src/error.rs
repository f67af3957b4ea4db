//! The error taxonomy of the store.

use vstd::prelude::*;

use crate::schema::{CollectionName, ViewName};

verus! {

/// Everything that a call into the store can fail with.
#[derive(Debug, Clone)]
pub enum Error {
    /// A database name did not match the accepted shape.
    InvalidDatabaseName(String),
    /// The named database does not exist.
    DatabaseNotFound(String),
    /// A database with this (case-insensitive) name already exists.
    DatabaseNameAlreadyTaken(String),
    /// The database was created under a different schema than the one given.
    SchemaMismatch(String),
    /// The schema was registered twice.
    SchemaAlreadyRegistered(String),
    /// The schema was never registered.
    SchemaNotRegistered(String),
    /// An operation named a collection that the schema does not declare.
    CollectionNotFound,
    /// An update or delete referred to a document that is not stored.
    DocumentNotFound(CollectionName, u64),
    /// An update or delete carried a header that does not match the stored
    /// revision.
    DocumentConflict(CollectionName, u64),
    /// A second document emitted an already-taken key of a unique view.
    UniqueKeyViolation(ViewName, Vec<u8>),
    /// A view key could not be encoded or decoded.
    KeySerialization(String),
    /// A record could not be encoded or decoded.
    Serialization(String),
    /// A range query was made against a view whose keys are stored encrypted.
    RangeQueryNotSupported,
    /// The underlying storage failed.
    Storage(String),
    /// An input/output failure outside the storage engine.
    Io(String),
    /// The vault refused to decrypt for the caller's permissions.
    Unauthorized,
    /// The transport layer failed.
    Transport(String),
    /// The connection was interrupted.
    Disconnected,
    /// The peer answered with a response of the wrong shape.
    UnexpectedResponse(String),
}

impl Error {
    /// A short machine-readable label for the error kind.
    pub fn kind(&self) -> (r: &'static str)
        ensures
            r@ == self.kind_spec(),
    {
        match self {
            Error::InvalidDatabaseName(_) => "invalid-database-name",
            Error::DatabaseNotFound(_) => "database-not-found",
            Error::DatabaseNameAlreadyTaken(_) => "database-name-already-taken",
            Error::SchemaMismatch(_) => "schema-mismatch",
            Error::SchemaAlreadyRegistered(_) => "schema-already-registered",
            Error::SchemaNotRegistered(_) => "schema-not-registered",
            Error::CollectionNotFound => "collection-not-found",
            Error::DocumentNotFound(_, _) => "document-not-found",
            Error::DocumentConflict(_, _) => "document-conflict",
            Error::UniqueKeyViolation(_, _) => "unique-key-violation",
            Error::KeySerialization(_) => "key-serialization",
            Error::Serialization(_) => "serialization",
            Error::RangeQueryNotSupported => "range-query-not-supported",
            Error::Storage(_) => "storage",
            Error::Io(_) => "io",
            Error::Unauthorized => "unauthorized",
            Error::Transport(_) => "transport",
            Error::Disconnected => "disconnected",
            Error::UnexpectedResponse(_) => "unexpected-response",
        }
    }

    /// The label that `kind` returns for each variant.
    pub open spec fn kind_spec(&self) -> Seq<char> {
        match self {
            Error::InvalidDatabaseName(_) => "invalid-database-name"@,
            Error::DatabaseNotFound(_) => "database-not-found"@,
            Error::DatabaseNameAlreadyTaken(_) => "database-name-already-taken"@,
            Error::SchemaMismatch(_) => "schema-mismatch"@,
            Error::SchemaAlreadyRegistered(_) => "schema-already-registered"@,
            Error::SchemaNotRegistered(_) => "schema-not-registered"@,
            Error::CollectionNotFound => "collection-not-found"@,
            Error::DocumentNotFound(_, _) => "document-not-found"@,
            Error::DocumentConflict(_, _) => "document-conflict"@,
            Error::UniqueKeyViolation(_, _) => "unique-key-violation"@,
            Error::KeySerialization(_) => "key-serialization"@,
            Error::Serialization(_) => "serialization"@,
            Error::RangeQueryNotSupported => "range-query-not-supported"@,
            Error::Storage(_) => "storage"@,
            Error::Io(_) => "io"@,
            Error::Unauthorized => "unauthorized"@,
            Error::Transport(_) => "transport"@,
            Error::Disconnected => "disconnected"@,
            Error::UnexpectedResponse(_) => "unexpected-response"@,
        }
    }
}

/// Everything a server can fail with: the core errors, plus the failures of
/// the layers around it with their messages already rendered at the edge.
#[derive(Debug)]
pub enum ServerError {
    /// An invalid database name was specified.
    InvalidDatabaseName(String),
    /// The database name given was not found.
    DatabaseNotFound(String),
    /// The database name already exists.
    DatabaseNameAlreadyTaken(String),
    /// The transport layer failed.
    Transport(String),
    /// The websocket transport failed.
    Websocket(String),
    /// An input/output failure.
    Io(String),
    /// An error occurred while processing a request.
    Request(String),
    /// The database was created under a different schema than provided.
    SchemaMismatch(String),
    /// The schema was registered twice.
    SchemaAlreadyRegistered(String),
    /// An error from within the core.
    Core(Error),
    /// An error from the storage layer.
    Storage(String),
}

impl From<ServerError> for Error {
    /// Folds a server-level error into the core taxonomy, preserving each
    /// kind: transport failures stay transport failures, storage and io
    /// failures keep their messages, and a wrapped core error passes
    /// through.
    fn from(other: ServerError) -> (r: Error) {
        match other {
            ServerError::InvalidDatabaseName(name) => Error::InvalidDatabaseName(name),
            ServerError::DatabaseNotFound(name) => Error::DatabaseNotFound(name),
            ServerError::DatabaseNameAlreadyTaken(name) => Error::DatabaseNameAlreadyTaken(name),
            ServerError::Transport(msg) => Error::Transport(msg),
            ServerError::Websocket(msg) => Error::Transport(msg),
            ServerError::Io(msg) => Error::Io(msg),
            ServerError::Request(msg) => Error::UnexpectedResponse(msg),
            ServerError::SchemaMismatch(name) => Error::SchemaMismatch(name),
            ServerError::SchemaAlreadyRegistered(name) => Error::SchemaAlreadyRegistered(name),
            ServerError::Core(e) => e,
            ServerError::Storage(msg) => Error::Storage(msg),
        }
    }
}

impl vstd::std_specs::convert::FromSpecImpl<ServerError> for Error {
    open spec fn obeys_from_spec() -> bool {
        true
    }

    open spec fn from_spec(other: ServerError) -> Error {
        match other {
            ServerError::InvalidDatabaseName(name) => Error::InvalidDatabaseName(name),
            ServerError::DatabaseNotFound(name) => Error::DatabaseNotFound(name),
            ServerError::DatabaseNameAlreadyTaken(name) => Error::DatabaseNameAlreadyTaken(name),
            ServerError::Transport(msg) => Error::Transport(msg),
            ServerError::Websocket(msg) => Error::Transport(msg),
            ServerError::Io(msg) => Error::Io(msg),
            ServerError::Request(msg) => Error::UnexpectedResponse(msg),
            ServerError::SchemaMismatch(name) => Error::SchemaMismatch(name),
            ServerError::SchemaAlreadyRegistered(name) => Error::SchemaAlreadyRegistered(name),
            ServerError::Core(e) => e,
            ServerError::Storage(msg) => Error::Storage(msg),
        }
    }
}

} // verus!
