//! Transactions: the operations a caller hands in, the results handed back,
//! and the executed records appended to the transaction log.

use vstd::prelude::*;

use crate::byteorder::bytes_clone;
use crate::document::{Header, HeaderV};
use crate::schema::CollectionName;

verus! {

/// What one operation does to its collection.
#[derive(Debug)]
pub enum Command {
    /// Creates a document; the id is assigned by the collection.
    Insert { contents: Vec<u8>, encryption_key: Option<Vec<u8>> },
    /// Replaces the document that `header` describes with `contents`.
    Update { header: Header, contents: Vec<u8> },
    /// Removes the document that `header` describes.
    Delete { header: Header },
}

/// The mathematical value of a `Command`.
#[verifier::ext_equal]
pub enum CommandV {
    Insert { contents: Seq<u8>, encryption_key: Option<Seq<u8>> },
    Update { header: HeaderV, contents: Seq<u8> },
    Delete { header: HeaderV },
}

impl View for Command {
    type V = CommandV;

    open spec fn view(&self) -> CommandV {
        match self {
            Command::Insert { contents, encryption_key } => CommandV::Insert {
                contents: contents@,
                encryption_key: match encryption_key {
                    Some(k) => Some(k@),
                    None => None,
                },
            },
            Command::Update { header, contents } => CommandV::Update {
                header: header@,
                contents: contents@,
            },
            Command::Delete { header } => CommandV::Delete { header: header@ },
        }
    }
}

/// One operation of a transaction.
#[derive(Debug)]
pub struct Operation {
    pub collection: CollectionName,
    pub command: Command,
}

/// The mathematical value of an `Operation`.
#[verifier::ext_equal]
pub struct OperationV {
    pub collection: (Seq<char>, Seq<char>),
    pub command: CommandV,
}

impl View for Operation {
    type V = OperationV;

    open spec fn view(&self) -> OperationV {
        OperationV { collection: self.collection@, command: self.command@ }
    }
}

/// A batch of operations applied atomically.
#[derive(Debug)]
pub struct Transaction {
    pub operations: Vec<Operation>,
}

/// The views of a list of operations.
pub open spec fn operations_view(s: Seq<Operation>) -> Seq<OperationV> {
    s.map_values(|op: Operation| op@)
}

impl View for Transaction {
    type V = Seq<OperationV>;

    open spec fn view(&self) -> Seq<OperationV> {
        operations_view(self.operations@)
    }
}

impl Transaction {
    /// An empty batch.
    pub fn new() -> (r: Self)
        ensures
            r@ =~= Seq::<OperationV>::empty(),
    {
        let r = Transaction { operations: Vec::new() };
        proof {
            assert(r@ =~= Seq::<OperationV>::empty());
        }
        r
    }

    /// Appends an insert of `contents` into `collection`.
    pub fn insert(&mut self, collection: CollectionName, contents: Vec<u8>)
        ensures
            final(self)@ =~= old(self)@.push(
                OperationV {
                    collection: collection@,
                    command: CommandV::Insert { contents: contents@, encryption_key: None },
                },
            ),
    {
        let op = Operation {
            collection,
            command: Command::Insert { contents, encryption_key: None },
        };
        let ghost v = op@;
        self.operations.push(op);
        proof {
            assert(self@ =~= old(self)@.push(v));
        }
    }

    /// Appends an update of the document that `header` describes.
    pub fn update(&mut self, collection: CollectionName, header: Header, contents: Vec<u8>)
        ensures
            final(self)@ =~= old(self)@.push(
                OperationV {
                    collection: collection@,
                    command: CommandV::Update { header: header@, contents: contents@ },
                },
            ),
    {
        let op = Operation { collection, command: Command::Update { header, contents } };
        let ghost v = op@;
        self.operations.push(op);
        proof {
            assert(self@ =~= old(self)@.push(v));
        }
    }

    /// Appends a delete of the document that `header` describes.
    pub fn delete(&mut self, collection: CollectionName, header: Header)
        ensures
            final(self)@ =~= old(self)@.push(
                OperationV { collection: collection@, command: CommandV::Delete { header: header@ } },
            ),
    {
        let op = Operation { collection, command: Command::Delete { header } };
        let ghost v = op@;
        self.operations.push(op);
        proof {
            assert(self@ =~= old(self)@.push(v));
        }
    }
}

/// What one executed operation reported back.
#[derive(Debug)]
pub enum OperationResult {
    /// The operation did not touch a document.
    Success,
    /// A document was written; `header` is its stored header.
    DocumentUpdated { collection: CollectionName, header: Header },
    /// A document was removed.
    DocumentDeleted { collection: CollectionName, id: u64 },
}

/// The mathematical value of an `OperationResult`.
#[verifier::ext_equal]
pub enum OperationResultV {
    Success,
    DocumentUpdated { collection: (Seq<char>, Seq<char>), header: HeaderV },
    DocumentDeleted { collection: (Seq<char>, Seq<char>), id: u64 },
}

impl View for OperationResult {
    type V = OperationResultV;

    open spec fn view(&self) -> OperationResultV {
        match self {
            OperationResult::Success => OperationResultV::Success,
            OperationResult::DocumentUpdated { collection, header } =>
                OperationResultV::DocumentUpdated { collection: collection@, header: header@ },
            OperationResult::DocumentDeleted { collection, id } =>
                OperationResultV::DocumentDeleted { collection: collection@, id: *id },
        }
    }
}

/// One document that a committed transaction changed.
#[derive(Debug)]
pub struct ChangedDocument {
    pub collection: CollectionName,
    pub id: u64,
    pub deleted: bool,
}

/// The mathematical value of a `ChangedDocument`.
#[verifier::ext_equal]
pub struct ChangedDocumentV {
    pub collection: (Seq<char>, Seq<char>),
    pub id: u64,
    pub deleted: bool,
}

impl View for ChangedDocument {
    type V = ChangedDocumentV;

    open spec fn view(&self) -> ChangedDocumentV {
        ChangedDocumentV { collection: self.collection@, id: self.id, deleted: self.deleted }
    }
}

impl Clone for ChangedDocument {
    fn clone(&self) -> (r: Self)
        ensures
            r@ == self@,
    {
        ChangedDocument { collection: self.collection.clone(), id: self.id, deleted: self.deleted }
    }
}

/// The record of one committed transaction.
#[derive(Debug)]
pub struct Executed {
    pub id: u64,
    pub changed_documents: Vec<ChangedDocument>,
}

/// The mathematical value of an `Executed` record.
#[verifier::ext_equal]
pub struct ExecutedV {
    pub id: u64,
    pub changed_documents: Seq<ChangedDocumentV>,
}

/// The views of a list of changed documents.
pub open spec fn changed_view(s: Seq<ChangedDocument>) -> Seq<ChangedDocumentV> {
    s.map_values(|c: ChangedDocument| c@)
}

impl View for Executed {
    type V = ExecutedV;

    open spec fn view(&self) -> ExecutedV {
        ExecutedV { id: self.id, changed_documents: changed_view(self.changed_documents@) }
    }
}

impl Clone for Executed {
    fn clone(&self) -> (r: Self)
        ensures
            r@ == self@,
    {
        let mut changed: Vec<ChangedDocument> = Vec::new();
        let mut i: usize = 0;
        while i < self.changed_documents.len()
            invariant
                0 <= i <= self.changed_documents@.len(),
                changed@.len() == i,
                forall|j: int| 0 <= j < i ==> (#[trigger] changed@[j]@)
                    == self.changed_documents@[j]@,
            decreases self.changed_documents@.len() - i,
        {
            changed.push(self.changed_documents[i].clone());
            i += 1;
        }
        let r = Executed { id: self.id, changed_documents: changed };
        proof {
            assert(changed_view(r.changed_documents@) =~= changed_view(self.changed_documents@));
            assert(r@ =~= self@);
        }
        r
    }
}

} // verus!
