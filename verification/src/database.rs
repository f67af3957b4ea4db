//! The database façade: schema resolution, the transaction engine, document
//! reads, view queries and reductions, and change notification.

use vstd::prelude::*;
use vstd::string::StringSliceAdditionalSpecFns;

use crate::byteorder::{bytes_clone, bytes_eq, bytes_range};
use crate::codec::{encode_u64, u64_be};
use crate::document::{digest_of, Document, DocumentV};
use crate::error::Error;
use crate::mapper::ViewState;
use crate::pubsub::{database_topic, Message, Relay};
use crate::schema::{CollectionName, Schema, Schematic, ViewName};
use crate::storage::{find_doc, DocTree};
use crate::tasks::{JobKind, TaskQueue};
use crate::transaction::{
    ChangedDocument, Command, CommandV, Executed, ExecutedV, Operation, OperationResult,
    OperationResultV, OperationV, Transaction,
};
use crate::vault::{envelope, parse_envelope, perms_allow, Permissions, Vault};
use crate::views::find_entry;

verus! {

/// The default number of transaction log records a listing returns.
pub const LIST_TRANSACTIONS_DEFAULT_RESULT_COUNT: usize = 1000;

/// The most transaction log records a listing may return.
pub const LIST_TRANSACTIONS_MAX_RESULTS: usize = 1000;

/// The freshness a reader pays for when querying a view.
#[derive(Debug, Clone, Copy, PartialEq, Eq, Structural)]
pub enum AccessPolicy {
    /// Bring the view up to date before answering.
    UpdateBefore,
    /// Answer from the current state and schedule an update.
    UpdateAfter,
    /// Answer from the current state.
    NoUpdate,
}

/// The key filter of a view query, over the big-endian key bytes.
#[derive(Debug)]
pub enum QueryKey {
    /// A single point lookup.
    Matches(Vec<u8>),
    /// Point lookups in the caller's order; missing keys are omitted.
    Multiple(Vec<Vec<u8>>),
    /// A bounded forward scan over `[start, end)`.
    Range(Vec<u8>, Vec<u8>),
}

/// The identity of a database handle: its name, descriptor registry, schema
/// logic, default encryption key, and the permissions attached to every
/// decrypt during the handle's lifetime.
#[derive(Debug)]
pub struct Data<S> {
    pub name: String,
    pub schema: Schematic,
    pub logic: S,
    pub default_encryption_key: Option<Vec<u8>>,
    pub effective_permissions: Option<Permissions>,
}

/// An embedded, schema-aware document database: per-collection document
/// trees, per-view index state, the transaction log, the vault, the pub/sub
/// relay, and the pending background jobs.
#[derive(Debug)]
pub struct Database<S> {
    pub data: Data<S>,
    pub collections: Vec<DocTree>,
    pub view_states: Vec<ViewState>,
    pub transactions: Vec<Executed>,
    pub vault: Vault,
    pub relay: Relay,
    pub tasks: TaskQueue,
}

/// The views of the transaction log.
pub open spec fn log_view(s: Seq<Executed>) -> Seq<ExecutedV> {
    s.map_values(|e: Executed| e@)
}

/// A stored document is either plaintext, or a well-formed envelope sealed
/// under the key its header names.
pub open spec fn stored_doc_wf(d: DocumentV) -> bool {
    &&& d.header.revision.sha256.len() == 32
    &&& match d.header.encryption_key {
        Some(k) => parse_envelope(d.contents) matches Some(pair) && pair.0 == k,
        None => true,
    }
}

/// The plaintext contents of a stored document.
pub open spec fn doc_plaintext(d: DocumentV) -> Seq<u8> {
    match d.header.encryption_key {
        Some(_) => match parse_envelope(d.contents) {
            Some(pair) => pair.1,
            None => Seq::empty(),
        },
        None => d.contents,
    }
}

impl<S: Schema> Database<S> {
    /// The well-formedness of a database: the schema is coherent, the state
    /// vectors parallel it, every store holds its own invariant, every
    /// stored document parses, and the transaction log is gap-free from 1.
    pub open spec fn wf(&self) -> bool {
        &&& self.data.schema.wf()
        &&& self.collections@.len() == self.data.schema.collections@.len()
        &&& self.view_states@.len() == self.data.schema.views@.len()
        &&& forall|c: int| 0 <= c < self.collections@.len() ==> (#[trigger] self.collections@[c]).wf()
        &&& forall|v: int|
            0 <= v < self.view_states@.len() ==> (#[trigger] self.view_states@[v]).wf(
                self.data.schema.views@[v].unique,
            )
        &&& forall|c: int, i: int|
            0 <= c < self.collections@.len() && 0 <= i < self.collections@[c]@.len()
                ==> stored_doc_wf(#[trigger] self.collections@[c]@[i])
        &&& self.transactions@.len() < u64::MAX - 1
        &&& forall|i: int|
            0 <= i < self.transactions@.len() ==> (#[trigger] self.transactions@[i]@.id) == i + 1
        &&& self.relay.wf()
        &&& self.tasks.wf()
    }

    /// Opens a database over an empty store: the schematic is validated,
    /// every declared collection and view starts empty, and each view's
    /// stored version marker is set to its declared version.
    pub fn new(
        name: String,
        schema: Schematic,
        logic: S,
        default_encryption_key: Option<Vec<u8>>,
    ) -> (r: Result<Self, Error>)
        ensures
            match r {
                Ok(db) => {
                    &&& db.wf()
                    &&& schema.wf()
                    &&& db.data.name@ == name@
                    &&& db.data.schema == schema
                    &&& db.data.effective_permissions is None
                    &&& forall|c: int|
                        0 <= c < db.collections@.len() ==> (#[trigger] db.collections@[c])@.len()
                            == 0 && db.collections@[c].next_id == 1
                    &&& forall|v: int|
                        0 <= v < db.view_states@.len() ==> (#[trigger] db.view_states@[v]).entries@
                            =~= Seq::<crate::views::EntryV>::empty() && db.view_states@[
                        v].invalidated@.len() == 0 && db.view_states@[v].stored_version
                            == db.data.schema.views@[v].version
                    &&& db.transactions@.len() == 0
                    &&& db.relay@ =~= Seq::<crate::pubsub::SubscriberV>::empty()
                    &&& db.relay.next_id == 0
                    &&& db.tasks@ =~= Seq::<(usize, crate::tasks::JobKind)>::empty()
                },
                Err(e) => !schema.wf() && e is SchemaAlreadyRegistered,
            },
    {
        if !validate_schematic(&schema) {
            return Err(Error::SchemaAlreadyRegistered(name));
        }
        let mut collections: Vec<DocTree> = Vec::new();
        let mut c: usize = 0;
        while c < schema.collections.len()
            invariant
                0 <= c <= schema.collections@.len(),
                collections@.len() == c,
                forall|i: int|
                    0 <= i < c ==> (#[trigger] collections@[i]).wf() && collections@[i]@.len() == 0
                        && collections@[i].next_id == 1,
            decreases schema.collections@.len() - c,
        {
            collections.push(DocTree::new());
            c += 1;
        }
        let mut view_states: Vec<ViewState> = Vec::new();
        let mut v: usize = 0;
        while v < schema.views.len()
            invariant
                0 <= v <= schema.views@.len(),
                view_states@.len() == v,
                forall|i: int|
                    0 <= i < v ==> (#[trigger] view_states@[i]).wf(true) && view_states@[i].wf(
                        false,
                    ) && view_states@[i].entries@ =~= Seq::<crate::views::EntryV>::empty()
                        && view_states@[i].invalidated@.len() == 0 && view_states@[i].stored_version
                        == schema.views@[i].version,
            decreases schema.views@.len() - v,
        {
            view_states.push(ViewState::new(schema.views[v].version));
            v += 1;
        }
        let db = Database {
            data: Data {
                name,
                schema,
                logic,
                default_encryption_key,
                effective_permissions: None,
            },
            collections,
            view_states,
            transactions: Vec::new(),
            vault: Vault::new(),
            relay: Relay::new(),
            tasks: TaskQueue::new(),
        };
        proof {
            assert forall|i: int|
                0 <= i < db.view_states@.len() implies (#[trigger] db.view_states@[i]).wf(
                db.data.schema.views@[i].unique,
            ) by {
                if db.data.schema.views@[i].unique {
                    assert(db.view_states@[i].wf(true));
                } else {
                    assert(db.view_states@[i].wf(false));
                }
            }
        }
        Ok(db)
    }

    /// Returns the name of the database.
    pub fn name(&self) -> (r: &str)
        ensures
            r@ == self.data.name@,
    {
        self.data.name.as_str()
    }

    /// Returns the descriptor registry of the database's schema.
    pub fn schematic(&self) -> (r: &Schematic)
        ensures
            r == self.data.schema,
    {
        &self.data.schema
    }

    /// Returns this database with `effective_permissions` attached to every
    /// following decrypt; replaces any previously applied permissions.
    pub fn with_effective_permissions(self, effective_permissions: Permissions) -> (r: Self)
        ensures
            r.data.effective_permissions == Some(effective_permissions),
            r.data.name == self.data.name,
            r.data.schema == self.data.schema,
            r.collections == self.collections,
            r.view_states == self.view_states,
            r.transactions == self.transactions,
            self.wf() ==> r.wf(),
    {
        Database {
            data: Data {
                name: self.data.name,
                schema: self.data.schema,
                logic: self.data.logic,
                default_encryption_key: self.data.default_encryption_key,
                effective_permissions: Some(effective_permissions),
            },
            collections: self.collections,
            view_states: self.view_states,
            transactions: self.transactions,
            vault: self.vault,
            relay: self.relay,
            tasks: self.tasks,
        }
    }

    /// The encryption key documents of `collection` are sealed under when an
    /// operation names none: the collection's declared key, else the
    /// database default.
    pub fn collection_encryption_key(&self, collection: &CollectionName) -> (r: Option<Vec<u8>>)
        requires
            self.data.schema.wf(),
        ensures
            match r {
                Some(k) => k@ == self.spec_collection_encryption_key(collection@)->0,
                None => self.spec_collection_encryption_key(collection@) is None,
            },
            r is Some == self.spec_collection_encryption_key(collection@) is Some,
    {
        match self.data.schema.encryption_key_for_collection(collection) {
            Some(k) => Some(k),
            None => match &self.data.default_encryption_key {
                Some(k) => Some(bytes_clone(k)),
                None => None,
            },
        }
    }

    /// The key that `collection_encryption_key` resolves to.
    pub open spec fn spec_collection_encryption_key(
        &self,
        collection: (Seq<char>, Seq<char>),
    ) -> Option<Seq<u8>> {
        if self.data.schema.spec_contains_collection(collection) && self.data.schema.collections@[
            self.data.schema.spec_collection_index(collection)].encryption_key is Some {
            Some(
                self.data.schema.collections@[self.data.schema.spec_collection_index(
                    collection,
                )].encryption_key->0@,
            )
        } else {
            match self.data.default_encryption_key {
                Some(ref k) => Some(k@),
                None => None,
            }
        }
    }

    /// Serializes a document for storage: when its header names a key, the
    /// contents are sealed into a vault envelope; otherwise they are kept
    /// plain. The id and revision are framed big-endian before the contents.
    pub fn serialize_document(&self, document: &Document) -> (r: Result<Vec<u8>, Error>)
        requires
            document@.header.revision.sha256.len() == 32,
        ensures
            match r {
                Ok(bytes) => bytes@ == spec_serialized_document(
                    document@,
                    match document@.header.encryption_key {
                        Some(k) => envelope(k, document@.contents),
                        None => document@.contents,
                    },
                ) && (document@.header.encryption_key matches Some(k) ==> perms_allow(
                    &self.data.effective_permissions,
                    k,
                )),
                Err(e) => e is Unauthorized && (document@.header.encryption_key matches Some(k)
                    && !perms_allow(&self.data.effective_permissions, k)),
            },
    {
        let stored_contents: Vec<u8> = match &document.header.encryption_key {
            Some(k) => {
                match self.vault.encrypt_payload(
                    k,
                    &document.contents,
                    &self.data.effective_permissions,
                ) {
                    Ok(sealed) => sealed,
                    Err(e) => {
                        return Err(e);
                    },
                }
            },
            None => bytes_clone(&document.contents),
        };
        let mut out: Vec<u8> = Vec::new();
        encode_u64(&mut out, document.header.id);
        crate::codec::encode_u32(&mut out, document.header.revision.generation);
        let mut i: usize = 0;
        let ghost pre = out@;
        while i < document.header.revision.sha256.len()
            invariant
                0 <= i <= document.header.revision.sha256@.len(),
                out@ =~= pre + document.header.revision.sha256@.subrange(0, i as int),
            decreases document.header.revision.sha256@.len() - i,
        {
            out.push(document.header.revision.sha256[i]);
            proof {
                assert(out@ =~= pre + document.header.revision.sha256@.subrange(0, i + 1 as int));
            }
            i += 1;
        }
        match &document.header.encryption_key {
            Some(k) => {
                out.push(1u8);
                encode_u64(&mut out, k.len() as u64);
                let mut j: usize = 0;
                let ghost pre2 = out@;
                while j < k.len()
                    invariant
                        0 <= j <= k@.len(),
                        out@ =~= pre2 + k@.subrange(0, j as int),
                    decreases k@.len() - j,
                {
                    out.push(k[j]);
                    proof {
                        assert(out@ =~= pre2 + k@.subrange(0, j + 1 as int));
                    }
                    j += 1;
                }
            },
            None => {
                out.push(0u8);
            },
        }
        let mut m: usize = 0;
        let ghost pre3 = out@;
        while m < stored_contents.len()
            invariant
                0 <= m <= stored_contents@.len(),
                out@ =~= pre3 + stored_contents@.subrange(0, m as int),
            decreases stored_contents@.len() - m,
        {
            out.push(stored_contents[m]);
            proof {
                assert(out@ =~= pre3 + stored_contents@.subrange(0, m + 1 as int));
            }
            m += 1;
        }
        proof {
            let d = document@;
            let sc = stored_contents@;
            assert(d.header.revision.sha256.subrange(0, d.header.revision.sha256.len() as int) =~= d.header.revision.sha256);
            assert(sc.subrange(0, sc.len() as int) =~= sc);
            match d.header.encryption_key {
                Some(k) => {
                    assert(k.subrange(0, k.len() as int) =~= k);
                    assert(out@ =~= spec_serialized_document(d, sc));
                },
                None => {
                    assert(out@ =~= spec_serialized_document(d, sc));
                },
            }
        }
        Ok(out)
    }
}

/// Every stored document of the tree parses under its recorded key.
pub open spec fn tree_docs_wf(t: DocTree) -> bool {
    forall|i: int| 0 <= i < t@.len() ==> stored_doc_wf(#[trigger] t@[i])
}

/// A tree whose lookups agree with a well-formed tree everywhere but at one
/// id, where the stored document (if any) parses, is well-formed itself.
proof fn lemma_tree_wf_pointwise(old_t: DocTree, new_t: DocTree, changed: u64)
    requires
        old_t.wf(),
        new_t.wf(),
        tree_docs_wf(old_t),
        forall|x: u64| x != changed ==> #[trigger] find_doc(new_t@, x) == find_doc(old_t@, x),
        match find_doc(new_t@, changed) {
            Some(d) => stored_doc_wf(d),
            None => true,
        },
    ensures
        tree_docs_wf(new_t),
{
    assert forall|i: int| 0 <= i < new_t@.len() implies stored_doc_wf(#[trigger] new_t@[i]) by {
        let d = new_t@[i];
        crate::storage::lemma_sorted_find_doc_at(new_t@, d.header.id, i);
        if d.header.id != changed {
            crate::storage::lemma_find_doc_in(old_t@, d.header.id);
            let j = choose|j: int|
                0 <= j < old_t@.len() && (#[trigger] old_t@[j]) == d;
            assert(stored_doc_wf(old_t@[j]));
        }
    }
}

/// No declared view is a unique view of `coll`: no operation on the
/// collection runs the synchronous pipeline or any schema callback.
pub open spec fn no_unique_views(schema: Schematic, coll: (Seq<char>, Seq<char>)) -> bool {
    forall|v: int|
        0 <= v < schema.views@.len() ==> !((#[trigger] schema.views@[v]).unique
            && schema.views@[v].collection@ == coll)
}

/// Each command kind reports the matching result kind: inserts and updates
/// report `DocumentUpdated`, deletes report `DocumentDeleted`.
pub open spec fn op_result_kind_matches(op: OperationV, res: OperationResultV) -> bool {
    match op.command {
        CommandV::Insert { .. } => res is DocumentUpdated,
        CommandV::Update { .. } => res is DocumentUpdated,
        CommandV::Delete { .. } => res is DocumentDeleted,
    }
}

/// The stored state reflects the operation's contents: an inserted or
/// updated document is stored with the operation's plaintext contents (an
/// insert additionally at the first revision of those contents).
pub open spec fn op_contents_reflected(
    schema: Schematic,
    sc: Seq<DocTree>,
    op: OperationV,
    res: OperationResultV,
) -> bool {
    match op.command {
        CommandV::Insert { contents, .. } => (res matches OperationResultV::DocumentUpdated {
            collection,
            header,
        } && header.revision == crate::document::Revision::spec_first(contents) && (
        match find_doc(sc[schema.spec_collection_index(collection)]@, header.id) {
            Some(d) => doc_plaintext(d) == contents,
            None => false,
        })),
        CommandV::Update { contents, .. } => (res matches OperationResultV::DocumentUpdated {
            collection,
            header,
        } && (match find_doc(sc[schema.spec_collection_index(collection)]@, header.id) {
            Some(d) => doc_plaintext(d) == contents,
            None => false,
        })),
        CommandV::Delete { .. } => res is DocumentDeleted,
    }
}

/// The inputs on which an operation is owed success: no schema callback and
/// no authorization or allocation failure can interfere. An insert resolves
/// to no encryption key, touches no unique view, and has id headroom; an
/// update finds its document at the caller's revision with identical
/// plaintext and readable contents; a delete finds its document under the
/// caller's exact header and touches no unique view.
pub open spec fn op_success_owed<S>(data: Data<S>, sc: Seq<DocTree>, op: OperationV) -> bool {
    let ci = data.schema.spec_collection_index(op.collection);
    match op.command {
        CommandV::Insert { contents, encryption_key } => {
            &&& spec_resolved_key(data, encryption_key, op.collection) is None
            &&& no_unique_views(data.schema, op.collection)
            &&& sc[ci].next_id < u64::MAX
        },
        CommandV::Update { header, contents } => (match find_doc(sc[ci]@, header.id) {
            Some(s) => s.header.revision == header.revision && doc_plaintext(s) == contents && (
            s.header.encryption_key matches Some(k) ==> perms_allow(
                &data.effective_permissions,
                k,
            )),
            None => false,
        }),
        CommandV::Delete { header } => (match find_doc(sc[ci]@, header.id) {
            Some(s) => s.header == header,
            None => false,
        }) && no_unique_views(data.schema, op.collection),
    }
}

/// The per-view frame of one operation on `coll`: lengths and versions are
/// kept, invalidation sets are untouched, every view state keeps its
/// invariant, and views that are not unique views of `coll` are untouched
/// entirely.
pub open spec fn views_framed(
    schema: Schematic,
    old_sv: Seq<ViewState>,
    sv: Seq<ViewState>,
    coll: (Seq<char>, Seq<char>),
) -> bool {
    &&& sv.len() == old_sv.len()
    &&& forall|v: int|
        0 <= v < sv.len() ==> (#[trigger] sv[v]).wf(schema.views@[v].unique) && sv[v].invalidated@
            == old_sv[v].invalidated@ && sv[v].stored_version == old_sv[v].stored_version
    &&& forall|v: int|
        0 <= v < sv.len() && !(schema.views@[v].unique && schema.views@[v].collection@ == coll)
            ==> (#[trigger] sv[v]) == old_sv[v]
}

/// Whether an operation result names the document `(coll, id)`.
pub open spec fn result_touches(r: OperationResultV, coll: (Seq<char>, Seq<char>), id: u64) -> bool {
    match r {
        OperationResultV::Success => false,
        OperationResultV::DocumentUpdated { collection, header } => collection == coll && header.id
            == id,
        OperationResultV::DocumentDeleted { collection, id: did } => collection == coll && did
            == id,
    }
}

/// The collection an operation result names.
pub open spec fn result_collection(r: OperationResultV) -> (Seq<char>, Seq<char>) {
    match r {
        OperationResultV::Success => (Seq::empty(), Seq::empty()),
        OperationResultV::DocumentUpdated { collection, .. } => collection,
        OperationResultV::DocumentDeleted { collection, .. } => collection,
    }
}

/// The document id an operation result names.
pub open spec fn result_id(r: OperationResultV) -> u64 {
    match r {
        OperationResultV::Success => 0,
        OperationResultV::DocumentUpdated { header, .. } => header.id,
        OperationResultV::DocumentDeleted { id, .. } => id,
    }
}

/// The result is reflected by the stored state: an updated document is
/// stored under its reported header, a deleted document is absent.
pub open spec fn result_reflected(schema: Schematic, sc: Seq<DocTree>, r: OperationResultV) -> bool {
    match r {
        OperationResultV::Success => true,
        OperationResultV::DocumentUpdated { collection, header } => schema.spec_contains_collection(
            collection,
        ) && (match find_doc(sc[schema.spec_collection_index(collection)]@, header.id) {
            Some(d) => d.header == header,
            None => false,
        }),
        OperationResultV::DocumentDeleted { collection, id } => schema.spec_contains_collection(
            collection,
        ) && find_doc(sc[schema.spec_collection_index(collection)]@, id) is None,
    }
}

impl<S: Schema> Database<S> {
    /// Runs the synchronous unique-view pipeline for one changed document:
    /// every unique view of `collection` has the document's contributions
    /// replayed (`doc` present) or subtracted (`doc` absent, a delete).
    fn update_unique_views(
        data: &Data<S>,
        sv: &mut Vec<ViewState>,
        collection: &CollectionName,
        doc: Option<&Document>,
        doc_id: u64,
    ) -> (r: Result<(), Error>)
        requires
            data.schema.wf(),
            old(sv)@.len() == data.schema.views@.len(),
            forall|v: int|
                0 <= v < old(sv)@.len() ==> (#[trigger] old(sv)@[v]).wf(
                    data.schema.views@[v].unique,
                ),
        ensures
            views_framed(data.schema, old(sv)@, final(sv)@, collection@),
            no_unique_views(data.schema, collection@) ==> r is Ok,
            r is Ok ==> forall|v: int|
                0 <= v < final(sv)@.len() && (#[trigger] data.schema.views@[v]).unique
                    && data.schema.views@[v].collection@ == collection@ ==> match doc {
                    Some(_) => exists|ems: Seq<(Seq<u8>, Seq<u8>)>|
                        ViewState::view_mapped(old(sv)@[v], final(sv)@[v], doc_id, ems),
                    None => ViewState::view_unmapped(old(sv)@[v], final(sv)@[v], doc_id),
                },
    {
        let ghost old_sv = sv@;
        let mut v: usize = 0;
        let n: usize = data.schema.views.len();
        proof {
            assert(sv@.len() == old_sv.len());
        }
        while v < n
            invariant
                old_sv == old(sv)@,
                0 <= v <= n,
                n == data.schema.views@.len(),
                data.schema.wf(),
                old_sv.len() == data.schema.views@.len(),
                sv@.len() == old_sv.len(),
                forall|j: int|
                    0 <= j < old_sv.len() ==> (#[trigger] old_sv[j]).wf(
                        data.schema.views@[j].unique,
                    ),
                forall|j: int|
                    0 <= j < sv@.len() ==> (#[trigger] sv@[j]).wf(data.schema.views@[j].unique)
                        && sv@[j].invalidated@ == old_sv[j].invalidated@ && sv@[j].stored_version
                        == old_sv[j].stored_version,
                forall|j: int|
                    0 <= j < sv@.len() && !(data.schema.views@[j].unique
                        && data.schema.views@[j].collection@ == collection@) ==> (#[trigger] sv@[j])
                        == old_sv[j],
                forall|j: int|
                    0 <= j < v && (#[trigger] data.schema.views@[j]).unique
                        && data.schema.views@[j].collection@ == collection@ ==> match doc {
                        Some(_) => exists|ems: Seq<(Seq<u8>, Seq<u8>)>|
                            ViewState::view_mapped(old_sv[j], sv@[j], doc_id, ems),
                        None => ViewState::view_unmapped(old_sv[j], sv@[j], doc_id),
                    },
                forall|j: int| v <= j < sv@.len() ==> (#[trigger] sv@[j]) == old_sv[j],
            decreases n - v,
        {
            let is_unique = data.schema.views[v].unique;
            let same_collection = data.schema.views[v].collection == *collection;
            if is_unique && same_collection {
                let ghost pre = sv@;
                let outcome: Result<(), Error> = match doc {
                    Some(d) => {
                        let ems = match data.logic.map(&data.schema.views[v].name, d) {
                            Ok(ems) => ems,
                            Err(e) => {
                                proof {
                                    assert(data.schema.views@[v as int].unique
                                        && data.schema.views@[v as int].collection@ == collection@);
                                }
                                return Err(e);
                            },
                        };
                        let vs = &mut sv[v];
                        vs.apply_mappings(
                            &data.logic,
                            &data.schema.views[v].name,
                            true,
                            data.schema.views[v].has_reduce,
                            doc_id,
                            &ems,
                        )
                    },
                    None => {
                        let vs = &mut sv[v];
                        vs.remove_contributions(
                            &data.logic,
                            &data.schema.views[v].name,
                            true,
                            data.schema.views[v].has_reduce,
                            doc_id,
                        )
                    },
                };
                proof {
                    assert(sv@.len() == pre.len());
                    assert forall|j: int| 0 <= j < pre.len() && j != v implies sv@[j] == pre[j] by {}
                    assert(pre[v as int] == old_sv[v as int]);
                    if outcome is Ok {
                        match doc {
                            Some(_) => {},
                            None => {
                                assert(ViewState::view_unmapped(
                                    old_sv[v as int],
                                    sv@[v as int],
                                    doc_id,
                                ));
                            },
                        }
                    }
                }
                match outcome {
                    Ok(_) => {},
                    Err(e) => {
                        proof {
                            assert(data.schema.views@[v as int].unique
                                && data.schema.views@[v as int].collection@ == collection@);
                        }
                        return Err(e);
                    },
                }
            }
            v += 1;
        }
        Ok(())
    }
}

/// The encryption key documents of `coll` default to: the collection's
/// declared key, else the database default.
pub open spec fn spec_data_collection_key<S>(
    data: Data<S>,
    coll: (Seq<char>, Seq<char>),
) -> Option<Seq<u8>> {
    if data.schema.spec_contains_collection(coll) && data.schema.collections@[
        data.schema.spec_collection_index(coll)].encryption_key is Some {
        Some(
            data.schema.collections@[data.schema.spec_collection_index(coll)].encryption_key->0@,
        )
    } else {
        match data.default_encryption_key {
            Some(ref k) => Some(k@),
            None => None,
        }
    }
}

/// The key an insert resolves to: the operation's own key, else the
/// collection default, else the database default.
pub open spec fn spec_resolved_key<S>(
    data: Data<S>,
    op_key: Option<Seq<u8>>,
    coll: (Seq<char>, Seq<char>),
) -> Option<Seq<u8>> {
    match op_key {
        Some(k) => Some(k),
        None => spec_data_collection_key(data, coll),
    }
}

impl<S: Schema> Database<S> {
    /// Resolves the encryption key for an insert into `collection`.
    fn resolve_key(data: &Data<S>, op_key: Option<Vec<u8>>, collection: &CollectionName) -> (r:
        Option<Vec<u8>>)
        requires
            data.schema.wf(),
        ensures
            match r {
                Some(k) => spec_resolved_key(
                    *data,
                    match op_key {
                        Some(ref k0) => Some(k0@),
                        None => None,
                    },
                    collection@,
                ) == Some(k@),
                None => spec_resolved_key(
                    *data,
                    match op_key {
                        Some(ref k0) => Some(k0@),
                        None => None,
                    },
                    collection@,
                ) is None,
            },
    {
        match op_key {
            Some(k) => Some(k),
            None => match data.schema.encryption_key_for_collection(collection) {
                Some(k) => Some(k),
                None => match &data.default_encryption_key {
                    Some(k) => Some(bytes_clone(k)),
                    None => None,
                },
            },
        }
    }

    /// The encryption key configured for a view: the key of the collection
    /// it maps, resolved like a document's default key.
    pub fn view_encryption_key(&self, vi: usize) -> (r: Option<Vec<u8>>)
        requires
            self.data.schema.wf(),
            vi < self.data.schema.views@.len(),
        ensures
            match r {
                Some(k) => Some(k@) == self.spec_collection_encryption_key(
                    self.data.schema.views@[vi as int].collection@,
                ),
                None => self.spec_collection_encryption_key(
                    self.data.schema.views@[vi as int].collection@,
                ) is None,
            },
    {
        self.collection_encryption_key(&self.data.schema.views[vi].collection)
    }

    /// Seals a plaintext document for storage: when its header names a key,
    /// the contents become a vault envelope under that key.
    fn seal_document(vault: &Vault, perms: &Option<Permissions>, doc: &Document) -> (r: Result<
        Document,
        Error,
    >)
        requires
            doc@.header.revision.sha256.len() == 32,
        ensures
            match r {
                Ok(d) => {
                    &&& d@.header == doc@.header
                    &&& stored_doc_wf(d@)
                    &&& doc_plaintext(d@) == doc@.contents
                    &&& (doc@.header.encryption_key matches Some(k) ==> perms_allow(perms, k)
                        && d@.contents == envelope(k, doc@.contents))
                    &&& (doc@.header.encryption_key is None ==> d@.contents == doc@.contents)
                },
                Err(e) => e is Unauthorized && (doc@.header.encryption_key matches Some(k)
                    && !perms_allow(perms, k)),
            },
    {
        match &doc.header.encryption_key {
            None => Ok(doc.clone()),
            Some(k) => {
                let sealed = match vault.encrypt_payload(k, &doc.contents, perms) {
                    Ok(s) => s,
                    Err(e) => {
                        return Err(e);
                    },
                };
                let klen: usize = k.len();
                proof {
                    assert(k@.len() == klen);
                    crate::vault::lemma_envelope_round_trip(k@, doc@.contents);
                }
                Ok(Document { header: doc.header.clone(), contents: sealed })
            },
        }
    }

    /// Opens a stored document under the given permissions.
    fn open_document(vault: &Vault, perms: &Option<Permissions>, doc: &Document) -> (r: Result<
        Document,
        Error,
    >)
        requires
            stored_doc_wf(doc@),
        ensures
            match r {
                Ok(d) => d@.header == doc@.header && d@.contents == doc_plaintext(doc@) && (
                doc@.header.encryption_key matches Some(k) ==> perms_allow(perms, k)),
                Err(e) => e is Unauthorized && (doc@.header.encryption_key matches Some(k)
                    && !perms_allow(perms, k)),
            },
            r is Ok <==> (match doc@.header.encryption_key {
                Some(k) => perms_allow(perms, k),
                None => true,
            }),
    {
        match &doc.header.encryption_key {
            None => Ok(doc.clone()),
            Some(_) => {
                let plain = match vault.decrypt_payload(&doc.contents, perms) {
                    Ok(p) => p,
                    Err(e) => {
                        return Err(e);
                    },
                };
                Ok(Document { header: doc.header.clone(), contents: plain })
            },
        }
    }

    /// Opens a stored document: when its header names a key, the contents
    /// envelope is opened under the caller's effective permissions, and
    /// `Unauthorized` is surfaced when they do not cover the key.
    pub fn deserialize_document(&self, doc: &Document) -> (r: Result<Document, Error>)
        requires
            stored_doc_wf(doc@),
        ensures
            match r {
                Ok(d) => d@.header == doc@.header && d@.contents == doc_plaintext(doc@) && (
                doc@.header.encryption_key matches Some(k) ==> perms_allow(
                    &self.data.effective_permissions,
                    k,
                )),
                Err(e) => e is Unauthorized && (doc@.header.encryption_key matches Some(k)
                    && !perms_allow(&self.data.effective_permissions, k)),
            },
            r is Ok <==> (match doc@.header.encryption_key {
                Some(k) => perms_allow(&self.data.effective_permissions, k),
                None => true,
            }),
    {
        Self::open_document(&self.vault, &self.data.effective_permissions, doc)
    }

    /// Executes an update: checks existence and the caller's revision, and
    /// when the new contents differ from the stored plaintext, stores the
    /// next revision and reruns the unique-view pipeline. Saving identical
    /// contents succeeds with the unchanged header and writes nothing.
    fn execute_update(
        data: &Data<S>,
        vault: &Vault,
        sc: &mut Vec<DocTree>,
        sv: &mut Vec<ViewState>,
        ci: usize,
        collection: &CollectionName,
        header: &crate::document::Header,
        contents: Vec<u8>,
    ) -> (r: Result<OperationResult, Error>)
        requires
            data.schema.wf(),
            data.schema.spec_contains_collection(collection@),
            ci == data.schema.spec_collection_index(collection@),
            old(sc)@.len() == data.schema.collections@.len(),
            old(sv)@.len() == data.schema.views@.len(),
            forall|c: int|
                0 <= c < old(sc)@.len() ==> (#[trigger] old(sc)@[c]).wf() && tree_docs_wf(
                    old(sc)@[c],
                ),
            forall|v: int|
                0 <= v < old(sv)@.len() ==> (#[trigger] old(sv)@[v]).wf(
                    data.schema.views@[v].unique,
                ),
        ensures
            final(sc)@.len() == old(sc)@.len(),
            forall|cj: int|
                0 <= cj < old(sc)@.len() && cj != ci ==> (#[trigger] final(sc)@[cj]) == old(sc)@[cj],
            forall|c: int|
                0 <= c < final(sc)@.len() ==> (#[trigger] final(sc)@[c]).wf() && tree_docs_wf(
                    final(sc)@[c],
                ),
            views_framed(data.schema, old(sv)@, final(sv)@, collection@),
            (match find_doc(old(sc)@[ci as int]@, header@.id) {
                Some(s) => s.header.revision == header@.revision && doc_plaintext(s) == contents@
                    && (s.header.encryption_key matches Some(k) ==> perms_allow(
                    &data.effective_permissions,
                    k,
                )),
                None => false,
            }) ==> r is Ok,
            final(sc)@[ci as int].next_id == old(sc)@[ci as int].next_id,
            ({
                let stored0 = find_doc(old(sc)@[ci as int]@, header@.id);
                match r {
                    Ok(res) => {
                        &&& (stored0 matches Some(s) && {
                            &&& s.header.revision == header@.revision
                            &&& (res@ matches OperationResultV::DocumentUpdated {
                                collection: cv,
                                header: h,
                            } && {
                                &&& cv == collection@
                                &&& h.id == header@.id
                                &&& (doc_plaintext(s) == contents@ ==> h == s.header && final(sc)@[ci as int] == old(sc)@[ci as int] && final(sv)@ == old(sv)@)
                                &&& (doc_plaintext(s) != contents@ ==> {
                                    &&& h.revision.generation == crate::document::next_generation(
                                        s.header.revision.generation,
                                    )
                                    &&& h.revision.sha256 == digest_of(contents@)
                                    &&& h.encryption_key == header@.encryption_key
                                    &&& (match find_doc(final(sc)@[ci as int]@, h.id) {
                                        Some(d) => d.header == h && doc_plaintext(d) == contents@,
                                        None => false,
                                    })
                                    &&& forall|x: u64|
                                        x != h.id ==> #[trigger] find_doc(
                                            final(sc)@[ci as int]@,
                                            x,
                                        ) == find_doc(old(sc)@[ci as int]@, x)
                                    &&& forall|v: int|
                                        0 <= v < final(sv)@.len() && (
                                        #[trigger] data.schema.views@[v]).unique
                                            && data.schema.views@[v].collection@ == collection@
                                            ==> exists|ems: Seq<(Seq<u8>, Seq<u8>)>|
                                            ViewState::view_mapped(
                                                old(sv)@[v],
                                                final(sv)@[v],
                                                header@.id,
                                                ems,
                                            )
                                })
                            })
                        })
                    },
                    Err(e) => {
                        &&& (stored0 is None ==> e is DocumentNotFound)
                        &&& ((stored0 matches Some(s) && s.header.revision != header@.revision)
                            ==> (e is DocumentConflict || e is Unauthorized))
                    },
                }
            }),
    {
        let ghost pre_sc = sc@;
        let stored: Document = {
            let tree = &sc[ci];
            match tree.get(header.id) {
                Some(d) => d.clone(),
                None => {
                    proof {
                        assert(views_framed(data.schema, sv@, sv@, collection@));
                    }
                    return Err(Error::DocumentNotFound(collection.clone(), header.id));
                },
            }
        };
        proof {
            assert(stored_doc_wf(stored@)) by {
                let s = pre_sc[ci as int]@;
                assert(find_doc(s, header@.id) == Some(stored@));
                crate::storage::lemma_find_doc_in(s, header@.id);
                let i = choose|i: int| 0 <= i < s.len() && (#[trigger] s[i]) == stored@;
                assert(stored_doc_wf(s[i]));
            }
        }
        let plain = match Self::open_document(vault, &data.effective_permissions, &stored) {
            Ok(d) => d,
            Err(e) => {
                proof {
                    assert(views_framed(data.schema, sv@, sv@, collection@));
                }
                return Err(e);
            },
        };
        if !(plain.header.revision == header.revision) {
            proof {
                assert(views_framed(data.schema, sv@, sv@, collection@));
            }
            return Err(Error::DocumentConflict(collection.clone(), header.id));
        }
        let updated = match plain.create_new_revision(contents) {
            None => {
                // Identical contents: succeed with the unchanged header and
                // write nothing.
                proof {
                    assert(views_framed(data.schema, sv@, sv@, collection@));
                }
                return Ok(
                    OperationResult::DocumentUpdated {
                        collection: collection.clone(),
                        header: stored.header.clone(),
                    },
                );
            },
            Some(mut updated) => {
                // Carry an updated encryption key over from the caller.
                updated.header.encryption_key = match &header.encryption_key {
                    Some(k) => Some(bytes_clone(k)),
                    None => None,
                };
                updated
            },
        };
        let sealed = match Self::seal_document(vault, &data.effective_permissions, &updated) {
            Ok(s) => s,
            Err(e) => {
                proof {
                    assert(views_framed(data.schema, sv@, sv@, collection@));
                }
                return Err(e);
            },
        };
        {
            let tree = &mut sc[ci];
            tree.replace(sealed);
        }
        proof {
            assert(sc@.len() == pre_sc.len());
            assert forall|cj: int|
                0 <= cj < pre_sc.len() && cj != ci implies sc@[cj] == pre_sc[cj] by {}
            lemma_tree_wf_pointwise(pre_sc[ci as int], sc@[ci as int], updated@.header.id);
        }
        match Self::update_unique_views(data, sv, collection, Some(&updated), header.id) {
            Ok(_) => {},
            Err(e) => {
                return Err(e);
            },
        }
        Ok(
            OperationResult::DocumentUpdated {
                collection: collection.clone(),
                header: updated.header,
            },
        )
    }

    /// Executes a delete: checks existence and that the caller's header
    /// matches the stored one, removes the document, and subtracts its view
    /// contributions.
    fn execute_delete(
        data: &Data<S>,
        sc: &mut Vec<DocTree>,
        sv: &mut Vec<ViewState>,
        ci: usize,
        collection: &CollectionName,
        header: &crate::document::Header,
    ) -> (r: Result<OperationResult, Error>)
        requires
            data.schema.wf(),
            data.schema.spec_contains_collection(collection@),
            ci == data.schema.spec_collection_index(collection@),
            old(sc)@.len() == data.schema.collections@.len(),
            old(sv)@.len() == data.schema.views@.len(),
            forall|c: int|
                0 <= c < old(sc)@.len() ==> (#[trigger] old(sc)@[c]).wf() && tree_docs_wf(
                    old(sc)@[c],
                ),
            forall|v: int|
                0 <= v < old(sv)@.len() ==> (#[trigger] old(sv)@[v]).wf(
                    data.schema.views@[v].unique,
                ),
        ensures
            final(sc)@.len() == old(sc)@.len(),
            forall|cj: int|
                0 <= cj < old(sc)@.len() && cj != ci ==> (#[trigger] final(sc)@[cj]) == old(sc)@[cj],
            forall|c: int|
                0 <= c < final(sc)@.len() ==> (#[trigger] final(sc)@[c]).wf() && tree_docs_wf(
                    final(sc)@[c],
                ),
            views_framed(data.schema, old(sv)@, final(sv)@, collection@),
            ((match find_doc(old(sc)@[ci as int]@, header@.id) {
                Some(s) => s.header == header@,
                None => false,
            }) && no_unique_views(data.schema, collection@)) ==> r is Ok,
            final(sc)@[ci as int].next_id == old(sc)@[ci as int].next_id,
            ({
                let stored0 = find_doc(old(sc)@[ci as int]@, header@.id);
                match r {
                    Ok(res) => {
                        &&& (stored0 matches Some(s) && s.header == header@)
                        &&& res@ == OperationResultV::DocumentDeleted {
                            collection: collection@,
                            id: header@.id,
                        }
                        &&& find_doc(final(sc)@[ci as int]@, header@.id) is None
                        &&& forall|x: u64|
                            x != header@.id ==> #[trigger] find_doc(final(sc)@[ci as int]@, x)
                                == find_doc(old(sc)@[ci as int]@, x)
                        &&& forall|v: int|
                            0 <= v < final(sv)@.len() && (#[trigger] data.schema.views@[v]).unique
                                && data.schema.views@[v].collection@ == collection@
                                ==> ViewState::view_unmapped(
                                old(sv)@[v],
                                final(sv)@[v],
                                header@.id,
                            )
                    },
                    Err(e) => {
                        &&& (stored0 is None ==> e is DocumentNotFound)
                        &&& ((stored0 matches Some(s) && s.header != header@)
                            ==> e is DocumentConflict)
                    },
                }
            }),
    {
        let ghost pre_sc = sc@;
        let matches_header: bool = {
            let tree = &sc[ci];
            match tree.get(header.id) {
                Some(d) => d.header == *header,
                None => {
                    proof {
                        assert(views_framed(data.schema, sv@, sv@, collection@));
                    }
                    return Err(Error::DocumentNotFound(collection.clone(), header.id));
                },
            }
        };
        if !matches_header {
            proof {
                assert(views_framed(data.schema, sv@, sv@, collection@));
            }
            return Err(Error::DocumentConflict(collection.clone(), header.id));
        }
        {
            let tree = &mut sc[ci];
            tree.remove(header.id);
        }
        proof {
            assert(sc@.len() == pre_sc.len());
            assert forall|cj: int|
                0 <= cj < pre_sc.len() && cj != ci implies sc@[cj] == pre_sc[cj] by {}
            lemma_tree_wf_pointwise(pre_sc[ci as int], sc@[ci as int], header@.id);
        }
        match Self::update_unique_views(data, sv, collection, None, header.id) {
            Ok(_) => {},
            Err(e) => {
                return Err(e);
            },
        }
        Ok(OperationResult::DocumentDeleted { collection: collection.clone(), id: header.id })
    }

    /// Executes an insert: allocates the next id of the collection, seals
    /// and stores the document, and runs the unique-view pipeline.
    fn execute_insert(
        data: &Data<S>,
        vault: &Vault,
        sc: &mut Vec<DocTree>,
        sv: &mut Vec<ViewState>,
        ci: usize,
        collection: &CollectionName,
        contents: Vec<u8>,
        encryption_key: Option<Vec<u8>>,
    ) -> (r: Result<OperationResult, Error>)
        requires
            data.schema.wf(),
            data.schema.spec_contains_collection(collection@),
            ci == data.schema.spec_collection_index(collection@),
            old(sc)@.len() == data.schema.collections@.len(),
            old(sv)@.len() == data.schema.views@.len(),
            forall|c: int|
                0 <= c < old(sc)@.len() ==> (#[trigger] old(sc)@[c]).wf() && tree_docs_wf(
                    old(sc)@[c],
                ),
            forall|v: int|
                0 <= v < old(sv)@.len() ==> (#[trigger] old(sv)@[v]).wf(
                    data.schema.views@[v].unique,
                ),
        ensures
            final(sc)@.len() == old(sc)@.len(),
            forall|cj: int|
                0 <= cj < old(sc)@.len() && cj != ci ==> (#[trigger] final(sc)@[cj]) == old(sc)@[cj],
            forall|c: int|
                0 <= c < final(sc)@.len() ==> (#[trigger] final(sc)@[c]).wf() && tree_docs_wf(
                    final(sc)@[c],
                ),
            views_framed(data.schema, old(sv)@, final(sv)@, collection@),
            (spec_resolved_key(
                *data,
                match encryption_key {
                    Some(ref k0) => Some(k0@),
                    None => None,
                },
                collection@,
            ) is None && no_unique_views(data.schema, collection@) && old(sc)@[ci as int].next_id
                < u64::MAX) ==> r is Ok,
            final(sc)@[ci as int].next_id <= old(sc)@[ci as int].next_id + 1,
            match r {
                Ok(res) => {
                    &&& (res@ matches OperationResultV::DocumentUpdated {
                        collection: cv,
                        header: h,
                    } && {
                        &&& cv == collection@
                        &&& h.id == old(sc)@[ci as int].next_id
                        &&& h.revision == crate::document::Revision::spec_first(contents@)
                        &&& h.encryption_key == spec_resolved_key(
                            *data,
                            match encryption_key {
                                Some(ref k0) => Some(k0@),
                                None => None,
                            },
                            collection@,
                        )
                        &&& (match find_doc(final(sc)@[ci as int]@, h.id) {
                            Some(d) => d.header == h && doc_plaintext(d) == contents@,
                            None => false,
                        })
                        &&& forall|x: u64|
                            x != h.id ==> #[trigger] find_doc(final(sc)@[ci as int]@, x)
                                == find_doc(old(sc)@[ci as int]@, x)
                        &&& forall|v: int|
                            0 <= v < final(sv)@.len() && (#[trigger] data.schema.views@[v]).unique
                                && data.schema.views@[v].collection@ == collection@ ==> exists|
                                ems: Seq<(Seq<u8>, Seq<u8>)>,
                            |
                                ViewState::view_mapped(old(sv)@[v], final(sv)@[v], h.id, ems)
                    })
                },
                Err(_) => true,
            },
    {
        let key = Self::resolve_key(data, encryption_key, collection);
        let ghost pre_sc = sc@;
        let tree = &mut sc[ci];
        let id = match tree.generate_id() {
            Ok(id) => id,
            Err(e) => {
                proof {
                    assert(sc@.len() == pre_sc.len());
                    assert forall|cj: int|
                        0 <= cj < pre_sc.len() && cj != ci implies sc@[cj] == pre_sc[cj] by {}
                    assert(views_framed(data.schema, sv@, sv@, collection@));
                }
                return Err(e);
            },
        };
        let doc = Document::new(id, contents, key);
        let stored = match Self::seal_document(vault, &data.effective_permissions, &doc) {
            Ok(s) => s,
            Err(e) => {
                proof {
                    assert(sc@.len() == pre_sc.len());
                    assert forall|cj: int|
                        0 <= cj < pre_sc.len() && cj != ci implies sc@[cj] == pre_sc[cj] by {}
                    assert(views_framed(data.schema, sv@, sv@, collection@));
                }
                return Err(e);
            },
        };
        let tree = &mut sc[ci];
        tree.push_new(stored);
        proof {
            assert(sc@.len() == pre_sc.len());
            assert forall|cj: int|
                0 <= cj < pre_sc.len() && cj != ci implies sc@[cj] == pre_sc[cj] by {}
            assert(tree_docs_wf(sc@[ci as int])) by {
                assert forall|i: int|
                    0 <= i < sc@[ci as int]@.len() implies stored_doc_wf(
                    #[trigger] sc@[ci as int]@[i],
                ) by {
                    if i < pre_sc[ci as int]@.len() {
                        assert(sc@[ci as int]@[i] == pre_sc[ci as int]@[i]);
                    }
                }
            }
        }
        match Self::update_unique_views(data, sv, collection, Some(&doc), id) {
            Ok(_) => {},
            Err(e) => {
                return Err(e);
            },
        }
        Ok(OperationResult::DocumentUpdated { collection: collection.clone(), header: doc.header })
    }
}

/// The views of a list of operation results.
pub open spec fn results_view(s: Seq<OperationResult>) -> Seq<OperationResultV> {
    s.map_values(|r: OperationResult| r@)
}

/// The changed-documents record that a result list produces, in order.
pub open spec fn changed_of(rs: Seq<OperationResultV>) -> Seq<crate::transaction::ChangedDocumentV>
    decreases rs.len(),
{
    if rs.len() == 0 {
        Seq::empty()
    } else {
        let rest = changed_of(rs.drop_last());
        match rs.last() {
            OperationResultV::Success => rest,
            OperationResultV::DocumentUpdated { collection, header } => rest.push(
                crate::transaction::ChangedDocumentV {
                    collection,
                    id: header.id,
                    deleted: false,
                },
            ),
            OperationResultV::DocumentDeleted { collection, id } => rest.push(
                crate::transaction::ChangedDocumentV { collection, id, deleted: true },
            ),
        }
    }
}

/// No later result touches the document that result `i` names: result `i`
/// decides that document's final state.
pub open spec fn is_last_touch(rs: Seq<OperationResultV>, i: int) -> bool {
    forall|j: int|
        i < j < rs.len() ==> !result_touches(#[trigger] rs[j], result_collection(rs[i]), result_id(rs[i]))
}

/// No result of the list touches the document `(coll, id)`.
pub open spec fn no_result_touches(
    rs: Seq<OperationResultV>,
    coll: (Seq<char>, Seq<char>),
    id: u64,
) -> bool {
    forall|j: int| 0 <= j < rs.len() ==> !result_touches(#[trigger] rs[j], coll, id)
}

/// A batch owed unconditional success: every operation is an insert that
/// resolves to no encryption key into a declared collection with no unique
/// view (so no schema callback and no authorization can interfere), and the
/// log and every id generator have headroom.
pub open spec fn plain_insert_batch<S>(db: Database<S>, txn: Seq<OperationV>) -> bool {
    &&& forall|i: int|
        0 <= i < txn.len() ==> ((#[trigger] txn[i]).command matches CommandV::Insert {
            encryption_key,
            ..
        } && encryption_key is None)
    &&& forall|i: int|
        0 <= i < txn.len() ==> db.data.schema.spec_contains_collection(
            (#[trigger] txn[i]).collection,
        )
    &&& forall|i: int|
        0 <= i < txn.len() ==> spec_data_collection_key(db.data, (#[trigger] txn[i]).collection)
            is None
    &&& forall|i: int|
        0 <= i < txn.len() ==> no_unique_views(db.data.schema, (#[trigger] txn[i]).collection)
    &&& db.transactions@.len() < u64::MAX - 2
    &&& forall|c: int|
        0 <= c < db.collections@.len() ==> (#[trigger] db.collections@[c]).next_id + txn.len()
            <= u64::MAX
}

impl<S: Schema> Database<S> {
    /// Executes one operation against the staged state.
    fn execute_operation(
        data: &Data<S>,
        vault: &Vault,
        sc: &mut Vec<DocTree>,
        sv: &mut Vec<ViewState>,
        op: &Operation,
    ) -> (r: Result<OperationResult, Error>)
        requires
            data.schema.wf(),
            data.schema.spec_contains_collection(op.collection@),
            old(sc)@.len() == data.schema.collections@.len(),
            old(sv)@.len() == data.schema.views@.len(),
            forall|c: int|
                0 <= c < old(sc)@.len() ==> (#[trigger] old(sc)@[c]).wf() && tree_docs_wf(
                    old(sc)@[c],
                ),
            forall|v: int|
                0 <= v < old(sv)@.len() ==> (#[trigger] old(sv)@[v]).wf(
                    data.schema.views@[v].unique,
                ),
        ensures
            final(sc)@.len() == old(sc)@.len(),
            forall|c: int|
                0 <= c < final(sc)@.len() ==> (#[trigger] final(sc)@[c]).wf() && tree_docs_wf(
                    final(sc)@[c],
                ),
            views_framed(data.schema, old(sv)@, final(sv)@, op.collection@),
            ({
                let ci = data.schema.spec_collection_index(op.collection@);
                &&& forall|cj: int|
                    0 <= cj < old(sc)@.len() && cj != ci ==> (#[trigger] final(sc)@[cj]) == old(sc)@[cj]
                &&& match r {
                    Ok(res) => {
                        &&& !(res@ is Success)
                        &&& result_collection(res@) == op.collection@
                        &&& result_reflected(data.schema, final(sc)@, res@)
                        &&& op_result_kind_matches(op@, res@)
                        &&& op_contents_reflected(data.schema, final(sc)@, op@, res@)
                        &&& forall|v: int|
                            0 <= v < final(sv)@.len() && (#[trigger] data.schema.views@[v]).unique
                                && data.schema.views@[v].collection@ == op.collection@ ==> match op@.command {
                                CommandV::Delete { .. } => ViewState::view_unmapped(
                                    old(sv)@[v],
                                    final(sv)@[v],
                                    result_id(res@),
                                ),
                                _ => final(sv)@[v] == old(sv)@[v] || exists|
                                    ems: Seq<(Seq<u8>, Seq<u8>)>,
                                |
                                    ViewState::view_mapped(
                                        old(sv)@[v],
                                        final(sv)@[v],
                                        result_id(res@),
                                        ems,
                                    ),
                            }
                        &&& forall|x: u64|
                            !result_touches(res@, op.collection@, x) ==> #[trigger] find_doc(
                                final(sc)@[ci]@,
                                x,
                            ) == find_doc(old(sc)@[ci]@, x)
                    },
                    Err(_) => true,
                }
            }),
            op_success_owed(*data, old(sc)@, op@) ==> r is Ok,
            final(sc)@[data.schema.spec_collection_index(op.collection@)].next_id <= old(sc)@[
                data.schema.spec_collection_index(op.collection@)].next_id + 1,
            (op@.command matches CommandV::Insert { .. }) ==> match r {
                Ok(res) => (res@ matches OperationResultV::DocumentUpdated { header, .. }
                    && header.id == old(sc)@[data.schema.spec_collection_index(
                    op.collection@,
                )].next_id),
                Err(_) => true,
            },
    {
        let ci = match data.schema.collection_index(&op.collection) {
            Some(ci) => ci,
            None => {
                proof {
                    assert(false);
                }
                return Err(Error::CollectionNotFound);
            },
        };
        match &op.command {
            Command::Insert { contents, encryption_key } => {
                let contents = bytes_clone(contents);
                let encryption_key = match encryption_key {
                    Some(k) => Some(bytes_clone(k)),
                    None => None,
                };
                let r = Self::execute_insert(
                    data,
                    vault,
                    sc,
                    sv,
                    ci,
                    &op.collection,
                    contents,
                    encryption_key,
                );
                match &r {
                    Ok(res) => {
                        proof {
                            assert(res@ matches OperationResultV::DocumentUpdated { header: h, .. }
                                && result_id(res@) == h.id);
                        }
                    },
                    Err(_) => {},
                }
                r
            },
            Command::Update { header, contents } => {
                let contents = bytes_clone(contents);
                let r = Self::execute_update(data, vault, sc, sv, ci, &op.collection, header, contents);
                match &r {
                    Ok(res) => {
                        proof {
                            assert(res@ matches OperationResultV::DocumentUpdated { header: h, .. }
                                && result_id(res@) == h.id && h.id == header@.id);
                            let stored0 = find_doc(old(sc)@[ci as int]@, header@.id);
                            assert(stored0 is Some);
                            let s = stored0->0;
                            if doc_plaintext(s) == contents@ {
                                assert forall|v: int| 0 <= v < final(sv)@.len() implies (
                                #[trigger] sv@[v]) == old(sv)@[v] by {
                                    assert(sv@ == old(sv)@);
                                }
                            }
                        }
                    },
                    Err(_) => {},
                }
                r
            },
            Command::Delete { header } => {
                let r = Self::execute_delete(data, sc, sv, ci, &op.collection, header);
                match &r {
                    Ok(res) => {
                        proof {
                            assert(result_id(res@) == header@.id);
                        }
                    },
                    Err(_) => {},
                }
                r
            },
        }
    }

    /// Applies a batch of operations atomically. On any error the database
    /// is unchanged; on success the operations have taken effect in order,
    /// exactly one record was appended to the transaction log with the next
    /// id, every changed document of a non-unique view is marked
    /// invalidated, and background updates for those views are scheduled.
    #[verifier::rlimit(100)]
    pub fn apply_transaction(&mut self, transaction: &Transaction) -> (r: Result<
        Vec<OperationResult>,
        Error,
    >)
        requires
            old(self).wf(),
        ensures
            final(self).wf(),
            final(self).data == old(self).data,
            final(self).relay == old(self).relay,
            match r {
                Ok(results) => {
                    let rv = results_view(results@);
                    let schema = old(self).data.schema;
                    &&& rv.len() == transaction@.len()
                    &&& forall|i: int|
                        0 <= i < transaction@.len() ==> schema.spec_contains_collection(
                            (#[trigger] transaction@[i]).collection,
                        )
                    &&& forall|i: int|
                        0 <= i < rv.len() ==> !((#[trigger] rv[i]) is Success)
                            && result_collection(rv[i]) == transaction@[i].collection
                    &&& forall|i: int|
                        0 <= i < rv.len() ==> op_result_kind_matches(
                            #[trigger] transaction@[i],
                            rv[i],
                        )
                    &&& (transaction@.len() >= 1 && (transaction@[0].command
                        matches CommandV::Insert { .. }) ==> (rv[0]
                        matches OperationResultV::DocumentUpdated { header, .. } && header.id
                        == old(self).collections@[schema.spec_collection_index(
                        transaction@[0].collection,
                    )].next_id))
                    &&& final(self).transactions@.len() == old(self).transactions@.len() + 1
                    &&& forall|i: int|
                        0 <= i < old(self).transactions@.len() ==> (#[trigger] final(self).transactions@[i]) == old(self).transactions@[i]
                    &&& final(self).transactions@.last()@.id == old(self).transactions@.len() + 1
                    &&& final(self).transactions@.last()@.changed_documents == changed_of(rv)
                    &&& forall|i: int|
                        0 <= i < rv.len() && is_last_touch(rv, i) ==> result_reflected(
                            schema,
                            final(self).collections@,
                            #[trigger] rv[i],
                        ) && op_contents_reflected(
                            schema,
                            final(self).collections@,
                            transaction@[i],
                            rv[i],
                        )
                    &&& forall|ci: int, x: u64|
                        0 <= ci < old(self).collections@.len() && #[trigger] no_result_touches(
                            rv,
                            schema.collections@[ci].name@,
                            x,
                        ) ==> find_doc(final(self).collections@[ci]@, x) == find_doc(
                            old(self).collections@[ci]@,
                            x,
                        )
                    &&& forall|i: int, v: int|
                        0 <= i < rv.len() && !((#[trigger] rv[i]) is Success) && 0 <= v
                            < schema.views@.len() && (#[trigger] schema.views@[v]).collection@
                            == result_collection(rv[i]) && !schema.views@[v].unique ==> final(self).view_states@[v].invalidated@.contains(result_id(rv[i]))
                    &&& forall|v: int, x: u64|
                        0 <= v < old(self).view_states@.len() && old(self).view_states@[v].invalidated@.contains(x) ==> final(self).view_states@[v].invalidated@.contains(x)
                    &&& forall|v: int|
                        0 <= v < old(self).view_states@.len() && (
                        #[trigger] schema.views@[v]).unique ==> final(self).view_states@[
                        v].invalidated@ == old(self).view_states@[v].invalidated@
                    &&& forall|v: int, x: u64|
                        0 <= v < old(self).view_states@.len() && #[trigger] final(self).view_states@[
                        v].invalidated@.contains(x) ==> old(self).view_states@[
                        v].invalidated@.contains(x) || (!schema.views@[v].unique && exists|i: int|
                            0 <= i < rv.len() && result_collection(#[trigger] rv[i])
                                == schema.views@[v].collection@ && result_id(rv[i]) == x)
                    &&& forall|i: int, v: int|
                        0 <= i < rv.len() && is_last_touch(rv, i) && ((#[trigger] rv[i])
                            is DocumentDeleted) && 0 <= v < schema.views@.len() && (
                        #[trigger] schema.views@[v]).unique && schema.views@[v].collection@
                            == result_collection(rv[i]) ==> final(self).view_states@[
                        v].document_map.spec_get(result_id(rv[i])) is None
                },
                Err(_) => *final(self) == *old(self),
            },
            (transaction@.len() == 0 && old(self).transactions@.len() < u64::MAX - 2) ==> r is Ok,
            plain_insert_batch(*old(self), transaction@) ==> r is Ok,
            (exists|i: int|
                0 <= i < transaction@.len() && !old(self).data.schema.spec_contains_collection(
                    (#[trigger] transaction@[i]).collection,
                )) ==> (r matches Err(e) && e is CollectionNotFound),
    {
        let ghost schema = self.data.schema;
        // Validate every named collection up front.
        let mut vi: usize = 0;
        while vi < transaction.operations.len()
            invariant
                *self == *old(self),
                old(self).wf(),
                schema == self.data.schema,
                0 <= vi <= transaction.operations@.len(),
                forall|i: int|
                    0 <= i < vi ==> schema.spec_contains_collection(
                        (#[trigger] transaction.operations@[i]).collection@,
                    ),
            decreases transaction.operations@.len() - vi,
        {
            if !self.data.schema.contains_collection_id(&transaction.operations[vi].collection) {
                proof {
                    assert(transaction@[vi as int] == transaction.operations@[vi as int]@);
                    assert(!schema.spec_contains_collection(transaction@[vi as int].collection));
                }
                return Err(Error::CollectionNotFound);
            }
            vi += 1;
        }
        proof {
            assert forall|i: int|
                0 <= i < transaction@.len() implies schema.spec_contains_collection(
                (#[trigger] transaction@[i]).collection,
            ) by {
                assert(transaction@[i] == transaction.operations@[i]@);
            }
        }
        if self.transactions.len() as u64 >= u64::MAX - 2 {
            return Err(Error::Storage("transaction log is full".to_owned()));
        }
        // Stage the whole state so that any abort rolls everything back.
        let mut sc: Vec<DocTree> = Vec::new();
        let mut di: usize = 0;
        while di < self.collections.len()
            invariant
                *self == *old(self),
                old(self).wf(),
                0 <= di <= self.collections@.len(),
                sc@.len() == di,
                forall|c: int|
                    0 <= c < di ==> (#[trigger] sc@[c])@ == self.collections@[c]@ && sc@[c].next_id
                        == self.collections@[c].next_id,
            decreases self.collections@.len() - di,
        {
            sc.push(self.collections[di].clone());
            di += 1;
        }
        let mut sv: Vec<ViewState> = Vec::new();
        let mut dv: usize = 0;
        while dv < self.view_states.len()
            invariant
                *self == *old(self),
                old(self).wf(),
                0 <= dv <= self.view_states@.len(),
                sv@.len() == dv,
                forall|v: int|
                    0 <= v < dv ==> (#[trigger] sv@[v]).entries@ == self.view_states@[v].entries@
                        && sv@[v].document_map@ == self.view_states@[v].document_map@ && sv@[
                    v].invalidated@ == self.view_states@[v].invalidated@ && sv@[v].omitted@
                        == self.view_states@[v].omitted@ && sv@[v].stored_version
                        == self.view_states@[v].stored_version,
            decreases self.view_states@.len() - dv,
        {
            sv.push(self.view_states[dv].duplicate());
            dv += 1;
        }
        proof {
            assert(schema == old(self).data.schema);
            assert forall|c: int| 0 <= c < sc@.len() implies (#[trigger] sc@[c]).wf()
                && tree_docs_wf(sc@[c]) by {
                assert(old(self).collections@[c].wf());
                assert(tree_docs_wf(old(self).collections@[c])) by {
                    assert forall|i: int|
                        0 <= i < old(self).collections@[c]@.len() implies stored_doc_wf(
                        #[trigger] old(self).collections@[c]@[i],
                    ) by {}
                }
                assert forall|i: int| 0 <= i < sc@[c]@.len() implies stored_doc_wf(
                    #[trigger] sc@[c]@[i],
                ) by {
                    assert(sc@[c]@[i] == old(self).collections@[c]@[i]);
                }
            }
            assert forall|v: int| 0 <= v < sv@.len() implies (#[trigger] sv@[v]).wf(
                schema.views@[v].unique,
            ) by {
                assert(old(self).view_states@[v].wf(schema.views@[v].unique));
                lemma_view_state_wf_views(
                    old(self).view_states@[v],
                    sv@[v],
                    schema.views@[v].unique,
                );
            }
        }
        // Execute the operations in order against the staged state.
        let mut results: Vec<OperationResult> = Vec::new();
        let mut k: usize = 0;
        let n_ops: usize = transaction.operations.len();
        proof {
            assert(results_view(results@) =~= Seq::<OperationResultV>::empty());
        }
        while k < n_ops
            invariant
                *self == *old(self),
                old(self).wf(),
                schema == self.data.schema,
                n_ops == transaction.operations@.len(),
                n_ops == transaction@.len(),
                0 <= k <= n_ops,
                forall|i: int|
                    0 <= i < n_ops ==> schema.spec_contains_collection(
                        (#[trigger] transaction@[i]).collection,
                    ),
                forall|i: int|
                    0 <= i < n_ops ==> (#[trigger] transaction@[i]) == transaction.operations@[i]@,
                sc@.len() == schema.collections@.len(),
                sv@.len() == schema.views@.len(),
                forall|c: int|
                    0 <= c < sc@.len() ==> (#[trigger] sc@[c]).wf() && tree_docs_wf(sc@[c]),
                forall|v: int|
                    0 <= v < sv@.len() ==> (#[trigger] sv@[v]).wf(schema.views@[v].unique) && sv@[
                    v].invalidated@ == old(self).view_states@[v].invalidated@ && sv@[
                    v].stored_version == old(self).view_states@[v].stored_version,
                results@.len() == k,
                forall|i: int|
                    0 <= i < k ==> !((#[trigger] results_view(results@)[i]) is Success)
                        && result_collection(results_view(results@)[i]) == transaction@[i].collection,
                forall|i: int|
                    0 <= i < k && is_last_touch(results_view(results@), i) ==> result_reflected(
                        schema,
                        sc@,
                        #[trigger] results_view(results@)[i],
                    ),
                forall|ci: int, x: u64|
                    0 <= ci < sc@.len() && #[trigger] no_result_touches(
                        results_view(results@),
                        schema.collections@[ci].name@,
                        x,
                    ) ==> find_doc(sc@[ci]@, x) == find_doc(old(self).collections@[ci]@, x),
                forall|i: int|
                    0 <= i < k ==> op_result_kind_matches(
                        #[trigger] transaction@[i],
                        results_view(results@)[i],
                    ),
                forall|i: int|
                    0 <= i < k && is_last_touch(results_view(results@), i)
                        ==> op_contents_reflected(
                        schema,
                        sc@,
                        transaction@[i],
                        #[trigger] results_view(results@)[i],
                    ),
                k >= 1 && (transaction@[0].command matches CommandV::Insert { .. }) ==> (
                results_view(results@)[0] matches OperationResultV::DocumentUpdated {
                    header,
                    ..
                } && header.id == old(self).collections@[schema.spec_collection_index(
                    transaction@[0].collection,
                )].next_id),
                k == 0 ==> forall|c: int|
                    0 <= c < sc@.len() ==> (#[trigger] sc@[c]).next_id
                        == old(self).collections@[c].next_id && sc@[c]@
                        == old(self).collections@[c]@,
                forall|c: int|
                    0 <= c < sc@.len() ==> (#[trigger] sc@[c]).next_id
                        <= old(self).collections@[c].next_id + k,
                forall|i: int, v: int|
                    0 <= i < k && is_last_touch(results_view(results@), i) && ((
                    #[trigger] results_view(results@)[i]) is DocumentDeleted) && 0 <= v
                        < schema.views@.len() && (#[trigger] schema.views@[v]).unique
                        && schema.views@[v].collection@ == result_collection(
                        results_view(results@)[i],
                    ) ==> sv@[v].document_map.spec_get(result_id(results_view(results@)[i]))
                        is None,
            decreases n_ops - k,
        {
            let ghost pre_sc = sc@;
            let ghost pre_sv = sv@;
            let ghost pre_rv = results_view(results@);
            proof {
                assert(transaction@[k as int] == transaction.operations@[k as int]@);
            }
            let res = match Self::execute_operation(
                &self.data,
                &self.vault,
                &mut sc,
                &mut sv,
                &transaction.operations[k],
            ) {
                Ok(res) => res,
                Err(e) => {
                    proof {
                        if plain_insert_batch(*old(self), transaction@) {
                            let op = transaction@[k as int];
                            let ci = schema.spec_collection_index(op.collection);
                            assert(schema.spec_contains_collection(op.collection));
                            assert(0 <= ci < schema.collections@.len());
                            assert(op.command matches CommandV::Insert { encryption_key, .. }
                                && encryption_key is None);
                            assert(old(self).collections@[ci].next_id + transaction@.len()
                                <= u64::MAX);
                            assert(pre_sc[ci].next_id < u64::MAX);
                            assert(op_success_owed(old(self).data, pre_sc, op));
                            assert(false);
                        }
                    }
                    return Err(e);
                },
            };
            let ghost resv = res@;
            let ghost opcoll = transaction@[k as int].collection;
            let ghost ci_op = schema.spec_collection_index(opcoll);
            results.push(res);
            proof {
                let rv = results_view(results@);
                assert(rv =~= pre_rv.push(resv));
                assert(rv.len() == k + 1);
                assert forall|i: int|
                    0 <= i < k + 1 implies !((#[trigger] rv[i]) is Success) && result_collection(
                    rv[i],
                ) == transaction@[i].collection by {
                    if i < k {
                        assert(rv[i] == pre_rv[i]);
                    }
                }
                assert forall|i: int|
                    0 <= i < k + 1 implies op_result_kind_matches(
                    #[trigger] transaction@[i],
                    rv[i],
                ) by {
                    if i < k {
                        assert(rv[i] == pre_rv[i]);
                    }
                }
                if k == 0 && (transaction@[0].command matches CommandV::Insert { .. }) {
                    assert(rv[0] == resv);
                    assert(pre_sc[ci_op].next_id == old(self).collections@[ci_op].next_id);
                }
                if k >= 1 {
                    assert(rv[0] == pre_rv[0]);
                }
                assert forall|c: int|
                    0 <= c < sc@.len() implies (#[trigger] sc@[c]).next_id
                    <= old(self).collections@[c].next_id + (k + 1) by {
                    if c != ci_op {
                        assert(sc@[c] == pre_sc[c]);
                    }
                }
                // Collections other than the operation's keep their trees.
                assert forall|cj: int| 0 <= cj < sc@.len() && cj != ci_op implies (
                #[trigger] sc@[cj]) == pre_sc[cj] by {}
                // A result still deciding its document stays reflected, and
                // keeps reflecting its operation's contents.
                assert forall|i: int|
                    0 <= i < k + 1 && is_last_touch(rv, i) implies result_reflected(
                    schema,
                    sc@,
                    #[trigger] rv[i],
                ) && op_contents_reflected(schema, sc@, transaction@[i], rv[i]) by {
                    if i < k {
                        assert(rv[i] == pre_rv[i]);
                        assert(is_last_touch(pre_rv, i)) by {
                            assert forall|j: int|
                                i < j < pre_rv.len() implies !result_touches(
                                #[trigger] pre_rv[j],
                                result_collection(pre_rv[i]),
                                result_id(pre_rv[i]),
                            ) by {
                                assert(rv[j] == pre_rv[j]);
                                assert(!result_touches(
                                    rv[j],
                                    result_collection(rv[i]),
                                    result_id(rv[i]),
                                ));
                            }
                        }
                        assert(!result_touches(
                            rv[k as int],
                            result_collection(rv[i]),
                            result_id(rv[i]),
                        ));
                        let rc = result_collection(pre_rv[i]);
                        let rid = result_id(pre_rv[i]);
                        if rc == opcoll {
                            assert(!result_touches(resv, opcoll, rid));
                            assert(find_doc(sc@[ci_op]@, rid) == find_doc(pre_sc[ci_op]@, rid));
                            let rci = schema.spec_collection_index(rc);
                            assert(rci == ci_op);
                        } else {
                            let rci = schema.spec_collection_index(rc);
                            if schema.spec_contains_collection(rc) {
                                assert(schema.collections@[rci].name@ == rc);
                                assert(rci != ci_op) by {
                                    if rci == ci_op {
                                        assert(schema.collections@[ci_op].name@ == opcoll);
                                    }
                                }
                                assert(sc@[rci] == pre_sc[rci]);
                            }
                        }
                    }
                }
                // A deleted document stays out of every unique view's
                // document-map.
                assert forall|i: int, v: int|
                    0 <= i < k + 1 && is_last_touch(rv, i) && ((#[trigger] rv[i])
                        is DocumentDeleted) && 0 <= v < schema.views@.len() && (
                    #[trigger] schema.views@[v]).unique && schema.views@[v].collection@
                        == result_collection(rv[i]) implies sv@[v].document_map.spec_get(
                    result_id(rv[i]),
                ) is None by {
                    if i < k {
                        assert(rv[i] == pre_rv[i]);
                        assert(is_last_touch(pre_rv, i)) by {
                            assert forall|j: int|
                                i < j < pre_rv.len() implies !result_touches(
                                #[trigger] pre_rv[j],
                                result_collection(pre_rv[i]),
                                result_id(pre_rv[i]),
                            ) by {
                                assert(rv[j] == pre_rv[j]);
                                assert(!result_touches(
                                    rv[j],
                                    result_collection(rv[i]),
                                    result_id(rv[i]),
                                ));
                            }
                        }
                        assert(pre_sv[v].document_map.spec_get(result_id(pre_rv[i])) is None);
                        if schema.views@[v].collection@ == opcoll {
                            // The new operation acts on the same collection but a
                            // different document.
                            assert(!result_touches(
                                rv[k as int],
                                result_collection(rv[i]),
                                result_id(rv[i]),
                            ));
                            assert(result_id(resv) != result_id(rv[i]));
                            match transaction@[k as int].command {
                                CommandV::Delete { .. } => {
                                    assert(ViewState::view_unmapped(
                                        pre_sv[v],
                                        sv@[v],
                                        result_id(resv),
                                    ));
                                },
                                _ => {
                                    if sv@[v] != pre_sv[v] {
                                        let ems = choose|ems: Seq<(Seq<u8>, Seq<u8>)>|
                                            ViewState::view_mapped(
                                                pre_sv[v],
                                                sv@[v],
                                                result_id(resv),
                                                ems,
                                            );
                                    }
                                },
                            }
                        } else {
                            // The view belongs to another collection and was
                            // untouched by this operation.
                            assert(sv@[v] == pre_sv[v]);
                        }
                    } else {
                        // The new result itself: a delete leaves the document
                        // unmapped in every unique view of its collection.
                        assert(rv[i] == resv);
                        match transaction@[k as int].command {
                            CommandV::Delete { .. } => {
                                assert(ViewState::view_unmapped(
                                    pre_sv[v],
                                    sv@[v],
                                    result_id(resv),
                                ));
                            },
                            _ => {
                                assert(!(resv is DocumentDeleted));
                            },
                        }
                    }
                }
                // Documents untouched by every result keep their state.
                assert forall|ci: int, x: u64|
                    0 <= ci < sc@.len() && #[trigger] no_result_touches(
                        rv,
                        schema.collections@[ci].name@,
                        x,
                    ) implies find_doc(sc@[ci]@, x) == find_doc(
                    old(self).collections@[ci]@,
                    x,
                ) by {
                    let cn = schema.collections@[ci].name@;
                    assert(no_result_touches(pre_rv, cn, x)) by {
                        assert forall|j: int| 0 <= j < pre_rv.len() implies !result_touches(
                            #[trigger] pre_rv[j],
                            cn,
                            x,
                        ) by {
                            assert(rv[j] == pre_rv[j]);
                            assert(!result_touches(rv[j], cn, x));
                        }
                    }
                    assert(!result_touches(rv[k as int], cn, x));
                    if ci == ci_op {
                        assert(schema.collections@[ci_op].name@ == opcoll);
                        assert(find_doc(sc@[ci]@, x) == find_doc(pre_sc[ci]@, x));
                    } else {
                        assert(sc@[ci] == pre_sc[ci]);
                    }
                }
            }
            k += 1;
        }
        // Mark every changed document invalidated in each non-unique view of
        // its collection.
        let mut ri: usize = 0;
        let n_res: usize = results.len();
        while ri < n_res
            invariant
                *self == *old(self),
                old(self).wf(),
                schema == self.data.schema,
                n_res == results@.len(),
                0 <= ri <= n_res,
                sc@.len() == schema.collections@.len(),
                sv@.len() == schema.views@.len(),
                forall|c: int|
                    0 <= c < sc@.len() ==> (#[trigger] sc@[c]).wf() && tree_docs_wf(sc@[c]),
                forall|v: int|
                    0 <= v < sv@.len() ==> (#[trigger] sv@[v]).wf(schema.views@[v].unique) && sv@[
                    v].stored_version == old(self).view_states@[v].stored_version,
                forall|v: int, x: u64|
                    0 <= v < sv@.len() && old(self).view_states@[v].invalidated@.contains(x)
                        ==> #[trigger] sv@[v].invalidated@.contains(x),
                forall|i: int|
                    0 <= i < results@.len() ==> !((#[trigger] results_view(results@)[i]) is Success),
                forall|i: int, v: int|
                    0 <= i < ri && !((#[trigger] results_view(results@)[i]) is Success) && 0 <= v
                        < schema.views@.len() && (#[trigger] schema.views@[v]).collection@
                        == result_collection(results_view(results@)[i]) && !schema.views@[v].unique
                        ==> sv@[v].invalidated@.contains(result_id(results_view(results@)[i])),
                forall|w: int|
                    0 <= w < sv@.len() && (#[trigger] schema.views@[w]).unique ==> sv@[
                    w].invalidated@ == old(self).view_states@[w].invalidated@,
                forall|w: int, x: u64|
                    0 <= w < sv@.len() && #[trigger] sv@[w].invalidated@.contains(x) ==> old(self).view_states@[
                    w].invalidated@.contains(x) || (!schema.views@[w].unique && exists|i: int|
                        0 <= i < results_view(results@).len() && result_collection(
                            #[trigger] results_view(results@)[i],
                        ) == schema.views@[w].collection@ && result_id(results_view(results@)[i])
                            == x),
                forall|i: int, w: int|
                    0 <= i < results@.len() && is_last_touch(results_view(results@), i) && ((
                    #[trigger] results_view(results@)[i]) is DocumentDeleted) && 0 <= w
                        < schema.views@.len() && (#[trigger] schema.views@[w]).unique
                        && schema.views@[w].collection@ == result_collection(
                        results_view(results@)[i],
                    ) ==> sv@[w].document_map.spec_get(
                        result_id(results_view(results@)[i]),
                    ) is None,
            decreases n_res - ri,
        {
            let (res_collection, res_id): (&CollectionName, u64) = match &results[ri] {
                OperationResult::DocumentUpdated { collection, header } => (collection, header.id),
                OperationResult::DocumentDeleted { collection, id } => (collection, *id),
                OperationResult::Success => {
                    proof {
                        assert(results_view(results@)[ri as int] == results@[ri as int]@);
                        assert(false);
                    }
                    return Err(Error::Storage("unreachable".to_owned()));
                },
            };
            proof {
                assert(results_view(results@)[ri as int] == results@[ri as int]@);
            }
            let mut v: usize = 0;
            let n_views: usize = self.data.schema.views.len();
            while v < n_views
                invariant
                    *self == *old(self),
                    old(self).wf(),
                    schema == self.data.schema,
                    n_views == schema.views@.len(),
                    0 <= v <= n_views,
                    n_res == results@.len(),
                    0 <= ri < n_res,
                    sv@.len() == schema.views@.len(),
                    result_collection(results_view(results@)[ri as int]) == res_collection@,
                    result_id(results_view(results@)[ri as int]) == res_id,
                    forall|w: int|
                        0 <= w < sv@.len() ==> (#[trigger] sv@[w]).wf(schema.views@[w].unique)
                            && sv@[w].stored_version == old(self).view_states@[w].stored_version,
                    forall|w: int, x: u64|
                        0 <= w < sv@.len() && old(self).view_states@[w].invalidated@.contains(x)
                            ==> #[trigger] sv@[w].invalidated@.contains(x),
                    forall|i: int, w: int|
                        0 <= i < ri && !((#[trigger] results_view(results@)[i]) is Success) && 0
                            <= w < schema.views@.len() && (
                        #[trigger] schema.views@[w]).collection@ == result_collection(
                            results_view(results@)[i],
                        ) && !schema.views@[w].unique ==> sv@[w].invalidated@.contains(
                            result_id(results_view(results@)[i]),
                        ),
                    forall|w: int|
                        0 <= w < v && (#[trigger] schema.views@[w]).collection@ == res_collection@
                            && !schema.views@[w].unique ==> sv@[w].invalidated@.contains(res_id),
                    forall|w: int|
                        0 <= w < sv@.len() && (#[trigger] schema.views@[w]).unique ==> sv@[
                        w].invalidated@ == old(self).view_states@[w].invalidated@,
                    forall|w: int, x: u64|
                        0 <= w < sv@.len() && #[trigger] sv@[w].invalidated@.contains(x) ==> old(self).view_states@[
                        w].invalidated@.contains(x) || (!schema.views@[w].unique && exists|i: int|
                            0 <= i < results_view(results@).len() && result_collection(
                                #[trigger] results_view(results@)[i],
                            ) == schema.views@[w].collection@ && result_id(
                                results_view(results@)[i],
                            ) == x),
                    forall|i: int, w: int|
                    0 <= i < results@.len() && is_last_touch(results_view(results@), i) && ((
                    #[trigger] results_view(results@)[i]) is DocumentDeleted) && 0 <= w
                        < schema.views@.len() && (#[trigger] schema.views@[w]).unique
                        && schema.views@[w].collection@ == result_collection(
                        results_view(results@)[i],
                    ) ==> sv@[w].document_map.spec_get(
                        result_id(results_view(results@)[i]),
                    ) is None,
                decreases n_views - v,
            {
                let matching = !self.data.schema.views[v].unique
                    && self.data.schema.views[v].collection == *res_collection;
                if matching {
                    let ghost pre_sv = sv@;
                    let vs = &mut sv[v];
                    vs.invalidated.insert(res_id);
                    proof {
                        assert(sv@.len() == pre_sv.len());
                        assert forall|w: int|
                            0 <= w < pre_sv.len() && w != v implies sv@[w] == pre_sv[w] by {}
                        assert(sv@[v as int].entries@ == pre_sv[v as int].entries@);
                        assert(sv@[v as int].document_map@ == pre_sv[v as int].document_map@);
                        assert(sv@[v as int].omitted@ == pre_sv[v as int].omitted@);
                        assert(sv@[v as int].stored_version == pre_sv[v as int].stored_version);
                        assert(sv@[v as int].wf(schema.views@[v as int].unique)) by {
                            lemma_view_state_wf_views(
                                pre_sv[v as int],
                                sv@[v as int],
                                schema.views@[v as int].unique,
                            );
                        }
                        assert forall|w: int, x: u64|
                            0 <= w < sv@.len() && #[trigger] sv@[w].invalidated@.contains(x) implies old(self).view_states@[
                            w].invalidated@.contains(x) || (!schema.views@[w].unique && exists|
                            i: int,
                        |
                            0 <= i < results_view(results@).len() && result_collection(
                                #[trigger] results_view(results@)[i],
                            ) == schema.views@[w].collection@ && result_id(
                                results_view(results@)[i],
                            ) == x) by {
                            if w == v {
                                if x == res_id && !pre_sv[w].invalidated@.contains(x) {
                                    assert(schema.views@[w].collection@ == res_collection@);
                                    assert(result_collection(results_view(results@)[ri as int])
                                        == schema.views@[w].collection@ && result_id(
                                        results_view(results@)[ri as int],
                                    ) == x);
                                }
                            } else {
                                assert(sv@[w] == pre_sv[w]);
                            }
                        }
                    }
                }
                v += 1;
            }
            ri += 1;
        }
        // Build the changed-documents record of this transaction.
        let ghost rv_final = results_view(results@);
        let mut changed: Vec<ChangedDocument> = Vec::new();
        let mut gi: usize = 0;
        proof {
            assert(crate::transaction::changed_view(changed@) =~= changed_of(rv_final.take(0)));
        }
        while gi < results.len()
            invariant
                rv_final == results_view(results@),
                rv_final.len() == results@.len(),
                0 <= gi <= results@.len(),
                crate::transaction::changed_view(changed@) =~= changed_of(
                    rv_final.take(gi as int),
                ),
            decreases results@.len() - gi,
        {
            proof {
                assert(rv_final[gi as int] == results@[gi as int]@);
                assert(rv_final.take(gi + 1 as int).drop_last() =~= rv_final.take(gi as int));
                assert(rv_final.take(gi + 1 as int).last() == rv_final[gi as int]);
            }
            match &results[gi] {
                OperationResult::DocumentUpdated { collection, header } => {
                    changed.push(
                        ChangedDocument {
                            collection: collection.clone(),
                            id: header.id,
                            deleted: false,
                        },
                    );
                },
                OperationResult::DocumentDeleted { collection, id } => {
                    changed.push(
                        ChangedDocument { collection: collection.clone(), id: *id, deleted: true },
                    );
                },
                OperationResult::Success => {},
            }
            proof {
                assert(crate::transaction::changed_view(changed@) =~= changed_of(
                    rv_final.take(gi + 1 as int),
                ));
            }
            gi += 1;
        }
        proof {
            assert(rv_final.take(results@.len() as int) =~= rv_final);
        }
        // Commit: install the staged state and append the log record.
        let txn_id = self.transactions.len() as u64 + 1;
        let executed = Executed { id: txn_id, changed_documents: changed };
        let ghost pre_log = self.transactions@;
        self.collections = sc;
        self.view_states = sv;
        self.transactions.push(executed);
        proof {
            assert(self.transactions@ =~= pre_log.push(executed));
            assert forall|i: int|
                0 <= i < self.transactions@.len() implies (#[trigger] self.transactions@[i]@.id)
                == i + 1 by {
                if i < pre_log.len() {
                    assert(self.transactions@[i] == pre_log[i]);
                    assert(old(self).transactions@[i]@.id == i + 1);
                }
            }
        }
        // Schedule background updates for the non-unique views that now hold
        // fresh invalidations.
        let ghost pre_tasks_self = *self;
        let mut ti: usize = 0;
        while ti < self.data.schema.views.len()
            invariant
                self.data == pre_tasks_self.data,
                self.collections == pre_tasks_self.collections,
                self.view_states == pre_tasks_self.view_states,
                self.transactions == pre_tasks_self.transactions,
                self.relay == pre_tasks_self.relay,
                self.vault == pre_tasks_self.vault,
                schema == self.data.schema,
                self.tasks.wf(),
                0 <= ti <= self.data.schema.views@.len(),
            decreases self.data.schema.views@.len() - ti,
        {
            let non_unique = !self.data.schema.views[ti].unique;
            if non_unique {
                self.tasks.submit(ti, JobKind::Update);
            }
            ti += 1;
        }
        Ok(results)
    }
}

/// A view state whose components carry the same views as a well-formed one
/// is well-formed itself.
proof fn lemma_view_state_wf_views(a: ViewState, b: ViewState, unique: bool)
    requires
        a.wf(unique),
        b.entries@ == a.entries@,
        b.document_map@ == a.document_map@,
        b.invalidated.wf(),
        b.omitted.wf(),
    ensures
        b.wf(unique),
{
    assert(forall|id: u64| #[trigger]
        b.document_map.spec_get(id) == a.document_map.spec_get(id));
    assert forall|k: Seq<u8>, i: int|
        0 <= i < crate::mapper::mappings_at(b.entries@, k).len() implies (
    match b.document_map.spec_get(#[trigger] crate::mapper::mappings_at(b.entries@, k)[i].source) {
        Some(ks) => ks.contains(k),
        None => false,
    }) by {
        assert(crate::mapper::mappings_at(b.entries@, k) == crate::mapper::mappings_at(
            a.entries@,
            k,
        ));
        assert(b.document_map.spec_get(crate::mapper::mappings_at(a.entries@, k)[i].source)
            == a.document_map.spec_get(crate::mapper::mappings_at(a.entries@, k)[i].source));
    }
}

/// One row of a serialized view query: the source document, the key bytes,
/// and the value bytes of one mapping.
#[derive(Debug)]
pub struct SerializedMapping {
    pub source: u64,
    pub key: Vec<u8>,
    pub value: Vec<u8>,
}

/// The mathematical value of a query row.
#[verifier::ext_equal]
pub struct SerializedMappingV {
    pub source: u64,
    pub key: Seq<u8>,
    pub value: Seq<u8>,
}

impl View for SerializedMapping {
    type V = SerializedMappingV;

    open spec fn view(&self) -> SerializedMappingV {
        SerializedMappingV { source: self.source, key: self.key@, value: self.value@ }
    }
}

/// The views of a list of query rows.
pub open spec fn rows_view(s: Seq<SerializedMapping>) -> Seq<SerializedMappingV> {
    s.map_values(|m: SerializedMapping| m@)
}

/// The rows of one entry: its mappings, each under the entry's key.
pub open spec fn entry_rows(e: crate::views::EntryV) -> Seq<SerializedMappingV> {
    Seq::new(
        e.mappings.len(),
        |i: int|
            SerializedMappingV {
                source: e.mappings[i].source,
                key: e.key,
                value: e.mappings[i].value,
            },
    )
}

/// The rows of an entry list, in entry order then mapping order.
pub open spec fn flatten_rows(s: Seq<crate::views::EntryV>) -> Seq<SerializedMappingV>
    decreases s.len(),
{
    if s.len() == 0 {
        Seq::empty()
    } else {
        flatten_rows(s.drop_last()) + entry_rows(s.last())
    }
}

/// The entries a `Multiple` selector returns: one point lookup per key, in
/// the caller's order, missing keys omitted.
pub open spec fn multi_select(
    s: Seq<crate::views::EntryV>,
    ks: Seq<Seq<u8>>,
) -> Seq<crate::views::EntryV>
    decreases ks.len(),
{
    if ks.len() == 0 {
        Seq::empty()
    } else {
        let rest = multi_select(s, ks.drop_last());
        match find_entry(s, ks.last()) {
            Some(e) => rest.push(e),
            None => rest,
        }
    }
}

/// What a key selector selects from a view's sorted entry list.
pub open spec fn selected_entries(
    s: Seq<crate::views::EntryV>,
    key: Option<crate::database::QueryKey>,
) -> Seq<crate::views::EntryV> {
    match key {
        None => s,
        Some(QueryKey::Matches(k)) => match find_entry(s, k@) {
            Some(e) => seq![e],
            None => Seq::empty(),
        },
        Some(QueryKey::Multiple(ks)) => multi_select(s, crate::storage::keys_view(ks@)),
        Some(QueryKey::Range(a, b)) => crate::views::select_range(s, a@, b@),
    }
}

impl<S: Schema> Database<S> {
    /// Materializes the entries a key selector matches, in scan order: a
    /// full ascending scan, a point lookup, the caller-ordered lookups of a
    /// key list, or an ascending bounded range scan. A range over a view
    /// whose keys are stored encrypted is refused, since those keys do not
    /// preserve order.
    pub fn create_view_iterator(&self, vi: usize, key: &Option<QueryKey>) -> (r: Result<
        Vec<crate::views::ViewEntry>,
        Error,
    >)
        requires
            self.wf(),
            vi < self.data.schema.views@.len(),
        ensures
            match r {
                Ok(entries) => crate::views::entries_view(entries@) == selected_entries(
                    self.view_states@[vi as int].entries@,
                    *key,
                ) && !(key matches Some(k) && k is Range
                    && self.data.schema.views@[vi as int].keys_are_encryptable),
                Err(e) => e is RangeQueryNotSupported && (key matches Some(k) && k is Range)
                    && self.data.schema.views@[vi as int].keys_are_encryptable,
            },
    {
        let state = &self.view_states[vi];
        match key {
            None => {
                let entries = state.entries.scan_all();
                proof {
                    assert(crate::views::entries_view(entries@) =~= state.entries@);
                }
                Ok(entries)
            },
            Some(QueryKey::Matches(k)) => {
                match state.entries.get(k) {
                    Some(e) => {
                        let e = e.clone();
                        let ghost ev = e@;
                        let mut out: Vec<crate::views::ViewEntry> = Vec::new();
                        out.push(e);
                        proof {
                            assert(crate::views::entries_view(out@) =~= seq![ev]);
                        }
                        Ok(out)
                    },
                    None => {
                        let out: Vec<crate::views::ViewEntry> = Vec::new();
                        proof {
                            assert(crate::views::entries_view(out@) =~= Seq::<
                                crate::views::EntryV,
                            >::empty());
                        }
                        Ok(out)
                    },
                }
            },
            Some(QueryKey::Multiple(ks)) => {
                let ghost kv = crate::storage::keys_view(ks@);
                let mut out: Vec<crate::views::ViewEntry> = Vec::new();
                let mut i: usize = 0;
                proof {
                    assert(kv.take(0) =~= Seq::<Seq<u8>>::empty());
                    assert(crate::views::entries_view(out@) =~= multi_select(
                        state.entries@,
                        kv.take(0),
                    ));
                }
                while i < ks.len()
                    invariant
                        0 <= i <= ks@.len(),
                        kv == crate::storage::keys_view(ks@),
                        kv.len() == ks@.len(),
                        state == self.view_states@[vi as int],
                        crate::views::entries_view(out@) =~= multi_select(
                            state.entries@,
                            kv.take(i as int),
                        ),
                    decreases ks@.len() - i,
                {
                    proof {
                        assert(kv[i as int] == ks@[i as int]@);
                        assert(kv.take(i + 1 as int).drop_last() =~= kv.take(i as int));
                        assert(kv.take(i + 1 as int).last() == kv[i as int]);
                    }
                    match state.entries.get(&ks[i]) {
                        Some(e) => {
                            out.push(e.clone());
                        },
                        None => {},
                    }
                    proof {
                        assert(crate::views::entries_view(out@) =~= multi_select(
                            state.entries@,
                            kv.take(i + 1 as int),
                        ));
                    }
                    i += 1;
                }
                proof {
                    assert(kv.take(ks@.len() as int) =~= kv);
                }
                Ok(out)
            },
            Some(QueryKey::Range(a, b)) => {
                if self.data.schema.views[vi].keys_are_encryptable {
                    return Err(Error::RangeQueryNotSupported);
                }
                Ok(state.entries.scan_range(a, b))
            },
        }
    }

    /// Flattens selected entries into query rows: every mapping of every
    /// selected entry, keyed under its entry's key, in scan order.
    fn flatten_entries(entries: &Vec<crate::views::ViewEntry>) -> (r: Vec<SerializedMapping>)
        ensures
            rows_view(r@) == flatten_rows(crate::views::entries_view(entries@)),
    {
        let ghost ev = crate::views::entries_view(entries@);
        let mut rows: Vec<SerializedMapping> = Vec::new();
        let mut i: usize = 0;
        proof {
            assert(rows_view(rows@) =~= flatten_rows(ev.take(0)));
        }
        while i < entries.len()
            invariant
                0 <= i <= entries@.len(),
                ev == crate::views::entries_view(entries@),
                ev.len() == entries@.len(),
                rows_view(rows@) =~= flatten_rows(ev.take(i as int)),
            decreases entries@.len() - i,
        {
            proof {
                assert(ev[i as int] == entries@[i as int]@);
                assert(ev.take(i + 1 as int).drop_last() =~= ev.take(i as int));
                assert(ev.take(i + 1 as int).last() == ev[i as int]);
            }
            let entry = &entries[i];
            let mut j: usize = 0;
            let ghost e = ev[i as int];
            while j < entry.mappings.len()
                invariant
                    0 <= j <= entry.mappings@.len(),
                    e == entry@,
                    e.mappings.len() == entry.mappings@.len(),
                    entry == entries@[i as int],
                    rows_view(rows@) =~= flatten_rows(ev.take(i as int)) + entry_rows(e).take(
                        j as int,
                    ),
                decreases entry.mappings@.len() - j,
            {
                proof {
                    assert(e.mappings[j as int] == entry.mappings@[j as int]@);
                }
                let ghost prev_rows = rows_view(rows@);
                let row = SerializedMapping {
                    source: entry.mappings[j].source,
                    key: bytes_clone(&entry.key),
                    value: bytes_clone(&entry.mappings[j].value),
                };
                let ghost rowv = row@;
                rows.push(row);
                proof {
                    assert(rows_view(rows@) =~= prev_rows.push(rowv));
                    assert(rowv =~= entry_rows(e)[j as int]);
                    assert(entry_rows(e).take(j + 1 as int) =~= entry_rows(e).take(j as int).push(
                        entry_rows(e)[j as int],
                    ));
                    assert(rows_view(rows@) =~= flatten_rows(ev.take(i as int)) + entry_rows(
                        e,
                    ).take(j + 1 as int));
                }
                j += 1;
            }
            proof {
                assert(entry_rows(e).take(e.mappings.len() as int) =~= entry_rows(e));
                assert(rows_view(rows@) =~= flatten_rows(ev.take(i + 1 as int)));
            }
            i += 1;
        }
        proof {
            assert(ev.take(entries@.len() as int) =~= ev);
        }
        rows
    }
}

impl<S: Schema> Database<S> {
    /// Maps every invalidated document of one view: existing documents are
    /// remapped, deleted ones have their stale mappings subtracted, and each
    /// successfully mapped document leaves the invalidated set. A document
    /// whose mapping fails stays invalidated and does not block the others;
    /// the first such error is reported at the end. A run over a clean view
    /// changes nothing at all.
    fn run_view_update(
        data: &Data<S>,
        vault: &Vault,
        collections: &Vec<DocTree>,
        ci: usize,
        view_name: &ViewName,
        unique: bool,
        has_reduce: bool,
        vs: &mut ViewState,
    ) -> (r: Result<(), Error>)
        requires
            ci < collections@.len(),
            collections@[ci as int].wf(),
            tree_docs_wf(collections@[ci as int]),
            old(vs).wf(unique),
        ensures
            final(vs).wf(unique),
            final(vs).stored_version == old(vs).stored_version,
            forall|x: u64| #[trigger]
                final(vs).invalidated@.contains(x) ==> old(vs).invalidated@.contains(x),
            r is Ok ==> final(vs).invalidated@.len() == 0,
            old(vs).invalidated@.len() == 0 ==> *final(vs) == *old(vs),
    {
        let ids = vs.invalidated.to_vec();
        if ids.len() == 0 {
            proof {
                assert forall|x: u64| #[trigger]
                    vs.invalidated@.contains(x) implies old(vs).invalidated@.contains(x) by {}
            }
            return Ok(());
        }
        let ghost orig_inv = old(vs).invalidated@;
        let mut first_err: Option<Error> = None;
        let mut idx: usize = 0;
        while idx < ids.len()
            invariant
                ids@ == orig_inv,
                orig_inv == old(vs).invalidated@,
                ci < collections@.len(),
                collections@[ci as int].wf(),
                tree_docs_wf(collections@[ci as int]),
                old(vs).wf(unique),
                0 <= idx <= ids@.len(),
                vs.wf(unique),
                vs.stored_version == old(vs).stored_version,
                forall|x: u64| #[trigger]
                    vs.invalidated@.contains(x) ==> orig_inv.contains(x),
                first_err is None ==> forall|j: int|
                    0 <= j < idx ==> !vs.invalidated@.contains(#[trigger] ids@[j]),
            decreases ids@.len() - idx,
        {
            let id = ids[idx];
            let doc_opt: Option<Document> = {
                let tree = &collections[ci];
                match tree.get(id) {
                    Some(d) => Some(d.clone()),
                    None => None,
                }
            };
            let ghost pre_inv = vs.invalidated@;
            let outcome: Result<(), Error> = match doc_opt {
                Some(stored) => {
                    proof {
                        assert(stored_doc_wf(stored@)) by {
                            let s = collections@[ci as int]@;
                            crate::storage::lemma_find_doc_in(s, id);
                            let i = choose|i: int|
                                0 <= i < s.len() && (#[trigger] s[i]) == stored@;
                            assert(stored_doc_wf(s[i]));
                        }
                    }
                    match Self::open_document(vault, &None, &stored) {
                        Ok(plain) => {
                            match data.logic.map(view_name, &plain) {
                                Ok(ems) => vs.apply_mappings(
                                    &data.logic,
                                    view_name,
                                    unique,
                                    has_reduce,
                                    id,
                                    &ems,
                                ),
                                Err(e) => Err(e),
                            }
                        },
                        Err(e) => {
                            proof {
                                assert(false);
                            }
                            Err(e)
                        },
                    }
                },
                None => vs.remove_contributions(&data.logic, view_name, unique, has_reduce, id),
            };
            match outcome {
                Ok(_) => {
                    vs.invalidated.remove(id);
                    proof {
                        assert forall|x: u64| #[trigger]
                            vs.invalidated@.contains(x) implies orig_inv.contains(x) by {
                            assert(pre_inv.contains(x));
                        }
                    }
                },
                Err(e) => {
                    if first_err.is_none() {
                        first_err = Some(e);
                    }
                },
            }
            idx += 1;
        }
        match first_err {
            Some(e) => Err(e),
            None => {
                proof {
                    assert(vs.invalidated@.len() == 0) by {
                        if vs.invalidated@.len() > 0 {
                            let x = vs.invalidated@[0];
                            assert(vs.invalidated@.contains(x));
                            assert(orig_inv.contains(x));
                            let j = choose|j: int|
                                0 <= j < orig_inv.len() && orig_inv[j] == x;
                            assert(ids@[j] == x);
                            assert(!vs.invalidated@.contains(ids@[j]));
                        }
                    }
                }
                Ok(())
            },
        }
    }

    /// Brings one view up to date: maps every invalidated document, as the
    /// background worker does. On success the view holds no invalidated
    /// documents.
    pub fn update_view_if_needed(&mut self, vi: usize) -> (r: Result<(), Error>)
        requires
            old(self).wf(),
            vi < old(self).data.schema.views@.len(),
        ensures
            final(self).wf(),
            final(self).data == old(self).data,
            final(self).collections == old(self).collections,
            final(self).transactions == old(self).transactions,
            final(self).relay == old(self).relay,
            final(self).tasks == old(self).tasks,
            forall|w: int|
                0 <= w < old(self).view_states@.len() && w != vi ==> (#[trigger] final(self).view_states@[w]) == old(self).view_states@[w],
            final(self).view_states@[vi as int].stored_version == old(self).view_states@[
                vi as int].stored_version,
            forall|x: u64| #[trigger]
                final(self).view_states@[vi as int].invalidated@.contains(x) ==> old(self).view_states@[vi as int].invalidated@.contains(x),
            r is Ok ==> final(self).view_states@[vi as int].invalidated@.len() == 0,
            old(self).view_states@[vi as int].invalidated@.len() == 0 ==> *final(self) == *old(self)
                && r is Ok,
    {
        let ci = match self.data.schema.collection_index(&self.data.schema.views[vi].collection) {
            Some(ci) => ci,
            None => {
                proof {
                    assert(self.data.schema.view_collection_declared(vi as int));
                    assert(false);
                }
                return Err(Error::CollectionNotFound);
            },
        };
        if self.view_states[vi].invalidated.is_empty() {
            return Ok(());
        }
        let view_name = self.data.schema.views[vi].name.clone();
        let unique = self.data.schema.views[vi].unique;
        let has_reduce = self.data.schema.views[vi].has_reduce;
        let ghost pre = *self;
        let r = Self::run_view_update(
            &self.data,
            &self.vault,
            &self.collections,
            ci,
            &view_name,
            unique,
            has_reduce,
            &mut self.view_states[vi],
        );
        proof {
            assert(self.view_states@.len() == pre.view_states@.len());
            assert forall|w: int|
                0 <= w < pre.view_states@.len() && w != vi implies (#[trigger] self.view_states@[w])
                == pre.view_states@[w] by {}
            assert(pre.view_states@[vi as int].invalidated@.len() > 0);
        }
        r
    }

    /// Checks every view's stored version against the schema: a view whose
    /// marker differs has its entries, document-map and omitted set cleared,
    /// every document of its collection marked invalidated, and the new
    /// version written. Views at the declared version are untouched.
    pub fn integrity_scan(&mut self)
        requires
            old(self).wf(),
        ensures
            final(self).wf(),
            final(self).data == old(self).data,
            final(self).collections == old(self).collections,
            final(self).transactions == old(self).transactions,
            final(self).relay == old(self).relay,
            final(self).tasks == old(self).tasks,
            forall|v: int|
                0 <= v < old(self).view_states@.len() && old(self).view_states@[v].stored_version
                    == old(self).data.schema.views@[v].version ==> (#[trigger] final(self).view_states@[v]) == old(self).view_states@[v],
            forall|v: int|
                0 <= v < old(self).view_states@.len() && old(self).view_states@[v].stored_version
                    != old(self).data.schema.views@[v].version ==> {
                    let ci = old(self).data.schema.spec_collection_index(
                        old(self).data.schema.views@[v].collection@,
                    );
                    let vs = #[trigger] final(self).view_states@[v];
                    &&& vs.entries@.len() == 0
                    &&& vs.stored_version == old(self).data.schema.views@[v].version
                    &&& forall|x: u64| #[trigger]
                        vs.invalidated@.contains(x) == exists|i: int|
                            0 <= i < old(self).collections@[ci]@.len() && (#[trigger] old(self).collections@[ci]@[i].header.id) == x
                },
    {
        let ghost orig = *self;
        let mut vi: usize = 0;
        let n: usize = self.data.schema.views.len();
        while vi < n
            invariant
                orig == *old(self),
                orig.wf(),
                n == orig.data.schema.views@.len(),
                0 <= vi <= n,
                self.data == orig.data,
                self.collections == orig.collections,
                self.transactions == orig.transactions,
                self.relay == orig.relay,
                self.vault == orig.vault,
                self.tasks == orig.tasks,
                self.view_states@.len() == orig.view_states@.len(),
                forall|v: int|
                    0 <= v < orig.view_states@.len() ==> (#[trigger] self.view_states@[v]).wf(
                        orig.data.schema.views@[v].unique,
                    ),
                forall|v: int|
                    vi <= v < orig.view_states@.len() ==> (#[trigger] self.view_states@[v])
                        == orig.view_states@[v],
                forall|v: int|
                    0 <= v < vi && orig.view_states@[v].stored_version
                        == orig.data.schema.views@[v].version ==> (#[trigger] self.view_states@[v])
                        == orig.view_states@[v],
                forall|v: int|
                    0 <= v < vi && orig.view_states@[v].stored_version
                        != orig.data.schema.views@[v].version ==> {
                        let ci = orig.data.schema.spec_collection_index(
                            orig.data.schema.views@[v].collection@,
                        );
                        let vs = #[trigger] self.view_states@[v];
                        &&& vs.entries@.len() == 0
                        &&& vs.stored_version == orig.data.schema.views@[v].version
                        &&& forall|x: u64| #[trigger]
                            vs.invalidated@.contains(x) == exists|i: int|
                                0 <= i < orig.collections@[ci]@.len() && (
                                #[trigger] orig.collections@[ci]@[i].header.id) == x
                    },
            decreases n - vi,
        {
            let declared_version = self.data.schema.views[vi].version;
            let needs_reset = self.view_states[vi].stored_version != declared_version;
            if needs_reset {
                let ci = match self.data.schema.collection_index(
                    &self.data.schema.views[vi].collection,
                ) {
                    Some(ci) => ci,
                    None => {
                        proof {
                            assert(self.data.schema.view_collection_declared(vi as int));
                            assert(false);
                        }
                        vi += 1;
                        continue ;
                    },
                };
                let doc_ids = self.collections[ci].ids();
                let ghost tree_view = self.collections@[ci as int]@;
                let fresh = ViewState {
                    entries: crate::views::EntryTree::new(),
                    document_map: crate::storage::DocMap::new(),
                    invalidated: crate::storage::IdSet { ids: doc_ids },
                    omitted: crate::storage::IdSet::new(),
                    stored_version: declared_version,
                };
                proof {
                    assert(fresh.invalidated.wf()) by {
                        assert forall|a: int, b: int|
                            0 <= a < b < fresh.invalidated@.len() implies fresh.invalidated@[a]
                            != fresh.invalidated@[b] by {
                            assert(fresh.invalidated@[a] == tree_view[a].header.id);
                            assert(fresh.invalidated@[b] == tree_view[b].header.id);
                        }
                    }
                    assert(fresh.wf(true) && fresh.wf(false)) by {
                        assert forall|k: Seq<u8>| #[trigger]
                            find_entry(fresh.entries@, k) is None by {}
                    }
                    assert forall|x: u64| #[trigger]
                        fresh.invalidated@.contains(x) == exists|i: int|
                            0 <= i < tree_view.len() && (#[trigger] tree_view[i].header.id)
                                == x by {
                        if fresh.invalidated@.contains(x) {
                            let j = choose|j: int|
                                0 <= j < fresh.invalidated@.len() && fresh.invalidated@[j] == x;
                            assert(tree_view[j].header.id == x);
                        }
                        if exists|i: int|
                            0 <= i < tree_view.len() && (#[trigger] tree_view[i].header.id) == x {
                            let i = choose|i: int|
                                0 <= i < tree_view.len() && (#[trigger] tree_view[i].header.id)
                                    == x;
                            assert(fresh.invalidated@[i] == x);
                        }
                    }
                }
                let ghost pre_states = self.view_states@;
                self.view_states.set(vi, fresh);
                proof {
                    assert forall|v: int|
                        0 <= v < pre_states.len() && v != vi implies (
                    #[trigger] self.view_states@[v]) == pre_states[v] by {}
                }
            }
            vi += 1;
        }
    }
}

/// The grouped reduction rows of an entry list: each entry's key with its
/// stored reduced value, in entry order.
pub open spec fn reduced_rows(s: Seq<crate::views::EntryV>) -> Seq<(Seq<u8>, Seq<u8>)> {
    Seq::new(s.len(), |i: int| (s[i].key, s[i].reduced_value))
}

/// The views of a list of byte-string pairs.
pub open spec fn pairs_view(s: Seq<(Vec<u8>, Vec<u8>)>) -> Seq<(Seq<u8>, Seq<u8>)> {
    s.map_values(|p: (Vec<u8>, Vec<u8>)| (p.0@, p.1@))
}

/// The caller's permissions cover the document stored under an id, if any:
/// a missing or plaintext document is always readable, an encrypted one
/// only when the permissions cover its recorded key.
pub open spec fn doc_readable(perms: &Option<Permissions>, stored: Option<DocumentV>) -> bool {
    match stored {
        Some(d) => match d.header.encryption_key {
            Some(k) => perms_allow(perms, k),
            None => true,
        },
        None => true,
    }
}

/// The opened documents that an id list finds in a tree, in the caller's
/// order, missing ids omitted.
pub open spec fn found_docs(tree: Seq<DocumentV>, ids: Seq<u64>) -> Seq<DocumentV>
    decreases ids.len(),
{
    if ids.len() == 0 {
        Seq::empty()
    } else {
        let rest = found_docs(tree, ids.drop_last());
        match find_doc(tree, ids.last()) {
            Some(d) => rest.push(
                DocumentV { header: d.header, contents: doc_plaintext(d) },
            ),
            None => rest,
        }
    }
}

/// The log window a listing returns: the start index and the record count
/// for the given starting id and limit.
pub open spec fn spec_list_window(
    log_len: int,
    starting_id: Option<u64>,
    result_limit: Option<usize>,
) -> (int, int) {
    let limit = match result_limit {
        Some(l) => if l < LIST_TRANSACTIONS_MAX_RESULTS {
            l as int
        } else {
            LIST_TRANSACTIONS_MAX_RESULTS as int
        },
        None => LIST_TRANSACTIONS_DEFAULT_RESULT_COUNT as int,
    };
    let start = match starting_id {
        None => 0,
        Some(s) => if s <= 1 {
            0
        } else if s - 1 >= log_len {
            log_len
        } else {
            s - 1
        },
    };
    let count = if limit < log_len - start {
        limit
    } else {
        log_len - start
    };
    (start, count)
}

impl<S: Schema> Database<S> {
    /// Materializes the entries a query selects, honouring the access
    /// policy: `UpdateBefore` maps every invalidated document of the view
    /// first, `UpdateAfter` answers from the current state and schedules a
    /// background update, `NoUpdate` answers from the current state.
    pub fn for_each_in_view(
        &mut self,
        vi: usize,
        key: &Option<QueryKey>,
        access_policy: AccessPolicy,
    ) -> (r: Result<Vec<crate::views::ViewEntry>, Error>)
        requires
            old(self).wf(),
            vi < old(self).data.schema.views@.len(),
        ensures
            final(self).wf(),
            final(self).data == old(self).data,
            final(self).collections == old(self).collections,
            final(self).transactions == old(self).transactions,
            final(self).relay == old(self).relay,
            forall|w: int|
                0 <= w < old(self).view_states@.len() && w != vi ==> (#[trigger] final(self).view_states@[w]) == old(self).view_states@[w],
            final(self).view_states@[vi as int].stored_version == old(self).view_states@[
                vi as int].stored_version,
            !(access_policy is UpdateBefore) ==> final(self).view_states == old(self).view_states,
            (access_policy is UpdateBefore && r is Ok) ==> final(self).view_states@[
                vi as int].invalidated@.len() == 0,
            !(access_policy is UpdateAfter) ==> final(self).tasks == old(self).tasks,
            (access_policy is UpdateAfter && r is Err) ==> final(self).tasks == old(self).tasks,
            (access_policy is UpdateAfter && r is Ok) ==> final(self).tasks.wf() && (forall|
                kk: (usize, crate::tasks::JobKind),
            |
                #[trigger] final(self).tasks@.contains(kk) == (old(self).tasks@.contains(kk) || kk
                    == (vi, JobKind::Update))),
            (!(access_policy is UpdateBefore) && !(key matches Some(kk) && kk is Range
                && old(self).data.schema.views@[vi as int].keys_are_encryptable)) ==> r is Ok,
            forall|x: u64| #[trigger]
                final(self).view_states@[vi as int].invalidated@.contains(x) ==> old(self).view_states@[vi as int].invalidated@.contains(x),
            match r {
                Ok(entries) => crate::views::entries_view(entries@) == selected_entries(
                    final(self).view_states@[vi as int].entries@,
                    *key,
                ),
                Err(_) => true,
            },
    {
        if matches!(access_policy, AccessPolicy::UpdateBefore) {
            match self.update_view_if_needed(vi) {
                Ok(_) => {},
                Err(e) => {
                    return Err(e);
                },
            }
        }
        let entries = match self.create_view_iterator(vi, key) {
            Ok(entries) => entries,
            Err(e) => {
                return Err(e);
            },
        };
        if matches!(access_policy, AccessPolicy::UpdateAfter) {
            self.tasks.submit(vi, JobKind::Update);
        }
        Ok(entries)
    }

    /// Queries a view: every mapping of every selected entry, as serialized
    /// rows in scan order. An unknown view name is refused.
    pub fn query(
        &mut self,
        view: &ViewName,
        key: &Option<QueryKey>,
        access_policy: AccessPolicy,
    ) -> (r: Result<Vec<SerializedMapping>, Error>)
        requires
            old(self).wf(),
        ensures
            final(self).wf(),
            final(self).data == old(self).data,
            final(self).collections == old(self).collections,
            final(self).transactions == old(self).transactions,
            final(self).relay == old(self).relay,
            !old(self).data.schema.spec_contains_view(view@) ==> (r matches Err(e) && e
                is CollectionNotFound && *final(self) == *old(self)),
            !(access_policy is UpdateBefore) ==> final(self).view_states == old(self).view_states,
            !(access_policy is UpdateAfter) ==> final(self).tasks == old(self).tasks,
            (access_policy is UpdateAfter && r is Err) ==> final(self).tasks == old(self).tasks,
            (access_policy is UpdateAfter && r is Ok) ==> final(self).tasks.wf() && (forall|
                kk: (usize, crate::tasks::JobKind),
            |
                #[trigger] final(self).tasks@.contains(kk) == (old(self).tasks@.contains(kk) || (
                kk.1 == JobKind::Update && kk.0 as int == old(self).data.schema.spec_view_index(
                    view@,
                )))),
            (old(self).data.schema.spec_contains_view(view@) && !(access_policy is UpdateBefore)
                && !(key matches Some(kk) && kk is Range && old(self).data.schema.views@[old(self).data.schema.spec_view_index(view@)].keys_are_encryptable)) ==> r is Ok,
            match r {
                Ok(rows) => {
                    let vi = old(self).data.schema.spec_view_index(view@);
                    &&& old(self).data.schema.spec_contains_view(view@)
                    &&& rows_view(rows@) == flatten_rows(
                        selected_entries(final(self).view_states@[vi].entries@, *key),
                    )
                    &&& (access_policy is UpdateBefore ==> final(self).view_states@[
                        vi].invalidated@.len() == 0)
                },
                Err(_) => true,
            },
    {
        let vi = match self.data.schema.view_index_by_name(view) {
            Some(vi) => vi,
            None => {
                return Err(Error::CollectionNotFound);
            },
        };
        let entries = match self.for_each_in_view(vi, key, access_policy) {
            Ok(entries) => entries,
            Err(e) => {
                return Err(e);
            },
        };
        Ok(Self::flatten_entries(&entries))
    }

    /// Reduces a view per distinct selected key: each entry's key paired
    /// with its stored reduced value, in scan order.
    pub fn grouped_reduce_in_view(
        &mut self,
        view: &ViewName,
        key: &Option<QueryKey>,
        access_policy: AccessPolicy,
    ) -> (r: Result<Vec<(Vec<u8>, Vec<u8>)>, Error>)
        requires
            old(self).wf(),
        ensures
            final(self).wf(),
            final(self).data == old(self).data,
            final(self).collections == old(self).collections,
            final(self).transactions == old(self).transactions,
            final(self).relay == old(self).relay,
            !old(self).data.schema.spec_contains_view(view@) ==> (r matches Err(e) && e
                is CollectionNotFound && *final(self) == *old(self)),
            !(access_policy is UpdateBefore) ==> final(self).view_states == old(self).view_states,
            !(access_policy is UpdateAfter) ==> final(self).tasks == old(self).tasks,
            (access_policy is UpdateAfter && r is Err) ==> final(self).tasks == old(self).tasks,
            (access_policy is UpdateAfter && r is Ok) ==> final(self).tasks.wf() && (forall|
                kk: (usize, crate::tasks::JobKind),
            |
                #[trigger] final(self).tasks@.contains(kk) == (old(self).tasks@.contains(kk) || (
                kk.1 == JobKind::Update && kk.0 as int == old(self).data.schema.spec_view_index(
                    view@,
                )))),
            (old(self).data.schema.spec_contains_view(view@) && !(access_policy is UpdateBefore)
                && !(key matches Some(kk) && kk is Range && old(self).data.schema.views@[old(self).data.schema.spec_view_index(view@)].keys_are_encryptable)) ==> r is Ok,
            match r {
                Ok(rows) => {
                    let vi = old(self).data.schema.spec_view_index(view@);
                    &&& old(self).data.schema.spec_contains_view(view@)
                    &&& pairs_view(rows@) == reduced_rows(
                        selected_entries(final(self).view_states@[vi].entries@, *key),
                    )
                },
                Err(_) => true,
            },
    {
        let vi = match self.data.schema.view_index_by_name(view) {
            Some(vi) => vi,
            None => {
                return Err(Error::CollectionNotFound);
            },
        };
        let entries = match self.for_each_in_view(vi, key, access_policy) {
            Ok(entries) => entries,
            Err(e) => {
                return Err(e);
            },
        };
        let ghost ev = crate::views::entries_view(entries@);
        let mut rows: Vec<(Vec<u8>, Vec<u8>)> = Vec::new();
        let mut i: usize = 0;
        while i < entries.len()
            invariant
                0 <= i <= entries@.len(),
                ev == crate::views::entries_view(entries@),
                ev.len() == entries@.len(),
                rows@.len() == i,
                forall|j: int|
                    0 <= j < i ==> (#[trigger] pairs_view(rows@)[j]) == (ev[j].key, ev[
                    j].reduced_value),
            decreases entries@.len() - i,
        {
            proof {
                assert(ev[i as int] == entries@[i as int]@);
            }
            let ghost prev_rows = rows@;
            rows.push(
                (bytes_clone(&entries[i].key), bytes_clone(&entries[i].reduced_value)),
            );
            proof {
                assert(rows@ =~= prev_rows.push(rows@[i as int]));
                assert forall|j: int|
                    0 <= j < i + 1 implies (#[trigger] pairs_view(rows@)[j]) == (ev[j].key, ev[
                j].reduced_value) by {
                    assert(pairs_view(rows@)[j] == (rows@[j].0@, rows@[j].1@));
                    if j < i {
                        assert(rows@[j] == prev_rows[j]);
                        assert(pairs_view(prev_rows)[j] == (prev_rows[j].0@, prev_rows[j].1@));
                    }
                }
            }
            i += 1;
        }
        proof {
            assert(pairs_view(rows@) =~= reduced_rows(ev));
        }
        Ok(rows)
    }

    /// Reduces a view to one value. When exactly one entry matches, its
    /// stored reduced value is returned verbatim; otherwise the schema's
    /// reduce function is rerun over the grouped rows with `rereduce` set.
    pub fn reduce_in_view(
        &mut self,
        view: &ViewName,
        key: &Option<QueryKey>,
        access_policy: AccessPolicy,
    ) -> (r: Result<Vec<u8>, Error>)
        requires
            old(self).wf(),
        ensures
            final(self).wf(),
            final(self).data == old(self).data,
            final(self).collections == old(self).collections,
            final(self).transactions == old(self).transactions,
            final(self).relay == old(self).relay,
            !old(self).data.schema.spec_contains_view(view@) ==> (r matches Err(e) && e
                is CollectionNotFound && *final(self) == *old(self)),
            !(access_policy is UpdateBefore) ==> final(self).view_states == old(self).view_states,
            !(access_policy is UpdateAfter) ==> final(self).tasks == old(self).tasks,
            (access_policy is UpdateAfter && !(old(self).data.schema.spec_contains_view(view@)))
                ==> final(self).tasks == old(self).tasks,
            (access_policy is UpdateAfter && old(self).data.schema.spec_contains_view(view@) && !(
            key matches Some(kk) && kk is Range && old(self).data.schema.views@[old(self).data.schema.spec_view_index(view@)].keys_are_encryptable))
                ==> final(self).tasks.wf() && (forall|kk: (usize, crate::tasks::JobKind)|
                #[trigger] final(self).tasks@.contains(kk) == (old(self).tasks@.contains(kk) || (
                kk.1 == JobKind::Update && kk.0 as int == old(self).data.schema.spec_view_index(
                    view@,
                )))),
            (old(self).data.schema.spec_contains_view(view@) && !(access_policy is UpdateBefore)
                && !(key matches Some(kk) && kk is Range && old(self).data.schema.views@[old(self).data.schema.spec_view_index(view@)].keys_are_encryptable)
                && selected_entries(
                old(self).view_states@[old(self).data.schema.spec_view_index(view@)].entries@,
                *key,
            ).len() == 1) ==> r is Ok,
            match r {
                Ok(value) => {
                    let vi = old(self).data.schema.spec_view_index(view@);
                    let selected = selected_entries(
                        final(self).view_states@[vi].entries@,
                        *key,
                    );
                    &&& old(self).data.schema.spec_contains_view(view@)
                    &&& (selected.len() == 1 ==> value@ == selected[0].reduced_value)
                },
                Err(_) => true,
            },
    {
        let mut rows = match self.grouped_reduce_in_view(view, key, access_policy) {
            Ok(rows) => rows,
            Err(e) => {
                return Err(e);
            },
        };
        let ghost pre_rows = rows@;
        let ghost vi = old(self).data.schema.spec_view_index(view@);
        let ghost selected = selected_entries(self.view_states@[vi].entries@, *key);
        proof {
            assert(pairs_view(pre_rows) == reduced_rows(selected));
            assert(pre_rows.len() == selected.len());
        }
        if rows.len() == 1 {
            let row = match rows.pop() {
                Some(row) => row,
                None => {
                    proof {
                        assert(false);
                    }
                    return Err(Error::Storage("unreachable".to_owned()));
                },
            };
            proof {
                assert(pairs_view(pre_rows)[0] == (pre_rows[0].0@, pre_rows[0].1@));
                assert(row.1@ == reduced_rows(selected)[0].1);
                assert(selected.len() == 1);
            }
            return Ok(row.1);
        }
        proof {
            assert(selected.len() != 1);
        }
        self.data.logic.reduce(view, &rows, true)
    }

    /// Reduces a view to one value; the connection-level form of
    /// `reduce_in_view`.
    pub fn reduce(
        &mut self,
        view: &ViewName,
        key: &Option<QueryKey>,
        access_policy: AccessPolicy,
    ) -> (r: Result<Vec<u8>, Error>)
        requires
            old(self).wf(),
        ensures
            final(self).wf(),
            final(self).data == old(self).data,
            final(self).collections == old(self).collections,
            final(self).transactions == old(self).transactions,
            final(self).relay == old(self).relay,
            !old(self).data.schema.spec_contains_view(view@) ==> (r matches Err(e) && e
                is CollectionNotFound && *final(self) == *old(self)),
            !(access_policy is UpdateBefore) ==> final(self).view_states == old(self).view_states,
            !(access_policy is UpdateAfter) ==> final(self).tasks == old(self).tasks,
            (access_policy is UpdateAfter && !(old(self).data.schema.spec_contains_view(view@)))
                ==> final(self).tasks == old(self).tasks,
            (access_policy is UpdateAfter && old(self).data.schema.spec_contains_view(view@) && !(
            key matches Some(kk) && kk is Range && old(self).data.schema.views@[old(self).data.schema.spec_view_index(view@)].keys_are_encryptable))
                ==> final(self).tasks.wf() && (forall|kk: (usize, crate::tasks::JobKind)|
                #[trigger] final(self).tasks@.contains(kk) == (old(self).tasks@.contains(kk) || (
                kk.1 == JobKind::Update && kk.0 as int == old(self).data.schema.spec_view_index(
                    view@,
                )))),
            (old(self).data.schema.spec_contains_view(view@) && !(access_policy is UpdateBefore)
                && !(key matches Some(kk) && kk is Range && old(self).data.schema.views@[old(self).data.schema.spec_view_index(view@)].keys_are_encryptable)
                && selected_entries(
                old(self).view_states@[old(self).data.schema.spec_view_index(view@)].entries@,
                *key,
            ).len() == 1) ==> r is Ok,
            match r {
                Ok(value) => {
                    let vi = old(self).data.schema.spec_view_index(view@);
                    let selected = selected_entries(
                        final(self).view_states@[vi].entries@,
                        *key,
                    );
                    &&& old(self).data.schema.spec_contains_view(view@)
                    &&& (selected.len() == 1 ==> value@ == selected[0].reduced_value)
                },
                Err(_) => true,
            },
    {
        self.reduce_in_view(view, key, access_policy)
    }

    /// Reduces a view per distinct key; the connection-level form of
    /// `grouped_reduce_in_view`.
    pub fn reduce_grouped(
        &mut self,
        view: &ViewName,
        key: &Option<QueryKey>,
        access_policy: AccessPolicy,
    ) -> (r: Result<Vec<(Vec<u8>, Vec<u8>)>, Error>)
        requires
            old(self).wf(),
        ensures
            final(self).wf(),
            final(self).data == old(self).data,
            final(self).collections == old(self).collections,
            final(self).transactions == old(self).transactions,
            final(self).relay == old(self).relay,
            !old(self).data.schema.spec_contains_view(view@) ==> (r matches Err(e) && e
                is CollectionNotFound && *final(self) == *old(self)),
            !(access_policy is UpdateBefore) ==> final(self).view_states == old(self).view_states,
            !(access_policy is UpdateAfter) ==> final(self).tasks == old(self).tasks,
            (access_policy is UpdateAfter && r is Err) ==> final(self).tasks == old(self).tasks,
            (access_policy is UpdateAfter && r is Ok) ==> final(self).tasks.wf() && (forall|
                kk: (usize, crate::tasks::JobKind),
            |
                #[trigger] final(self).tasks@.contains(kk) == (old(self).tasks@.contains(kk) || (
                kk.1 == JobKind::Update && kk.0 as int == old(self).data.schema.spec_view_index(
                    view@,
                )))),
            (old(self).data.schema.spec_contains_view(view@) && !(access_policy is UpdateBefore)
                && !(key matches Some(kk) && kk is Range && old(self).data.schema.views@[old(self).data.schema.spec_view_index(view@)].keys_are_encryptable)) ==> r is Ok,
            match r {
                Ok(rows) => {
                    let vi = old(self).data.schema.spec_view_index(view@);
                    &&& old(self).data.schema.spec_contains_view(view@)
                    &&& pairs_view(rows@) == reduced_rows(
                        selected_entries(final(self).view_states@[vi].entries@, *key),
                    )
                },
                Err(_) => true,
            },
    {
        self.grouped_reduce_in_view(view, key, access_policy)
    }

    /// Loads the document stored under `id` in the named collection, opened
    /// under the caller's effective permissions.
    pub fn get_from_collection_id(&self, id: u64, collection: &CollectionName) -> (r: Result<
        Option<Document>,
        Error,
    >)
        requires
            self.wf(),
        ensures
            match r {
                Ok(found) => {
                    let ci = self.data.schema.spec_collection_index(collection@);
                    &&& self.data.schema.spec_contains_collection(collection@)
                    &&& (match found {
                        Some(p) => find_doc(self.collections@[ci]@, id) matches Some(d)
                            && p@.header == d.header && p@.contents == doc_plaintext(d)
                            && p@.header.revision.sha256.len() == 32,
                        None => find_doc(self.collections@[ci]@, id) is None,
                    })
                },
                Err(e) => (e is CollectionNotFound
                    && !self.data.schema.spec_contains_collection(collection@)) || (e
                    is Unauthorized && self.data.schema.spec_contains_collection(collection@)
                    && !doc_readable(
                    &self.data.effective_permissions,
                    find_doc(
                        self.collections@[self.data.schema.spec_collection_index(collection@)]@,
                        id,
                    ),
                )),
            },
            r is Ok <==> (self.data.schema.spec_contains_collection(collection@) && doc_readable(
                &self.data.effective_permissions,
                find_doc(
                    self.collections@[self.data.schema.spec_collection_index(collection@)]@,
                    id,
                ),
            )),
    {
        let ci = match self.data.schema.collection_index(collection) {
            Some(ci) => ci,
            None => {
                return Err(Error::CollectionNotFound);
            },
        };
        let tree = &self.collections[ci];
        match tree.get(id) {
            None => Ok(None),
            Some(d) => {
                proof {
                    assert(stored_doc_wf(d@)) by {
                        let s = self.collections@[ci as int]@;
                        crate::storage::lemma_find_doc_in(s, id);
                        let i = choose|i: int| 0 <= i < s.len() && (#[trigger] s[i]) == d@;
                        assert(stored_doc_wf(s[i]));
                    }
                }
                match Self::open_document(&self.vault, &self.data.effective_permissions, d) {
                    Ok(p) => Ok(Some(p)),
                    Err(e) => Err(e),
                }
            },
        }
    }

    /// Loads one document of a collection by id.
    pub fn get(&self, collection: &CollectionName, id: u64) -> (r: Result<Option<Document>, Error>)
        requires
            self.wf(),
        ensures
            match r {
                Ok(found) => {
                    let ci = self.data.schema.spec_collection_index(collection@);
                    &&& self.data.schema.spec_contains_collection(collection@)
                    &&& (match found {
                        Some(p) => find_doc(self.collections@[ci]@, id) matches Some(d)
                            && p@.header == d.header && p@.contents == doc_plaintext(d)
                            && p@.header.revision.sha256.len() == 32,
                        None => find_doc(self.collections@[ci]@, id) is None,
                    })
                },
                Err(e) => (e is CollectionNotFound
                    && !self.data.schema.spec_contains_collection(collection@)) || (e
                    is Unauthorized && self.data.schema.spec_contains_collection(collection@)
                    && !doc_readable(
                    &self.data.effective_permissions,
                    find_doc(
                        self.collections@[self.data.schema.spec_collection_index(collection@)]@,
                        id,
                    ),
                )),
            },
            r is Ok <==> (self.data.schema.spec_contains_collection(collection@) && doc_readable(
                &self.data.effective_permissions,
                find_doc(
                    self.collections@[self.data.schema.spec_collection_index(collection@)]@,
                    id,
                ),
            )),
    {
        self.get_from_collection_id(id, collection)
    }

    /// Loads the documents stored under a list of ids, in the caller's
    /// order; missing ids are omitted.
    pub fn get_multiple_from_collection_id(
        &self,
        ids: &Vec<u64>,
        collection: &CollectionName,
    ) -> (r: Result<Vec<Document>, Error>)
        requires
            self.wf(),
        ensures
            match r {
                Ok(docs) => {
                    let ci = self.data.schema.spec_collection_index(collection@);
                    &&& self.data.schema.spec_contains_collection(collection@)
                    &&& crate::storage::docs_view(docs@) == found_docs(
                        self.collections@[ci]@,
                        ids@,
                    )
                },
                Err(e) => (e is CollectionNotFound
                    && !self.data.schema.spec_contains_collection(collection@)) || (e
                    is Unauthorized && self.data.schema.spec_contains_collection(collection@)
                    && exists|i: int|
                    0 <= i < ids@.len() && !doc_readable(
                        &self.data.effective_permissions,
                        #[trigger] find_doc(
                            self.collections@[self.data.schema.spec_collection_index(collection@)]@,
                            ids@[i],
                        ),
                    )),
            },
            r is Ok <==> (self.data.schema.spec_contains_collection(collection@) && forall|i: int|
                0 <= i < ids@.len() ==> doc_readable(
                    &self.data.effective_permissions,
                    #[trigger] find_doc(
                        self.collections@[self.data.schema.spec_collection_index(collection@)]@,
                        ids@[i],
                    ),
                )),
    {
        let ci = match self.data.schema.collection_index(collection) {
            Some(ci) => ci,
            None => {
                return Err(Error::CollectionNotFound);
            },
        };
        let tree = &self.collections[ci];
        let ghost tv = tree@;
        let mut docs: Vec<Document> = Vec::new();
        let mut i: usize = 0;
        proof {
            assert(crate::storage::docs_view(docs@) =~= found_docs(tv, ids@.take(0)));
        }
        while i < ids.len()
            invariant
                self.wf(),
                0 <= i <= ids@.len(),
                ci < self.collections@.len(),
                ci == self.data.schema.spec_collection_index(collection@),
                self.data.schema.spec_contains_collection(collection@),
                tree == self.collections@[ci as int],
                tv == tree@,
                crate::storage::docs_view(docs@) =~= found_docs(tv, ids@.take(i as int)),
                forall|j: int|
                    0 <= j < i ==> doc_readable(
                        &self.data.effective_permissions,
                        #[trigger] find_doc(tv, ids@[j]),
                    ),
            decreases ids@.len() - i,
        {
            proof {
                assert(ids@.take(i + 1 as int).drop_last() =~= ids@.take(i as int));
                assert(ids@.take(i + 1 as int).last() == ids@[i as int]);
            }
            match tree.get(ids[i]) {
                None => {},
                Some(d) => {
                    proof {
                        assert(stored_doc_wf(d@)) by {
                            crate::storage::lemma_find_doc_in(tv, ids@[i as int]);
                            let w = choose|w: int| 0 <= w < tv.len() && (#[trigger] tv[w]) == d@;
                            assert(stored_doc_wf(tv[w]));
                        }
                    }
                    let p = match Self::open_document(
                        &self.vault,
                        &self.data.effective_permissions,
                        d,
                    ) {
                        Ok(p) => p,
                        Err(e) => {
                            proof {
                                assert(!doc_readable(
                                    &self.data.effective_permissions,
                                    find_doc(tv, ids@[i as int]),
                                ));
                            }
                            return Err(e);
                        },
                    };
                    docs.push(p);
                },
            }
            proof {
                assert(crate::storage::docs_view(docs@) =~= found_docs(tv, ids@.take(i + 1 as int)));
            }
            i += 1;
        }
        proof {
            assert(ids@.take(ids@.len() as int) =~= ids@);
        }
        Ok(docs)
    }

    /// Loads several documents of a collection by id.
    pub fn get_multiple(&self, collection: &CollectionName, ids: &Vec<u64>) -> (r: Result<
        Vec<Document>,
        Error,
    >)
        requires
            self.wf(),
        ensures
            match r {
                Ok(docs) => {
                    let ci = self.data.schema.spec_collection_index(collection@);
                    &&& self.data.schema.spec_contains_collection(collection@)
                    &&& crate::storage::docs_view(docs@) == found_docs(
                        self.collections@[ci]@,
                        ids@,
                    )
                },
                Err(e) => (e is CollectionNotFound
                    && !self.data.schema.spec_contains_collection(collection@)) || (e
                    is Unauthorized && self.data.schema.spec_contains_collection(collection@)
                    && exists|i: int|
                    0 <= i < ids@.len() && !doc_readable(
                        &self.data.effective_permissions,
                        #[trigger] find_doc(
                            self.collections@[self.data.schema.spec_collection_index(collection@)]@,
                            ids@[i],
                        ),
                    )),
            },
            r is Ok <==> (self.data.schema.spec_contains_collection(collection@) && forall|i: int|
                0 <= i < ids@.len() ==> doc_readable(
                    &self.data.effective_permissions,
                    #[trigger] find_doc(
                        self.collections@[self.data.schema.spec_collection_index(collection@)]@,
                        ids@[i],
                    ),
                )),
    {
        self.get_multiple_from_collection_id(ids, collection)
    }

    /// Lists executed transactions from `starting_id` on, oldest first, up
    /// to the given limit (default and ceiling both 1000).
    pub fn list_executed_transactions(
        &self,
        starting_id: Option<u64>,
        result_limit: Option<usize>,
    ) -> (r: Vec<Executed>)
        requires
            self.wf(),
        ensures
            ({
                let (start, count) = spec_list_window(
                    self.transactions@.len() as int,
                    starting_id,
                    result_limit,
                );
                &&& r@.len() == count
                &&& forall|i: int|
                    0 <= i < count ==> (#[trigger] r@[i]@) == self.transactions@[start + i]@
            }),
    {
        let log_len: usize = self.transactions.len();
        let limit: usize = match result_limit {
            Some(l) => if l < LIST_TRANSACTIONS_MAX_RESULTS {
                l
            } else {
                LIST_TRANSACTIONS_MAX_RESULTS
            },
            None => LIST_TRANSACTIONS_DEFAULT_RESULT_COUNT,
        };
        let start: usize = match starting_id {
            None => 0,
            Some(s) => if s <= 1 {
                0
            } else if s - 1 >= log_len as u64 {
                log_len
            } else {
                (s - 1) as usize
            },
        };
        let count: usize = if limit < log_len - start {
            limit
        } else {
            log_len - start
        };
        let mut out: Vec<Executed> = Vec::new();
        let mut i: usize = 0;
        while i < count
            invariant
                0 <= i <= count,
                start + count <= self.transactions@.len(),
                self.transactions@.len() <= usize::MAX,
                out@.len() == i,
                forall|j: int|
                    0 <= j < i ==> (#[trigger] out@[j]@) == self.transactions@[start + j]@,
            decreases count - i,
        {
            out.push(self.transactions[start + i].clone());
            i += 1;
        }
        out
    }

    /// The id of the most recent committed transaction, if any.
    pub fn last_transaction_id(&self) -> (r: Option<u64>)
        requires
            self.wf(),
        ensures
            match r {
                Some(id) => self.transactions@.len() > 0 && id == self.transactions@.last()@.id,
                None => self.transactions@.len() == 0,
            },
    {
        let n = self.transactions.len();
        if n == 0 {
            None
        } else {
            Some(self.transactions[n - 1].id)
        }
    }
}

/// The database-namespaced forms of a topic list: each topic prefixed by
/// the database name and a zero byte, in the caller's order.
pub open spec fn namespaced_topics(name: Seq<char>, topics: Seq<Vec<u8>>) -> Seq<Seq<u8>> {
    Seq::new(
        topics.len(),
        |i: int| vstd::utf8::encode_utf8(name) + seq![0u8] + topics[i]@,
    )
}

/// The rows of a query joined with the stored documents they map, in row
/// order; rows whose source document is gone are dropped.
pub open spec fn joined_docs(
    rows: Seq<SerializedMappingV>,
    tree: Seq<DocumentV>,
) -> Seq<crate::networking::MappedDocumentV>
    decreases rows.len(),
{
    if rows.len() == 0 {
        Seq::empty()
    } else {
        let rest = joined_docs(rows.drop_last(), tree);
        match find_doc(tree, rows.last().source) {
            Some(d) => rest.push(
                crate::networking::MappedDocumentV {
                    key: rows.last().key,
                    value: rows.last().value,
                    source: DocumentV { header: d.header, contents: doc_plaintext(d) },
                },
            ),
            None => rest,
        }
    }
}

impl<S: Schema> Database<S> {
    /// Queries a view and pairs every row with its source document, opened
    /// under the caller's effective permissions, keeping the rows' order;
    /// rows whose document was deleted between the view scan and the fetch
    /// are dropped.
    pub fn query_with_docs(
        &mut self,
        view: &ViewName,
        key: &Option<QueryKey>,
        access_policy: AccessPolicy,
    ) -> (r: Result<Vec<crate::networking::MappedDocument>, Error>)
        requires
            old(self).wf(),
        ensures
            final(self).wf(),
            final(self).data == old(self).data,
            final(self).collections == old(self).collections,
            final(self).transactions == old(self).transactions,
            final(self).relay == old(self).relay,
            !old(self).data.schema.spec_contains_view(view@) ==> (r matches Err(e) && e
                is CollectionNotFound && *final(self) == *old(self)),
            !(access_policy is UpdateBefore) ==> final(self).view_states == old(self).view_states,
            !(access_policy is UpdateAfter) ==> final(self).tasks == old(self).tasks,
            (access_policy is UpdateAfter && !(old(self).data.schema.spec_contains_view(view@)))
                ==> final(self).tasks == old(self).tasks,
            (access_policy is UpdateAfter && old(self).data.schema.spec_contains_view(view@) && !(
            key matches Some(kk) && kk is Range && old(self).data.schema.views@[old(self).data.schema.spec_view_index(view@)].keys_are_encryptable))
                ==> final(self).tasks.wf() && (forall|kk: (usize, crate::tasks::JobKind)|
                #[trigger] final(self).tasks@.contains(kk) == (old(self).tasks@.contains(kk) || (
                kk.1 == JobKind::Update && kk.0 as int == old(self).data.schema.spec_view_index(
                    view@,
                )))),
            (old(self).data.schema.spec_contains_view(view@) && !(access_policy is UpdateBefore)
                && !(key matches Some(kk) && kk is Range && old(self).data.schema.views@[old(self).data.schema.spec_view_index(view@)].keys_are_encryptable)
                && old(self).data.effective_permissions is None) ==> r is Ok,
            match r {
                Ok(out) => {
                    let vi = old(self).data.schema.spec_view_index(view@);
                    let ci = old(self).data.schema.spec_collection_index(
                        old(self).data.schema.views@[vi].collection@,
                    );
                    &&& old(self).data.schema.spec_contains_view(view@)
                    &&& crate::networking::mapped_docs_view(out@) == joined_docs(
                        flatten_rows(
                            selected_entries(final(self).view_states@[vi].entries@, *key),
                        ),
                        final(self).collections@[ci]@,
                    )
                },
                Err(_) => true,
            },
    {
        let vi = match self.data.schema.view_index_by_name(view) {
            Some(vi) => vi,
            None => {
                return Err(Error::CollectionNotFound);
            },
        };
        let ci = match self.data.schema.collection_index(&self.data.schema.views[vi].collection) {
            Some(ci) => ci,
            None => {
                proof {
                    assert(self.data.schema.view_collection_declared(vi as int));
                    assert(false);
                }
                return Err(Error::CollectionNotFound);
            },
        };
        let rows = match self.query(view, key, access_policy) {
            Ok(rows) => rows,
            Err(e) => {
                return Err(e);
            },
        };
        let ghost rv = rows_view(rows@);
        let tree = &self.collections[ci];
        let ghost tv = tree@;
        let mut out: Vec<crate::networking::MappedDocument> = Vec::new();
        let mut i: usize = 0;
        proof {
            assert(crate::networking::mapped_docs_view(out@) =~= joined_docs(rv.take(0), tv));
        }
        while i < rows.len()
            invariant
                self.wf(),
                self.data == old(self).data,
                self.collections == old(self).collections,
                self.transactions == old(self).transactions,
                self.relay == old(self).relay,
                old(self).data.schema.spec_contains_view(view@),
                !(access_policy is UpdateBefore) ==> self.view_states == old(self).view_states,
                !(access_policy is UpdateAfter) ==> self.tasks == old(self).tasks,
                access_policy is UpdateAfter ==> self.tasks.wf() && (forall|
                    kk: (usize, crate::tasks::JobKind),
                |
                    #[trigger] self.tasks@.contains(kk) == (old(self).tasks@.contains(kk) || (kk.1
                        == JobKind::Update && kk.0 as int
                        == old(self).data.schema.spec_view_index(view@)))),
                0 <= i <= rows@.len(),
                rv == rows_view(rows@),
                rv.len() == rows@.len(),
                ci < self.collections@.len(),
                tree == self.collections@[ci as int],
                tv == tree@,
                crate::networking::mapped_docs_view(out@) =~= joined_docs(rv.take(i as int), tv),
            decreases rows@.len() - i,
        {
            proof {
                assert(rv[i as int] == rows@[i as int]@);
                assert(rv.take(i + 1 as int).drop_last() =~= rv.take(i as int));
                assert(rv.take(i + 1 as int).last() == rv[i as int]);
            }
            match tree.get(rows[i].source) {
                None => {},
                Some(d) => {
                    proof {
                        assert(stored_doc_wf(d@)) by {
                            crate::storage::lemma_find_doc_in(tv, rv[i as int].source);
                            let w = choose|w: int| 0 <= w < tv.len() && (#[trigger] tv[w]) == d@;
                            assert(stored_doc_wf(tv[w]));
                        }
                    }
                    let p = match Self::open_document(
                        &self.vault,
                        &self.data.effective_permissions,
                        d,
                    ) {
                        Ok(p) => p,
                        Err(e) => {
                            return Err(e);
                        },
                    };
                    out.push(
                        crate::networking::MappedDocument {
                            key: bytes_clone(&rows[i].key),
                            value: bytes_clone(&rows[i].value),
                            source: p,
                        },
                    );
                },
            }
            proof {
                assert(crate::networking::mapped_docs_view(out@) =~= joined_docs(
                    rv.take(i + 1 as int),
                    tv,
                ));
            }
            i += 1;
        }
        proof {
            assert(rv.take(rows@.len() as int) =~= rv);
        }
        Ok(out)
    }

    /// Registers a new pub/sub subscriber and hands its id out.
    pub fn create_subscriber(&mut self) -> (r: Result<u64, Error>)
        requires
            old(self).wf(),
        ensures
            final(self).wf(),
            final(self).data == old(self).data,
            final(self).collections == old(self).collections,
            final(self).view_states == old(self).view_states,
            final(self).transactions == old(self).transactions,
            final(self).tasks == old(self).tasks,
            match r {
                Ok(id) => id == old(self).relay.next_id && final(self).relay@ =~= old(self).relay@.push(
                    crate::pubsub::SubscriberV { id, topics: Seq::empty(), queue: Seq::empty() },
                ),
                Err(e) => old(self).relay.next_id == u64::MAX && final(self).relay@ == old(self).relay@
                    && e is Storage,
            },
    {
        self.relay.create_subscriber()
    }

    /// Publishes `payload` to the subscribers of the database-namespaced
    /// topic: every subscriber of `name || 0x00 || topic` receives one
    /// message carrying that namespaced topic.
    pub fn publish(&mut self, topic: &Vec<u8>, payload: &Vec<u8>)
        requires
            old(self).wf(),
        ensures
            final(self).wf(),
            final(self).data == old(self).data,
            final(self).collections == old(self).collections,
            final(self).view_states == old(self).view_states,
            final(self).transactions == old(self).transactions,
            final(self).tasks == old(self).tasks,
            final(self).relay@.len() == old(self).relay@.len(),
            ({
                let nt = vstd::utf8::encode_utf8(old(self).data.name@) + seq![0u8] + topic@;
                forall|j: int|
                    0 <= j < old(self).relay@.len() ==> (#[trigger] final(self).relay@[j])
                        == (crate::pubsub::SubscriberV {
                        id: old(self).relay@[j].id,
                        topics: old(self).relay@[j].topics,
                        queue: if old(self).relay@[j].topics.contains(nt) {
                            old(self).relay@[j].queue.push(
                                crate::pubsub::MessageV { topic: nt, payload: payload@ },
                            )
                        } else {
                            old(self).relay@[j].queue
                        },
                    })
            }),
    {
        let namespaced = database_topic(self.data.name.as_str(), topic.as_slice());
        self.relay.publish_bytes(&namespaced, payload);
    }

    /// Subscribes the subscriber to the database-namespaced topic.
    pub fn subscribe_to(&mut self, subscriber_id: u64, topic: &Vec<u8>)
        requires
            old(self).wf(),
        ensures
            final(self).wf(),
            final(self).data == old(self).data,
            final(self).collections == old(self).collections,
            final(self).view_states == old(self).view_states,
            final(self).transactions == old(self).transactions,
            final(self).tasks == old(self).tasks,
            final(self).relay@.len() == old(self).relay@.len(),
            ({
                let nt = vstd::utf8::encode_utf8(old(self).data.name@) + seq![0u8] + topic@;
                &&& forall|j: int|
                    0 <= j < old(self).relay@.len() && (#[trigger] old(self).relay@[j].id)
                        != subscriber_id ==> final(self).relay@[j] == old(self).relay@[j]
                &&& forall|j: int|
                    0 <= j < old(self).relay@.len() && (#[trigger] old(self).relay@[j].id)
                        == subscriber_id ==> final(self).relay@[j].id == subscriber_id && final(self).relay@[j].queue == old(self).relay@[j].queue && (forall|t: Seq<u8>|
                        #[trigger] final(self).relay@[j].topics.contains(t) == (old(self).relay@[j].topics.contains(t) || t == nt))
            }),
    {
        let namespaced = database_topic(self.data.name.as_str(), topic.as_slice());
        self.relay.subscribe_to_bytes(subscriber_id, namespaced);
    }

    /// Removes the subscriber's subscription to the database-namespaced
    /// topic.
    pub fn unsubscribe_from(&mut self, subscriber_id: u64, topic: &Vec<u8>)
        requires
            old(self).wf(),
        ensures
            final(self).wf(),
            final(self).data == old(self).data,
            final(self).collections == old(self).collections,
            final(self).view_states == old(self).view_states,
            final(self).transactions == old(self).transactions,
            final(self).tasks == old(self).tasks,
            final(self).relay@.len() == old(self).relay@.len(),
            ({
                let nt = vstd::utf8::encode_utf8(old(self).data.name@) + seq![0u8] + topic@;
                &&& forall|j: int|
                    0 <= j < old(self).relay@.len() && (#[trigger] old(self).relay@[j].id)
                        != subscriber_id ==> final(self).relay@[j] == old(self).relay@[j]
                &&& forall|j: int|
                    0 <= j < old(self).relay@.len() && (#[trigger] old(self).relay@[j].id)
                        == subscriber_id ==> final(self).relay@[j].id == subscriber_id && final(self).relay@[j].queue == old(self).relay@[j].queue && (forall|t: Seq<u8>|
                        #[trigger] final(self).relay@[j].topics.contains(t) == (old(self).relay@[j].topics.contains(t) && t != nt))
            }),
    {
        let namespaced = database_topic(self.data.name.as_str(), topic.as_slice());
        self.relay.unsubscribe_from_bytes(subscriber_id, &namespaced);
    }

    /// Drops the subscriber and its queue.
    pub fn unregister_subscriber(&mut self, subscriber_id: u64)
        requires
            old(self).wf(),
        ensures
            final(self).wf(),
            final(self).data == old(self).data,
            final(self).collections == old(self).collections,
            final(self).view_states == old(self).view_states,
            final(self).transactions == old(self).transactions,
            final(self).tasks == old(self).tasks,
            crate::pubsub::find_subscriber(final(self).relay@, subscriber_id) is None,
            forall|x: u64|
                x != subscriber_id ==> #[trigger] crate::pubsub::find_subscriber(
                    final(self).relay@,
                    x,
                ) == crate::pubsub::find_subscriber(old(self).relay@, x),
    {
        self.relay.unregister(subscriber_id);
    }

    /// Publishes `payload` once per subscriber and matching topic, each
    /// topic namespaced under the database name, in the order given: every
    /// subscriber's queue is extended by one message per namespaced topic it
    /// holds.
    pub fn publish_to_all(&mut self, topics: &Vec<Vec<u8>>, payload: &Vec<u8>)
        requires
            old(self).wf(),
        ensures
            final(self).wf(),
            final(self).data == old(self).data,
            final(self).collections == old(self).collections,
            final(self).view_states == old(self).view_states,
            final(self).transactions == old(self).transactions,
            final(self).tasks == old(self).tasks,
            final(self).relay@.len() == old(self).relay@.len(),
            forall|j: int|
                0 <= j < old(self).relay@.len() ==> (#[trigger] final(self).relay@[j])
                    == (crate::pubsub::SubscriberV {
                    id: old(self).relay@[j].id,
                    topics: old(self).relay@[j].topics,
                    queue: crate::pubsub::queue_after_publishes(
                        old(self).relay@[j].queue,
                        old(self).relay@[j].topics,
                        namespaced_topics(old(self).data.name@, topics@),
                        payload@,
                    ),
                }),
    {
        let ghost nts = namespaced_topics(old(self).data.name@, topics@);
        let mut t: usize = 0;
        proof {
            assert(nts.len() == topics@.len());
            assert forall|j: int| 0 <= j < old(self).relay@.len() implies (
            #[trigger] self.relay@[j]) == (crate::pubsub::SubscriberV {
                id: old(self).relay@[j].id,
                topics: old(self).relay@[j].topics,
                queue: crate::pubsub::queue_after_publishes(
                    old(self).relay@[j].queue,
                    old(self).relay@[j].topics,
                    nts.take(0),
                    payload@,
                ),
            }) by {
                assert(nts.take(0).len() == 0);
                assert(self.relay@[j] =~= (crate::pubsub::SubscriberV {
                    id: old(self).relay@[j].id,
                    topics: old(self).relay@[j].topics,
                    queue: old(self).relay@[j].queue,
                }));
            }
        }
        while t < topics.len()
            invariant
                self.wf(),
                self.data == old(self).data,
                self.collections == old(self).collections,
                self.view_states == old(self).view_states,
                self.transactions == old(self).transactions,
                self.tasks == old(self).tasks,
                nts == namespaced_topics(old(self).data.name@, topics@),
                nts.len() == topics@.len(),
                0 <= t <= topics@.len(),
                self.relay@.len() == old(self).relay@.len(),
                forall|j: int|
                    0 <= j < old(self).relay@.len() ==> (#[trigger] self.relay@[j])
                        == (crate::pubsub::SubscriberV {
                        id: old(self).relay@[j].id,
                        topics: old(self).relay@[j].topics,
                        queue: crate::pubsub::queue_after_publishes(
                            old(self).relay@[j].queue,
                            old(self).relay@[j].topics,
                            nts.take(t as int),
                            payload@,
                        ),
                    }),
            decreases topics@.len() - t,
        {
            let ghost pre = self.relay@;
            proof {
                assert(nts[t as int] == vstd::utf8::encode_utf8(old(self).data.name@) + seq![0u8]
                    + topics@[t as int]@);
                assert(nts.take(t + 1 as int).drop_last() =~= nts.take(t as int));
                assert(nts.take(t + 1 as int).last() == nts[t as int]);
            }
            self.publish(&topics[t], payload);
            proof {
                assert forall|j: int| 0 <= j < old(self).relay@.len() implies (
                #[trigger] self.relay@[j]) == (crate::pubsub::SubscriberV {
                    id: old(self).relay@[j].id,
                    topics: old(self).relay@[j].topics,
                    queue: crate::pubsub::queue_after_publishes(
                        old(self).relay@[j].queue,
                        old(self).relay@[j].topics,
                        nts.take(t + 1 as int),
                        payload@,
                    ),
                }) by {
                    assert(self.relay@[j] == (crate::pubsub::SubscriberV {
                        id: pre[j].id,
                        topics: pre[j].topics,
                        queue: if pre[j].topics.contains(nts[t as int]) {
                            pre[j].queue.push(
                                crate::pubsub::MessageV {
                                    topic: nts[t as int],
                                    payload: payload@,
                                },
                            )
                        } else {
                            pre[j].queue
                        },
                    }));
                }
            }
            t += 1;
        }
        proof {
            assert(nts.take(topics@.len() as int) =~= nts);
        }
    }

    /// Pops the oldest undelivered message of the subscriber.
    pub fn try_receive(&mut self, subscriber_id: u64) -> (r: Option<Message>)
        requires
            old(self).wf(),
        ensures
            final(self).wf(),
            final(self).data == old(self).data,
            final(self).collections == old(self).collections,
            final(self).view_states == old(self).view_states,
            final(self).transactions == old(self).transactions,
            final(self).tasks == old(self).tasks,
            final(self).relay@.len() == old(self).relay@.len(),
            forall|j: int|
                0 <= j < old(self).relay@.len() && (#[trigger] old(self).relay@[j].id)
                    == subscriber_id ==> match r {
                    Some(m) => old(self).relay@[j].queue.len() > 0 && m@ == old(self).relay@[j].queue[0] && final(self).relay@[j] == (crate::pubsub::SubscriberV {
                        id: old(self).relay@[j].id,
                        topics: old(self).relay@[j].topics,
                        queue: old(self).relay@[j].queue.drop_first(),
                    }),
                    None => old(self).relay@[j].queue.len() == 0 && final(self).relay@[j] == old(self).relay@[j],
                },
    {
        self.relay.try_receive(subscriber_id)
    }
}

/// Whether a byte is an ASCII letter or digit.
pub open spec fn spec_alnum(b: u8) -> bool {
    (0x30 <= b <= 0x39) || (0x41 <= b <= 0x5a) || (0x61 <= b <= 0x7a)
}

/// A valid database name: it starts with an ASCII letter or digit, and every
/// following byte is a letter, digit, period, or hyphen.
pub open spec fn spec_valid_database_name(s: Seq<u8>) -> bool {
    &&& s.len() > 0
    &&& spec_alnum(s[0])
    &&& forall|i: int|
        1 <= i < s.len() ==> spec_alnum(#[trigger] s[i]) || s[i] == 0x2eu8 || s[i] == 0x2du8
}

/// Checks a database name; a name of the wrong shape is refused with
/// `InvalidDatabaseName`.
pub fn validate_database_name(name: &str) -> (r: Result<(), Error>)
    ensures
        r is Ok <==> spec_valid_database_name(name.spec_bytes()),
        r matches Err(e) ==> e is InvalidDatabaseName,
{
    let bytes = name.as_bytes();
    if bytes.len() == 0 {
        return Err(Error::InvalidDatabaseName(name.to_owned()));
    }
    let b0 = bytes[0];
    let first_ok = (0x30u8 <= b0 && b0 <= 0x39u8) || (0x41u8 <= b0 && b0 <= 0x5au8) || (0x61u8
        <= b0 && b0 <= 0x7au8);
    if !first_ok {
        return Err(Error::InvalidDatabaseName(name.to_owned()));
    }
    let mut i: usize = 1;
    while i < bytes.len()
        invariant
            bytes@ == name.spec_bytes(),
            bytes@.len() > 0,
            spec_alnum(bytes@[0]),
            1 <= i <= bytes@.len(),
            forall|j: int|
                1 <= j < i ==> spec_alnum(#[trigger] bytes@[j]) || bytes@[j] == 0x2eu8 || bytes@[j]
                    == 0x2du8,
        decreases bytes@.len() - i,
    {
        let b = bytes[i];
        let ok = (0x30u8 <= b && b <= 0x39u8) || (0x41u8 <= b && b <= 0x5au8) || (0x61u8 <= b && b
            <= 0x7au8) || b == 0x2eu8 || b == 0x2du8;
        if !ok {
            return Err(Error::InvalidDatabaseName(name.to_owned()));
        }
        i += 1;
    }
    Ok(())
}

/// In a well-formed database, a unique view never holds two distinct source
/// documents under one key: every mapping of every entry of such a view
/// shares a single source.
pub proof fn lemma_unique_view_single_source<S: Schema>(db: Database<S>, vi: int, k: Seq<u8>)
    requires
        db.wf(),
        0 <= vi < db.data.schema.views@.len(),
        db.data.schema.views@[vi].unique,
    ensures
        find_entry(db.view_states@[vi].entries@, k) matches Some(e) ==> crate::mapper::same_source(
            e.mappings,
        ),
{
    assert(db.view_states@[vi].wf(true));
}

/// Transaction log ids are strictly increasing and gap-free: the record at
/// position `i` carries id `i + 1`.
pub proof fn lemma_log_gap_free<S: Schema>(db: Database<S>, i: int)
    requires
        db.wf(),
        0 <= i < db.transactions@.len(),
    ensures
        db.transactions@[i]@.id == i + 1,
        i > 0 ==> db.transactions@[i]@.id == db.transactions@[i - 1]@.id + 1,
{
}

/// Builds the storage tree name that holds a database's transaction log.
pub fn transaction_tree_name(database: &str) -> (r: String)
    ensures
        r@ == database@ + "::transactions"@,
{
    let mut out = String::new();
    out.append(database);
    out.append("::transactions");
    out
}

/// Builds the storage tree name that holds a collection's documents.
pub fn document_tree_name(database: &str, collection: &CollectionName) -> (r: String)
    ensures
        r@ == database@ + "::collection::"@ + collection@.0 + "."@ + collection@.1,
{
    let mut out = String::new();
    out.append(database);
    out.append("::collection::");
    out.append(collection.namespace.as_str());
    out.append(".");
    out.append(collection.name.as_str());
    out
}

/// The serialized form of a document: 8-byte id, 4-byte generation, 32-byte
/// digest, a length-prefixed optional key id, then the stored contents to
/// the end.
pub open spec fn spec_serialized_document(d: DocumentV, stored_contents: Seq<u8>) -> Seq<u8> {
    u64_be(d.header.id) + crate::codec::u32_be(d.header.revision.generation)
        + d.header.revision.sha256 + (match d.header.encryption_key {
        Some(k) => seq![1u8] + u64_be(k.len() as u64) + k,
        None => seq![0u8],
    }) + stored_contents
}

/// Parses a serialized document record back into its parts; the contents
/// are the stored form (an envelope when the header names a key).
pub open spec fn spec_parse_serialized_document(s: Seq<u8>) -> Option<DocumentV> {
    if s.len() < 45 {
        None
    } else {
        let id = crate::codec::u64_of_be(s.subrange(0, 8));
        let generation = crate::codec::u32_of_be(s.subrange(8, 12));
        let sha = s.subrange(12, 44);
        if s[44] == 0u8 {
            Some(
                DocumentV {
                    header: crate::document::HeaderV {
                        id,
                        revision: crate::document::RevisionV { generation, sha256: sha },
                        encryption_key: None,
                    },
                    contents: s.subrange(45, s.len() as int),
                },
            )
        } else if s[44] == 1u8 {
            if s.len() < 53 {
                None
            } else {
                let klen = crate::codec::u64_of_be(s.subrange(45, 53)) as int;
                if 53 + klen > s.len() {
                    None
                } else {
                    Some(
                        DocumentV {
                            header: crate::document::HeaderV {
                                id,
                                revision: crate::document::RevisionV { generation, sha256: sha },
                                encryption_key: Some(s.subrange(53, 53 + klen)),
                            },
                            contents: s.subrange(53 + klen, s.len() as int),
                        },
                    )
                }
            }
        } else {
            None
        }
    }
}

/// Writing a document record and parsing it back are inverse.
pub proof fn lemma_serialized_document_round_trip(d: DocumentV, stored_contents: Seq<u8>)
    requires
        d.header.revision.sha256.len() == 32,
        d.header.encryption_key matches Some(k) ==> k.len() <= u64::MAX,
    ensures
        spec_parse_serialized_document(spec_serialized_document(d, stored_contents)) == Some(
            DocumentV { header: d.header, contents: stored_contents },
        ),
{
    let s = spec_serialized_document(d, stored_contents);
    crate::codec::lemma_u64_be_round_trip(d.header.id);
    crate::codec::lemma_u32_be_round_trip(d.header.revision.generation);
    assert(s.subrange(0, 8) =~= crate::codec::u64_be(d.header.id));
    assert(s.subrange(8, 12) =~= crate::codec::u32_be(d.header.revision.generation));
    assert(s.subrange(12, 44) =~= d.header.revision.sha256);
    match d.header.encryption_key {
        None => {
            assert(s[44] == 0u8);
            assert(s.subrange(45, s.len() as int) =~= stored_contents);
        },
        Some(k) => {
            crate::codec::lemma_u64_be_round_trip(k.len() as u64);
            assert(s[44] == 1u8);
            assert(s.subrange(45, 53) =~= crate::codec::u64_be(k.len() as u64));
            assert(s.subrange(53, 53 + k.len() as int) =~= k);
            assert(s.subrange(53 + k.len() as int, s.len() as int) =~= stored_contents);
        },
    }
}

/// Parses a serialized document record, as `serialize_document` writes it.
pub fn parse_serialized_document(bytes: &Vec<u8>) -> (r: Option<Document>)
    ensures
        match r {
            Some(doc) => spec_parse_serialized_document(bytes@) == Some(doc@),
            None => spec_parse_serialized_document(bytes@) is None,
        },
{
    let n: usize = bytes.len();
    if n < 45 {
        return None;
    }
    let id = crate::codec::read_u64(bytes, 0);
    let generation = crate::codec::read_u32(bytes, 8);
    let sha256 = bytes_range(bytes, 12, 44);
    let flag = bytes[44];
    if flag == 0u8 {
        let contents = bytes_range(bytes, 45, n);
        let doc = Document {
            header: crate::document::Header {
                id,
                revision: crate::document::Revision { generation, sha256 },
                encryption_key: None,
            },
            contents,
        };
        proof {
            assert(spec_parse_serialized_document(bytes@) == Some(doc@));
        }
        Some(doc)
    } else if flag == 1u8 {
        if n < 53 {
            return None;
        }
        let klen_raw = crate::codec::read_u64(bytes, 45);
        if klen_raw > (n - 53) as u64 {
            return None;
        }
        let klen: usize = klen_raw as usize;
        let key = bytes_range(bytes, 53, 53 + klen);
        let contents = bytes_range(bytes, 53 + klen, n);
        let doc = Document {
            header: crate::document::Header {
                id,
                revision: crate::document::Revision { generation, sha256 },
                encryption_key: Some(key),
            },
            contents,
        };
        proof {
            assert(spec_parse_serialized_document(bytes@) == Some(doc@));
        }
        Some(doc)
    } else {
        None
    }
}

/// Checks that a schematic is coherent: collection names distinct, view
/// names distinct, every view over a declared collection.
pub fn validate_schematic(schema: &Schematic) -> (r: bool)
    ensures
        r == schema.wf(),
{
    let mut c: usize = 0;
    while c < schema.collections.len()
        invariant
            0 <= c <= schema.collections@.len(),
            forall|i: int, j: int|
                0 <= i < j < c ==> (#[trigger] schema.collections@[i].name@)
                    != (#[trigger] schema.collections@[j].name@),
        decreases schema.collections@.len() - c,
    {
        let mut i: usize = 0;
        while i < c
            invariant
                0 <= i <= c < schema.collections@.len(),
                forall|j: int|
                    0 <= j < i ==> (#[trigger] schema.collections@[j].name@)
                        != schema.collections@[c as int].name@,
            decreases c - i,
        {
            if schema.collections[i].name == schema.collections[c].name {
                return false;
            }
            i += 1;
        }
        proof {
            assert forall|i0: int, j0: int| 0 <= i0 < j0 < c + 1 implies (
            #[trigger] schema.collections@[i0].name@) != (
            #[trigger] schema.collections@[j0].name@) by {}
        }
        c += 1;
    }
    let mut v: usize = 0;
    while v < schema.views.len()
        invariant
            0 <= v <= schema.views@.len(),
            forall|i: int, j: int|
                0 <= i < j < schema.collections@.len() ==> (#[trigger] schema.collections@[i].name@)
                    != (#[trigger] schema.collections@[j].name@),
            forall|i: int, j: int|
                0 <= i < j < v ==> (#[trigger] schema.views@[i].name@)
                    != (#[trigger] schema.views@[j].name@),
            forall|i: int| 0 <= i < v ==> schema.view_collection_declared(i),
        decreases schema.views@.len() - v,
    {
        let mut i: usize = 0;
        while i < v
            invariant
                0 <= i <= v < schema.views@.len(),
                forall|j: int|
                    0 <= j < i ==> (#[trigger] schema.views@[j].name@)
                        != schema.views@[v as int].name@,
            decreases v - i,
        {
            if schema.views[i].name == schema.views[v].name {
                return false;
            }
            i += 1;
        }
        let mut found = false;
        let mut ci: usize = 0;
        while ci < schema.collections.len() && !found
            invariant
                0 <= ci <= schema.collections@.len(),
                v < schema.views@.len(),
                found ==> schema.view_collection_declared(v as int),
                !found ==> forall|cj: int|
                    0 <= cj < ci ==> (#[trigger] schema.collections@[cj].name@)
                        != schema.views@[v as int].collection@,
            decreases schema.collections@.len() - ci,
        {
            if schema.collections[ci].name == schema.views[v].collection {
                found = true;
                proof {
                    assert(schema.collections@[ci as int].name@
                        == schema.views@[v as int].collection@);
                }
            }
            ci += 1;
        }
        if !found {
            proof {
                assert(!schema.view_collection_declared(v as int));
            }
            return false;
        }
        proof {
            assert forall|i0: int, j0: int| 0 <= i0 < j0 < v + 1 implies (
            #[trigger] schema.views@[i0].name@) != (#[trigger] schema.views@[j0].name@) by {}
        }
        v += 1;
    }
    proof {
        assert(schema.wf());
    }
    true
}

} // verus!
