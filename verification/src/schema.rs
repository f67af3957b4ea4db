//! Names and descriptors: collections, views, and the schematic that a
//! database is opened with.
//!
//! A schematic is the runtime registry of collection and view descriptors.
//! All engine code dispatches through it by name; the map and reduce functions
//! themselves are supplied by the schema logic that the database is generic
//! over.

use vstd::prelude::*;

use crate::document::Document;
use crate::error::Error;

verus! {

/// The name of a collection: `namespace.name`.
#[derive(Debug)]
pub struct CollectionName {
    pub namespace: String,
    pub name: String,
}

impl View for CollectionName {
    type V = (Seq<char>, Seq<char>);

    open spec fn view(&self) -> Self::V {
        (self.namespace@, self.name@)
    }
}

impl CollectionName {
    /// Builds a collection name from its two parts.
    pub fn new(namespace: &str, name: &str) -> (r: Self)
        ensures
            r@ == (namespace@, name@),
    {
        CollectionName { namespace: namespace.to_owned(), name: name.to_owned() }
    }
}

impl Clone for CollectionName {
    fn clone(&self) -> (r: Self)
        ensures
            r@ == self@,
    {
        CollectionName { namespace: self.namespace.clone(), name: self.name.clone() }
    }
}

impl PartialEq for CollectionName {
    fn eq(&self, other: &Self) -> (r: bool) {
        self.namespace == other.namespace && self.name == other.name
    }
}

impl vstd::std_specs::cmp::PartialEqSpecImpl for CollectionName {
    open spec fn obeys_eq_spec() -> bool {
        true
    }

    open spec fn eq_spec(&self, other: &Self) -> bool {
        self@ == other@
    }
}

/// The name of a view: `namespace.name`.
#[derive(Debug)]
pub struct ViewName {
    pub namespace: String,
    pub name: String,
}

impl View for ViewName {
    type V = (Seq<char>, Seq<char>);

    open spec fn view(&self) -> Self::V {
        (self.namespace@, self.name@)
    }
}

impl ViewName {
    /// Builds a view name from its two parts.
    pub fn new(namespace: &str, name: &str) -> (r: Self)
        ensures
            r@ == (namespace@, name@),
    {
        ViewName { namespace: namespace.to_owned(), name: name.to_owned() }
    }
}

impl Clone for ViewName {
    fn clone(&self) -> (r: Self)
        ensures
            r@ == self@,
    {
        ViewName { namespace: self.namespace.clone(), name: self.name.clone() }
    }
}

impl PartialEq for ViewName {
    fn eq(&self, other: &Self) -> (r: bool) {
        self.namespace == other.namespace && self.name == other.name
    }
}

impl vstd::std_specs::cmp::PartialEqSpecImpl for ViewName {
    open spec fn obeys_eq_spec() -> bool {
        true
    }

    open spec fn eq_spec(&self, other: &Self) -> bool {
        self@ == other@
    }
}

/// A single mapping emitted by a view's map function: the encoded key and the
/// encoded value it files the document under.
#[derive(Debug)]
pub struct EmittedMapping {
    pub key: Vec<u8>,
    pub value: Vec<u8>,
}

impl View for EmittedMapping {
    type V = (Seq<u8>, Seq<u8>);

    open spec fn view(&self) -> Self::V {
        (self.key@, self.value@)
    }
}

/// The views of a list of emitted mappings.
pub open spec fn emitted_view(s: Seq<EmittedMapping>) -> Seq<(Seq<u8>, Seq<u8>)> {
    s.map_values(|m: EmittedMapping| m@)
}

/// What a database needs to know about one view.
#[derive(Debug)]
pub struct ViewDescriptor {
    /// The globally unique name of the view.
    pub name: ViewName,
    /// The collection whose documents the view maps.
    pub collection: CollectionName,
    /// A unique view admits at most one document per key and is kept current
    /// inside every writing transaction.
    pub unique: bool,
    /// Bumped by the schema author on evolution; a mismatch against the
    /// stored marker invalidates the whole view.
    pub version: u64,
    /// Whether the schema logic supplies a reduce function for this view.
    pub has_reduce: bool,
    /// When set, the view's keys are derived from encrypted data and range
    /// queries over them are refused.
    pub keys_are_encryptable: bool,
}

/// What a database needs to know about one collection.
#[derive(Debug)]
pub struct CollectionDescriptor {
    pub name: CollectionName,
    /// The default encryption key id for documents of this collection.
    pub encryption_key: Option<Vec<u8>>,
}

/// The descriptor registry a database is opened with.
#[derive(Debug)]
pub struct Schematic {
    pub collections: Vec<CollectionDescriptor>,
    pub views: Vec<ViewDescriptor>,
}

impl Schematic {
    /// The collection that view `i` maps is declared.
    pub open spec fn view_collection_declared(&self, i: int) -> bool {
        exists|c: int|
            0 <= c < self.collections@.len() && (#[trigger] self.collections@[c].name@)
                == self.views@[i].collection@
    }

    /// Collection names are distinct, view names are distinct, and every view
    /// maps a declared collection.
    pub open spec fn wf(&self) -> bool {
        &&& forall|i: int, j: int|
            0 <= i < j < self.collections@.len() ==> self.collections@[i].name@
                != self.collections@[j].name@
        &&& forall|i: int, j: int|
            0 <= i < j < self.views@.len() ==> self.views@[i].name@ != self.views@[j].name@
        &&& forall|i: int| 0 <= i < self.views@.len() ==> self.view_collection_declared(i)
    }

    /// Whether some declared collection carries this name.
    pub open spec fn spec_contains_collection(&self, name: (Seq<char>, Seq<char>)) -> bool {
        exists|c: int|
            0 <= c < self.collections@.len() && (#[trigger] self.collections@[c].name@) == name
    }

    /// The index of the declared collection with this name.
    pub open spec fn spec_collection_index(&self, name: (Seq<char>, Seq<char>)) -> int {
        choose|c: int| 0 <= c < self.collections@.len() && self.collections@[c].name@ == name
    }

    /// Whether some declared view carries this name.
    pub open spec fn spec_contains_view(&self, name: (Seq<char>, Seq<char>)) -> bool {
        exists|v: int| 0 <= v < self.views@.len() && (#[trigger] self.views@[v].name@) == name
    }

    /// The index of the declared view with this name.
    pub open spec fn spec_view_index(&self, name: (Seq<char>, Seq<char>)) -> int {
        choose|v: int| 0 <= v < self.views@.len() && self.views@[v].name@ == name
    }

    /// Looks a collection up by name.
    pub fn collection_index(&self, name: &CollectionName) -> (r: Option<usize>)
        requires
            self.wf(),
        ensures
            match r {
                Some(c) => 0 <= c < self.collections@.len() && self.collections@[c as int].name@
                    == name@ && c == self.spec_collection_index(name@),
                None => !self.spec_contains_collection(name@),
            },
    {
        let mut c: usize = 0;
        while c < self.collections.len()
            invariant
                self.wf(),
                0 <= c <= self.collections@.len(),
                forall|j: int| 0 <= j < c ==> (#[trigger] self.collections@[j].name@) != name@,
            decreases self.collections@.len() - c,
        {
            if self.collections[c].name == *name {
                proof {
                    let w = self.spec_collection_index(name@);
                    assert(0 <= w < self.collections@.len() && self.collections@[w].name@ == name@);
                    if w < c {
                        assert(self.collections@[w].name@ != self.collections@[c as int].name@);
                    } else if c < w {
                        assert(self.collections@[c as int].name@ != self.collections@[w].name@);
                    }
                    assert(w == c);
                }
                return Some(c);
            }
            c += 1;
        }
        None
    }

    /// Whether the schema declares this collection.
    pub fn contains_collection_id(&self, name: &CollectionName) -> (r: bool)
        requires
            self.wf(),
        ensures
            r == self.spec_contains_collection(name@),
    {
        self.collection_index(name).is_some()
    }

    /// Looks a view up by name.
    pub fn view_index_by_name(&self, name: &ViewName) -> (r: Option<usize>)
        requires
            self.wf(),
        ensures
            match r {
                Some(v) => 0 <= v < self.views@.len() && self.views@[v as int].name@ == name@ && v
                    == self.spec_view_index(name@),
                None => !self.spec_contains_view(name@),
            },
    {
        let mut v: usize = 0;
        while v < self.views.len()
            invariant
                self.wf(),
                0 <= v <= self.views@.len(),
                forall|j: int| 0 <= j < v ==> (#[trigger] self.views@[j].name@) != name@,
            decreases self.views@.len() - v,
        {
            if self.views[v].name == *name {
                proof {
                    let w = self.spec_view_index(name@);
                    assert(0 <= w < self.views@.len() && self.views@[w].name@ == name@);
                    if w < v {
                        assert(self.views@[w].name@ != self.views@[v as int].name@);
                    } else if v < w {
                        assert(self.views@[v as int].name@ != self.views@[w].name@);
                    }
                    assert(w == v);
                }
                return Some(v);
            }
            v += 1;
        }
        None
    }

    /// The default encryption key id declared for a collection, if any.
    pub fn encryption_key_for_collection(&self, name: &CollectionName) -> (r: Option<Vec<u8>>)
        requires
            self.wf(),
        ensures
            match r {
                Some(k) => self.spec_contains_collection(name@) && (self.collections@[
                self.spec_collection_index(name@)].encryption_key matches Some(sk) && k@ == sk@),
                None => !self.spec_contains_collection(name@) || self.collections@[
                self.spec_collection_index(name@)].encryption_key is None,
            },
    {
        match self.collection_index(name) {
            Some(c) => match &self.collections[c].encryption_key {
                Some(k) => Some(crate::byteorder::bytes_clone(k)),
                None => None,
            },
            None => None,
        }
    }
}

/// The behaviour a schema contributes: map and reduce functions dispatched by
/// view name. Implementations are supplied by the database author; the engine
/// states what it does with whatever these return.
pub trait Schema: Sized {
    /// Maps one document of the view's collection to the keys and values it
    /// files under. An error marks the document as a poison pill: it stays
    /// invalidated and aborts a writing transaction.
    fn map(&self, view: &ViewName, document: &Document) -> Result<Vec<EmittedMapping>, Error>;

    /// Reduces the values of one view key (`rereduce == false`), or reduces
    /// already-reduced values (`rereduce == true`).
    fn reduce(&self, view: &ViewName, values: &Vec<(Vec<u8>, Vec<u8>)>, rereduce: bool) -> Result<
        Vec<u8>,
        Error,
    >;
}

} // verus!
