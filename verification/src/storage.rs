//! The per-collection document store and the per-view bookkeeping stores.
//!
//! A collection keeps its documents in ascending id order and assigns ids
//! monotonically. Each view additionally keeps: the document-map (which keys
//! each document currently contributes), the invalidated set (documents
//! awaiting mapping), and the omitted set (documents that mapped to no key).

use vstd::prelude::*;

use crate::byteorder::{bytes_list_clone};
use crate::document::{Document, DocumentV};
use crate::error::Error;

verus! {

/// The views of a list of documents.
pub open spec fn docs_view(s: Seq<Document>) -> Seq<DocumentV> {
    s.map_values(|d: Document| d@)
}

/// The document stored under `id`, if any: the first document of `s`
/// carrying the id.
pub open spec fn find_doc(s: Seq<DocumentV>, id: u64) -> Option<DocumentV>
    decreases s.len(),
{
    if s.len() == 0 {
        None
    } else if s[0].header.id == id {
        Some(s[0])
    } else {
        find_doc(s.drop_first(), id)
    }
}

/// Documents are in strictly ascending id order.
pub open spec fn docs_sorted(s: Seq<DocumentV>) -> bool {
    forall|i: int, j: int|
        0 <= i < j < s.len() ==> (#[trigger] s[i].header.id) < (#[trigger] s[j].header.id)
}

/// When no document carries the id, `find_doc` comes back empty.
pub proof fn lemma_find_doc_none(s: Seq<DocumentV>, id: u64)
    requires
        forall|j: int| 0 <= j < s.len() ==> (#[trigger] s[j].header.id) != id,
    ensures
        find_doc(s, id) is None,
    decreases s.len(),
{
    if s.len() > 0 {
        assert forall|j: int|
            0 <= j < s.drop_first().len() implies (#[trigger] s.drop_first()[j].header.id)
            != id by {
            assert(s.drop_first()[j] == s[j + 1]);
        }
        lemma_find_doc_none(s.drop_first(), id);
    }
}

/// When position `i` holds the first document carrying the id, `find_doc`
/// returns it.
pub proof fn lemma_find_doc_at(s: Seq<DocumentV>, id: u64, i: int)
    requires
        0 <= i < s.len(),
        s[i].header.id == id,
        forall|j: int| 0 <= j < i ==> (#[trigger] s[j].header.id) != id,
    ensures
        find_doc(s, id) == Some(s[i]),
    decreases i,
{
    if i > 0 {
        assert forall|j: int|
            0 <= j < i - 1 implies (#[trigger] s.drop_first()[j].header.id) != id by {
            assert(s.drop_first()[j] == s[j + 1]);
        }
        lemma_find_doc_at(s.drop_first(), id, i - 1);
    }
}

/// Looking an id up in a concatenation looks it up on the left first.
pub proof fn lemma_find_doc_append(a: Seq<DocumentV>, b: Seq<DocumentV>, id: u64)
    ensures
        find_doc(a + b, id) == match find_doc(a, id) {
            Some(d) => Some(d),
            None => find_doc(b, id),
        },
    decreases a.len(),
{
    if a.len() == 0 {
        assert(a + b =~= b);
    } else {
        assert((a + b).drop_first() =~= a.drop_first() + b);
        lemma_find_doc_append(a.drop_first(), b, id);
    }
}

/// A found document is one of the stored documents.
pub proof fn lemma_find_doc_in(s: Seq<DocumentV>, id: u64)
    ensures
        find_doc(s, id) matches Some(d) ==> exists|i: int| 0 <= i < s.len() && (#[trigger] s[i])
            == d,
    decreases s.len(),
{
    if s.len() > 0 {
        if s[0].header.id == id {
            assert(s[0] == find_doc(s, id)->0);
        } else {
            lemma_find_doc_in(s.drop_first(), id);
            if find_doc(s, id) is Some {
                let d = find_doc(s, id)->0;
                let i = choose|i: int|
                    0 <= i < s.drop_first().len() && (#[trigger] s.drop_first()[i]) == d;
                assert(s[i + 1] == d);
            }
        }
    }
}

/// In a sorted document list a match at `i` decides the lookup.
pub proof fn lemma_sorted_find_doc_at(s: Seq<DocumentV>, id: u64, i: int)
    requires
        docs_sorted(s),
        0 <= i < s.len(),
        s[i].header.id == id,
    ensures
        find_doc(s, id) == Some(s[i]),
{
    lemma_find_doc_at(s, id, i);
}

/// Two document lists that differ only at one position, where neither side
/// carries `id`, agree on the lookup of `id`.
proof fn lemma_find_doc_agree(s1: Seq<DocumentV>, s2: Seq<DocumentV>, id: u64, i: int)
    requires
        s1.len() == s2.len(),
        0 <= i < s1.len(),
        s1[i].header.id != id,
        s2[i].header.id != id,
        forall|j: int| 0 <= j < s1.len() && j != i ==> s1[j] == s2[j],
    ensures
        find_doc(s1, id) == find_doc(s2, id),
    decreases s1.len(),
{
    if i == 0 {
        assert(s1.drop_first() =~= s2.drop_first());
    } else {
        assert(s1[0] == s2[0]);
        assert(forall|j: int|
            0 <= j < s1.drop_first().len() && j != i - 1 ==> s1.drop_first()[j]
                == s2.drop_first()[j]);
        lemma_find_doc_agree(s1.drop_first(), s2.drop_first(), id, i - 1);
    }
}

/// The document tree of one collection: documents in ascending id order plus
/// the monotonic id generator.
#[derive(Debug)]
pub struct DocTree {
    pub docs: Vec<Document>,
    pub next_id: u64,
}

impl View for DocTree {
    type V = Seq<DocumentV>;

    open spec fn view(&self) -> Seq<DocumentV> {
        docs_view(self.docs@)
    }
}

impl DocTree {
    /// Ids are strictly ascending and below the generator.
    pub open spec fn wf(&self) -> bool {
        &&& docs_sorted(self@)
        &&& forall|i: int| 0 <= i < self@.len() ==> (#[trigger] self@[i].header.id) < self.next_id
        &&& self.next_id >= 1
    }

    /// Creates an empty collection; the first id handed out is 1.
    pub fn new() -> (r: Self)
        ensures
            r.wf(),
            r@ =~= Seq::<DocumentV>::empty(),
            r.next_id == 1,
    {
        let r = DocTree { docs: Vec::new(), next_id: 1 };
        proof {
            assert(r@ =~= Seq::<DocumentV>::empty());
        }
        r
    }

    /// The number of stored documents.
    pub fn len(&self) -> (r: usize)
        ensures
            r == self@.len(),
    {
        proof {
            assert(self@.len() == self.docs@.len());
        }
        self.docs.len()
    }

    /// Hands out the next monotonic id; fails only when the id space is
    /// exhausted.
    pub fn generate_id(&mut self) -> (r: Result<u64, Error>)
        requires
            old(self).wf(),
        ensures
            final(self).wf(),
            final(self)@ == old(self)@,
            match r {
                Ok(id) => old(self).next_id < u64::MAX && id == old(self).next_id && final(self).next_id == id + 1,
                Err(e) => old(self).next_id == u64::MAX && final(self).next_id == old(self).next_id
                    && e is Storage,
            },
    {
        if self.next_id == u64::MAX {
            return Err(Error::Storage("id space exhausted".to_owned()));
        }
        let id = self.next_id;
        self.next_id = self.next_id + 1;
        Ok(id)
    }

    /// The position of `id` in the tree, if present.
    fn index_of(&self, id: u64) -> (r: Option<usize>)
        ensures
            match r {
                Some(i) => 0 <= i < self@.len() && self@[i as int].header.id == id && find_doc(
                    self@,
                    id,
                ) == Some(self@[i as int]),
                None => find_doc(self@, id) is None,
            },
    {
        let mut i: usize = 0;
        let n: usize = self.docs.len();
        proof {
            assert(self@.len() == self.docs@.len());
        }
        while i < n
            invariant
                0 <= i <= n,
                n == self@.len(),
                self@.len() == self.docs@.len(),
                forall|j: int| 0 <= j < i ==> (#[trigger] self@[j].header.id) != id,
            decreases n - i,
        {
            proof {
                assert(self@[i as int] == self.docs@[i as int]@);
            }
            if self.docs[i].header.id == id {
                proof {
                    lemma_find_doc_at(self@, id, i as int);
                }
                return Some(i);
            }
            i += 1;
        }
        proof {
            lemma_find_doc_none(self@, id);
        }
        None
    }

    /// Loads the document stored under `id`.
    pub fn get(&self, id: u64) -> (r: Option<&Document>)
        ensures
            match r {
                Some(d) => find_doc(self@, id) == Some(d@) && d@.header.id == id,
                None => find_doc(self@, id) is None,
            },
    {
        match self.index_of(id) {
            Some(i) => {
                proof {
                    assert(self@[i as int] == self.docs@[i as int]@);
                }
                Some(&self.docs[i])
            },
            None => None,
        }
    }

    /// Appends a freshly inserted document; its id must come from
    /// `generate_id`, so it is above every stored id.
    pub fn push_new(&mut self, doc: Document)
        requires
            old(self).wf(),
            doc@.header.id < old(self).next_id,
            forall|i: int|
                0 <= i < old(self)@.len() ==> (#[trigger] old(self)@[i].header.id)
                    < doc@.header.id,
        ensures
            final(self).wf(),
            final(self).next_id == old(self).next_id,
            final(self)@ =~= old(self)@.push(doc@),
            find_doc(final(self)@, doc@.header.id) == Some(doc@),
            forall|x: u64|
                x != doc@.header.id ==> #[trigger] find_doc(final(self)@, x) == find_doc(
                    old(self)@,
                    x,
                ),
    {
        let ghost old_view = self@;
        let ghost d = doc@;
        self.docs.push(doc);
        proof {
            assert(self@ =~= old_view.push(d));
            assert(docs_sorted(self@)) by {
                assert forall|a: int, b: int| 0 <= a < b < self@.len() implies (
                #[trigger] self@[a].header.id) < (#[trigger] self@[b].header.id) by {
                    if b < old_view.len() {
                        assert(self@[a] == old_view[a] && self@[b] == old_view[b]);
                    } else {
                        assert(self@[b] == d);
                        assert(self@[a] == old_view[a]);
                    }
                }
            }
            assert forall|a: int| 0 <= a < self@.len() implies (#[trigger] self@[a].header.id)
                < self.next_id by {
                if a < old_view.len() {
                    assert(self@[a] == old_view[a]);
                } else {
                    assert(self@[a] == d);
                }
            }
            lemma_sorted_find_doc_at(self@, d.header.id, old_view.len() as int);
            assert forall|x: u64| x != d.header.id implies #[trigger] find_doc(self@, x)
                == find_doc(old_view, x) by {
                lemma_find_doc_append(old_view, seq![d], x);
                assert(self@ =~= old_view + seq![d]);
                assert(find_doc(seq![d], x) is None) by {
                    reveal_with_fuel(find_doc, 2);
                    assert(seq![d].drop_first() =~= Seq::<DocumentV>::empty());
                }
            }
        }
    }

    /// Replaces the stored document carrying the same id as `doc`.
    pub fn replace(&mut self, doc: Document)
        requires
            old(self).wf(),
            find_doc(old(self)@, doc@.header.id) is Some,
        ensures
            final(self).wf(),
            final(self).next_id == old(self).next_id,
            final(self)@.len() == old(self)@.len(),
            find_doc(final(self)@, doc@.header.id) == Some(doc@),
            forall|x: u64|
                x != doc@.header.id ==> #[trigger] find_doc(final(self)@, x) == find_doc(
                    old(self)@,
                    x,
                ),
    {
        let ghost old_view = self@;
        let ghost d = doc@;
        match self.index_of(doc.header.id) {
            Some(i) => {
                self.docs.set(i, doc);
                proof {
                    let s = self@;
                    assert(s =~= old_view.update(i as int, d));
                    assert(forall|a: int|
                        0 <= a < s.len() ==> (#[trigger] s[a].header.id)
                            == old_view[a].header.id);
                    assert(docs_sorted(s));
                    lemma_sorted_find_doc_at(s, d.header.id, i as int);
                    assert forall|x: u64| x != d.header.id implies #[trigger] find_doc(s, x)
                        == find_doc(old_view, x) by {
                        lemma_find_doc_agree(s, old_view, x, i as int);
                    }
                }
            },
            None => {
                proof {
                    assert(false);
                }
            },
        }
    }

    /// Removes the document stored under `id`, if any.
    pub fn remove(&mut self, id: u64)
        requires
            old(self).wf(),
        ensures
            final(self).wf(),
            final(self).next_id == old(self).next_id,
            find_doc(final(self)@, id) is None,
            forall|x: u64|
                x != id ==> #[trigger] find_doc(final(self)@, x) == find_doc(old(self)@, x),
            final(self)@.len() == if find_doc(old(self)@, id) is Some {
                old(self)@.len() - 1
            } else {
                old(self)@.len() as int
            },
    {
        let ghost old_view = self@;
        match self.index_of(id) {
            Some(i) => {
                self.docs.remove(i);
                proof {
                    let s = self@;
                    assert(s =~= old_view.take(i as int) + old_view.skip(i as int + 1));
                    assert(docs_sorted(s)) by {
                        assert forall|a: int, b: int| 0 <= a < b < s.len() implies (
                        #[trigger] s[a].header.id) < (#[trigger] s[b].header.id) by {
                            if a < i && b >= i {
                                assert(s[a] == old_view[a]);
                                assert(s[b] == old_view[b + 1]);
                            }
                        }
                    }
                    assert(forall|j: int| 0 <= j < s.len() ==> (#[trigger] s[j].header.id) != id);
                    lemma_find_doc_none(s, id);
                    assert forall|x: u64| x != id implies #[trigger] find_doc(s, x) == find_doc(
                        old_view,
                        x,
                    ) by {
                        lemma_find_doc_append(old_view.take(i as int), old_view.skip(i as int + 1), x);
                        lemma_find_doc_append(old_view.take(i as int), old_view.skip(i as int), x);
                        assert(old_view.take(i as int) + old_view.skip(i as int) =~= old_view);
                        assert(old_view.skip(i as int).drop_first() =~= old_view.skip(i as int + 1));
                        assert(old_view.skip(i as int)[0] == old_view[i as int]);
                    }
                }
            },
            None => {
                proof {
                    assert(forall|x: u64| #[trigger]
                        find_doc(self@, x) == find_doc(old_view, x));
                }
            },
        }
    }
}

impl DocTree {
    /// The stored document ids, in ascending order.
    pub fn ids(&self) -> (r: Vec<u64>)
        ensures
            r@.len() == self@.len(),
            forall|i: int| 0 <= i < r@.len() ==> (#[trigger] r@[i]) == self@[i].header.id,
    {
        let mut r: Vec<u64> = Vec::new();
        let mut i: usize = 0;
        let n: usize = self.docs.len();
        proof {
            assert(self@.len() == self.docs@.len());
        }
        while i < n
            invariant
                0 <= i <= n,
                n == self.docs@.len(),
                self@.len() == self.docs@.len(),
                r@.len() == i,
                forall|j: int| 0 <= j < i ==> (#[trigger] r@[j]) == self@[j].header.id,
            decreases n - i,
        {
            proof {
                assert(self@[i as int] == self.docs@[i as int]@);
            }
            r.push(self.docs[i].header.id);
            i += 1;
        }
        r
    }
}

impl Clone for DocTree {
    fn clone(&self) -> (r: Self)
        ensures
            r@ == self@,
            r.next_id == self.next_id,
    {
        let mut docs: Vec<Document> = Vec::new();
        let mut i: usize = 0;
        let n: usize = self.docs.len();
        proof {
            assert(self@.len() == self.docs@.len());
        }
        while i < n
            invariant
                0 <= i <= n,
                n == self.docs@.len(),
                self@.len() == self.docs@.len(),
                docs@.len() == i,
                forall|j: int| 0 <= j < i ==> (#[trigger] docs@[j]@) == self@[j],
            decreases n - i,
        {
            proof {
                assert(self@[i as int] == self.docs@[i as int]@);
            }
            docs.push(self.docs[i].clone());
            i += 1;
        }
        let r = DocTree { docs, next_id: self.next_id };
        proof {
            assert(r@ =~= self@);
        }
        r
    }
}

/// A persistent set of document ids, used for the invalidated and omitted
/// markers of a view.
#[derive(Debug)]
pub struct IdSet {
    pub ids: Vec<u64>,
}

impl View for IdSet {
    type V = Seq<u64>;

    open spec fn view(&self) -> Seq<u64> {
        self.ids@
    }
}

impl IdSet {
    /// No id is recorded twice.
    pub open spec fn wf(&self) -> bool {
        forall|i: int, j: int| 0 <= i < j < self@.len() ==> self@[i] != self@[j]
    }

    /// Creates an empty set.
    pub fn new() -> (r: Self)
        ensures
            r.wf(),
            r@ =~= Seq::<u64>::empty(),
    {
        IdSet { ids: Vec::new() }
    }

    /// Whether the set is empty.
    pub fn is_empty(&self) -> (r: bool)
        ensures
            r == (self@.len() == 0),
    {
        self.ids.len() == 0
    }

    /// Whether `id` is in the set.
    pub fn contains(&self, id: u64) -> (r: bool)
        ensures
            r == self@.contains(id),
    {
        let mut i: usize = 0;
        while i < self.ids.len()
            invariant
                0 <= i <= self@.len(),
                forall|j: int| 0 <= j < i ==> self@[j] != id,
            decreases self@.len() - i,
        {
            if self.ids[i] == id {
                return true;
            }
            i += 1;
        }
        false
    }

    /// Inserts `id`; idempotent, and a no-op leaves the stored bytes
    /// untouched.
    pub fn insert(&mut self, id: u64)
        requires
            old(self).wf(),
        ensures
            final(self).wf(),
            old(self)@.contains(id) ==> final(self)@ == old(self)@,
            !old(self)@.contains(id) ==> final(self)@ == old(self)@.push(id),
            forall|x: u64| #[trigger]
                final(self)@.contains(x) == (old(self)@.contains(x) || x == id),
    {
        let ghost old_view = self@;
        if !self.contains(id) {
            self.ids.push(id);
            proof {
                assert forall|x: u64| #[trigger]
                    self@.contains(x) == (old_view.contains(x) || x == id) by {
                    if old_view.contains(x) {
                        let j = choose|j: int| 0 <= j < old_view.len() && old_view[j] == x;
                        assert(self@[j] == x);
                    } else if x == id {
                        assert(self@[old_view.len() as int] == x);
                    } else if self@.contains(x) {
                        let j = choose|j: int| 0 <= j < self@.len() && self@[j] == x;
                        if j < old_view.len() {
                            assert(old_view[j] == x);
                        }
                    }
                }
            }
        }
    }

    /// Removes `id`; a no-op when absent leaves the stored bytes untouched.
    pub fn remove(&mut self, id: u64)
        requires
            old(self).wf(),
        ensures
            final(self).wf(),
            !old(self)@.contains(id) ==> final(self)@ == old(self)@,
            forall|x: u64| #[trigger]
                final(self)@.contains(x) == (old(self)@.contains(x) && x != id),
    {
        let ghost old_view = self@;
        let mut i: usize = 0;
        while i < self.ids.len()
            invariant
                old_view == old(self)@,
                old(self).wf(),
                self@ == old_view,
                0 <= i <= self@.len(),
                forall|j: int| 0 <= j < i ==> self@[j] != id,
            decreases self@.len() - i,
        {
            if self.ids[i] == id {
                self.ids.remove(i);
                proof {
                    let s = self@;
                    assert(s =~= old_view.take(i as int) + old_view.skip(i as int + 1));
                    assert(forall|a: int, b: int| 0 <= a < b < s.len() ==> s[a] != s[b]) by {
                        assert forall|a: int, b: int| 0 <= a < b < s.len() implies s[a] != s[b] by {
                            let oa = if a < i {
                                a
                            } else {
                                a + 1
                            };
                            let ob = if b < i {
                                b
                            } else {
                                b + 1
                            };
                            assert(s[a] == old_view[oa] && s[b] == old_view[ob]);
                        }
                    }
                    assert forall|x: u64| #[trigger]
                        s.contains(x) == (old_view.contains(x) && x != id) by {
                        if s.contains(x) {
                            let j = choose|j: int| 0 <= j < s.len() && s[j] == x;
                            let oj = if j < i {
                                j
                            } else {
                                j + 1
                            };
                            assert(old_view[oj] == x);
                            if x == id {
                                assert(old_view[i as int] == id);
                                assert(oj != i);
                            }
                        } else if old_view.contains(x) && x != id {
                            let j = choose|j: int| 0 <= j < old_view.len() && old_view[j] == x;
                            if j < i {
                                assert(s[j] == x);
                            } else {
                                assert(j != i);
                                assert(s[j - 1] == x);
                            }
                        }
                    }
                }
                return ;
            }
            i += 1;
        }
        proof {
            assert(!old_view.contains(id));
        }
    }

    /// Copies the whole set.
    pub fn duplicate(&self) -> (r: Self)
        ensures
            r@ == self@,
    {
        IdSet { ids: self.to_vec() }
    }

    /// Copies the ids, in storage order.
    pub fn to_vec(&self) -> (r: Vec<u64>)
        ensures
            r@ == self@,
    {
        let mut r: Vec<u64> = Vec::new();
        let mut i: usize = 0;
        while i < self.ids.len()
            invariant
                0 <= i <= self@.len(),
                r@ =~= self@.subrange(0, i as int),
            decreases self@.len() - i,
        {
            r.push(self.ids[i]);
            proof {
                assert(r@ =~= self@.subrange(0, i + 1 as int));
            }
            i += 1;
        }
        proof {
            assert(r@ =~= self@);
        }
        r
    }
}

/// The document-map of one view: for each document, the list of keys it
/// currently contributes. This map is the sole authority consulted before
/// new mappings are written.
#[derive(Debug)]
pub struct DocMap {
    pub entries: Vec<(u64, Vec<Vec<u8>>)>,
}

/// The views of a list of byte strings.
pub open spec fn keys_view(s: Seq<Vec<u8>>) -> Seq<Seq<u8>> {
    s.map_values(|k: Vec<u8>| k@)
}

/// The view of the raw record list: ids with the views of their key lists.
pub open spec fn docmap_view(s: Seq<(u64, Vec<Vec<u8>>)>) -> Seq<(u64, Seq<Seq<u8>>)> {
    s.map_values(|p: (u64, Vec<Vec<u8>>)| (p.0, keys_view(p.1@)))
}

/// The key list recorded for `id`, if any.
pub open spec fn map_find(s: Seq<(u64, Seq<Seq<u8>>)>, id: u64) -> Option<Seq<Seq<u8>>>
    decreases s.len(),
{
    if s.len() == 0 {
        None
    } else if s[0].0 == id {
        Some(s[0].1)
    } else {
        map_find(s.drop_first(), id)
    }
}

impl View for DocMap {
    type V = Seq<(u64, Seq<Seq<u8>>)>;

    open spec fn view(&self) -> Seq<(u64, Seq<Seq<u8>>)> {
        docmap_view(self.entries@)
    }
}

impl DocMap {
    /// No document is recorded twice.
    pub open spec fn wf(&self) -> bool {
        forall|i: int, j: int| 0 <= i < j < self@.len() ==> self@[i].0 != self@[j].0
    }

    /// The key list recorded for `id`, if any.
    pub open spec fn spec_get(&self, id: u64) -> Option<Seq<Seq<u8>>> {
        map_find(self@, id)
    }

    /// Creates an empty document-map.
    pub fn new() -> (r: Self)
        ensures
            r.wf(),
            r@ =~= Seq::<(u64, Seq<Seq<u8>>)>::empty(),
            forall|id: u64| #[trigger] r.spec_get(id) is None,
    {
        let r = DocMap { entries: Vec::new() };
        proof {
            assert(r@ =~= Seq::<(u64, Seq<Seq<u8>>)>::empty());
        }
        r
    }

    /// The position of `id` in the map, if present.
    fn index_of(&self, id: u64) -> (r: Option<usize>)
        ensures
            match r {
                Some(i) => 0 <= i < self@.len() && self@[i as int].0 == id && map_find(self@, id)
                    == Some(self@[i as int].1),
                None => map_find(self@, id) is None,
            },
    {
        let mut i: usize = 0;
        let n: usize = self.entries.len();
        proof {
            assert(self@.len() == self.entries@.len());
        }
        while i < n
            invariant
                0 <= i <= n,
                n == self@.len(),
                self@.len() == self.entries@.len(),
                forall|j: int| 0 <= j < i ==> (#[trigger] self@[j].0) != id,
            decreases n - i,
        {
            proof {
                assert(self@[i as int].0 == self.entries@[i as int].0);
            }
            if self.entries[i].0 == id {
                proof {
                    lemma_map_find_at(self@, id, i as int);
                }
                return Some(i);
            }
            i += 1;
        }
        proof {
            lemma_map_find_none(self@, id);
        }
        None
    }

    /// Loads the key list recorded for `id`.
    pub fn get_keys(&self, id: u64) -> (r: Option<Vec<Vec<u8>>>)
        ensures
            match r {
                Some(keys) => self.spec_get(id) == Some(keys_view(keys@)),
                None => self.spec_get(id) is None,
            },
    {
        match self.index_of(id) {
            Some(i) => {
                let keys = bytes_list_clone(&self.entries[i].1);
                proof {
                    assert(self@[i as int].1 == keys_view(self.entries@[i as int].1@));
                    assert(keys_view(keys@) =~= keys_view(self.entries@[i as int].1@));
                }
                Some(keys)
            },
            None => None,
        }
    }

    /// Records `keys` as the current contribution of `id`, replacing what
    /// was recorded before.
    pub fn set_keys(&mut self, id: u64, keys: Vec<Vec<u8>>)
        requires
            old(self).wf(),
        ensures
            final(self).wf(),
            final(self).spec_get(id) == Some(keys_view(keys@)),
            forall|x: u64|
                x != id ==> #[trigger] final(self).spec_get(x) == old(self).spec_get(x),
    {
        let ghost old_view = self@;
        let ghost ks = keys_view(keys@);
        match self.index_of(id) {
            Some(i) => {
                self.entries.set(i, (id, keys));
                proof {
                    let s = self@;
                    assert(s =~= old_view.update(i as int, (id, ks)));
                    assert(self.wf()) by {
                        assert(forall|a: int|
                            0 <= a < s.len() ==> (#[trigger] s[a].0) == old_view[a].0);
                    }
                    lemma_map_find_at(s, id, i as int);
                    assert forall|x: u64| x != id implies #[trigger] map_find(s, x) == map_find(
                        old_view,
                        x,
                    ) by {
                        lemma_map_find_agree(s, old_view, x, i as int);
                    }
                }
            },
            None => {
                let ghost pos = self@.len() as int;
                self.entries.push((id, keys));
                proof {
                    let s = self@;
                    assert(s =~= old_view.push((id, ks)));
                    assert(self.wf()) by {
                        assert forall|a: int, b: int| 0 <= a < b < s.len() implies s[a].0
                            != s[b].0 by {
                            if b < pos {
                                assert(s[a] == old_view[a] && s[b] == old_view[b]);
                            } else {
                                if s[a].0 == id {
                                    assert(old_view[a].0 == id);
                                    lemma_map_find_present(old_view, id, a);
                                }
                            }
                        }
                    }
                    lemma_map_find_at(s, id, pos);
                    assert forall|x: u64| x != id implies #[trigger] map_find(s, x) == map_find(
                        old_view,
                        x,
                    ) by {
                        lemma_map_find_append(old_view, seq![(id, ks)], x);
                        assert(s =~= old_view + seq![(id, ks)]);
                        assert(map_find(seq![(id, ks)], x) is None) by {
                            reveal_with_fuel(map_find, 2);
                            assert(seq![(id, ks)].drop_first() =~= Seq::<
                                (u64, Seq<Seq<u8>>),
                            >::empty());
                        }
                    }
                }
            },
        }
    }

    /// Drops the record for `id`, if any.
    pub fn remove(&mut self, id: u64)
        requires
            old(self).wf(),
        ensures
            final(self).wf(),
            final(self).spec_get(id) is None,
            forall|x: u64|
                x != id ==> #[trigger] final(self).spec_get(x) == old(self).spec_get(x),
    {
        let ghost old_view = self@;
        match self.index_of(id) {
            Some(i) => {
                self.entries.remove(i);
                proof {
                    let s = self@;
                    assert(s =~= old_view.take(i as int) + old_view.skip(i as int + 1));
                    assert(self.wf()) by {
                        assert forall|a: int, b: int| 0 <= a < b < s.len() implies s[a].0
                            != s[b].0 by {
                            let oa = if a < i {
                                a
                            } else {
                                a + 1
                            };
                            let ob = if b < i {
                                b
                            } else {
                                b + 1
                            };
                            assert(s[a] == old_view[oa] && s[b] == old_view[ob]);
                        }
                    }
                    assert forall|j: int| 0 <= j < s.len() implies (#[trigger] s[j].0) != id by {
                        let oj = if j < i {
                            j
                        } else {
                            j + 1
                        };
                        assert(s[j] == old_view[oj]);
                    }
                    lemma_map_find_none(s, id);
                    assert forall|x: u64| x != id implies #[trigger] map_find(s, x) == map_find(
                        old_view,
                        x,
                    ) by {
                        lemma_map_find_append(old_view.take(i as int), old_view.skip(i as int + 1), x);
                        lemma_map_find_append(old_view.take(i as int), old_view.skip(i as int), x);
                        assert(old_view.take(i as int) + old_view.skip(i as int) =~= old_view);
                        assert(old_view.skip(i as int).drop_first() =~= old_view.skip(i as int + 1));
                        assert(old_view.skip(i as int)[0] == old_view[i as int]);
                    }
                }
            },
            None => {},
        }
    }

    /// Copies the whole document-map.
    pub fn duplicate(&self) -> (r: Self)
        ensures
            r@ == self@,
    {
        let mut entries: Vec<(u64, Vec<Vec<u8>>)> = Vec::new();
        let mut i: usize = 0;
        let n: usize = self.entries.len();
        proof {
            assert(self@.len() == self.entries@.len());
        }
        while i < n
            invariant
                0 <= i <= n,
                n == self.entries@.len(),
                self@.len() == self.entries@.len(),
                entries@.len() == i,
                forall|j: int|
                    0 <= j < i ==> (#[trigger] entries@[j].0) == self.entries@[j].0 && keys_view(
                        entries@[j].1@,
                    ) == keys_view(self.entries@[j].1@),
            decreases n - i,
        {
            let keys = bytes_list_clone(&self.entries[i].1);
            proof {
                assert(keys_view(keys@) =~= keys_view(self.entries@[i as int].1@));
            }
            entries.push((self.entries[i].0, keys));
            i += 1;
        }
        let r = DocMap { entries };
        proof {
            assert(r@ =~= self@);
        }
        r
    }
}

/// When no record carries the id, `map_find` comes back empty.
proof fn lemma_map_find_none(s: Seq<(u64, Seq<Seq<u8>>)>, id: u64)
    requires
        forall|j: int| 0 <= j < s.len() ==> (#[trigger] s[j].0) != id,
    ensures
        map_find(s, id) is None,
    decreases s.len(),
{
    if s.len() > 0 {
        assert(forall|j: int|
            0 <= j < s.drop_first().len() ==> (#[trigger] s.drop_first()[j].0) != id);
        lemma_map_find_none(s.drop_first(), id);
    }
}

/// A position carrying the id means the lookup succeeds.
proof fn lemma_map_find_present(s: Seq<(u64, Seq<Seq<u8>>)>, id: u64, i: int)
    requires
        0 <= i < s.len(),
        s[i].0 == id,
    ensures
        map_find(s, id) is Some,
    decreases i,
{
    if i > 0 && s[0].0 != id {
        assert(s.drop_first()[i - 1].0 == id);
        lemma_map_find_present(s.drop_first(), id, i - 1);
    }
}

/// When position `i` holds the first record carrying the id, `map_find`
/// returns its key list.
proof fn lemma_map_find_at(s: Seq<(u64, Seq<Seq<u8>>)>, id: u64, i: int)
    requires
        0 <= i < s.len(),
        s[i].0 == id,
        forall|j: int| 0 <= j < i ==> (#[trigger] s[j].0) != id,
    ensures
        map_find(s, id) == Some(s[i].1),
    decreases i,
{
    if i > 0 {
        assert(forall|j: int| 0 <= j < i - 1 ==> (#[trigger] s.drop_first()[j].0) == s[j + 1].0);
        lemma_map_find_at(s.drop_first(), id, i - 1);
    }
}

/// Looking an id up in a concatenation looks it up on the left first.
proof fn lemma_map_find_append(a: Seq<(u64, Seq<Seq<u8>>)>, b: Seq<(u64, Seq<Seq<u8>>)>, id: u64)
    ensures
        map_find(a + b, id) == match map_find(a, id) {
            Some(keys) => Some(keys),
            None => map_find(b, id),
        },
    decreases a.len(),
{
    if a.len() == 0 {
        assert(a + b =~= b);
    } else {
        assert((a + b).drop_first() =~= a.drop_first() + b);
        lemma_map_find_append(a.drop_first(), b, id);
    }
}

/// Two record lists that differ only at one position, where neither side
/// carries `id`, agree on the lookup of `id`.
proof fn lemma_map_find_agree(
    s1: Seq<(u64, Seq<Seq<u8>>)>,
    s2: Seq<(u64, Seq<Seq<u8>>)>,
    id: u64,
    i: int,
)
    requires
        s1.len() == s2.len(),
        0 <= i < s1.len(),
        s1[i].0 != id,
        s2[i].0 != id,
        forall|j: int| 0 <= j < s1.len() && j != i ==> s1[j] == s2[j],
    ensures
        map_find(s1, id) == map_find(s2, id),
    decreases s1.len(),
{
    if i == 0 {
        assert(s1.drop_first() =~= s2.drop_first());
    } else {
        assert(s1[0] == s2[0]);
        assert(forall|j: int|
            0 <= j < s1.drop_first().len() && j != i - 1 ==> s1.drop_first()[j]
                == s2.drop_first()[j]);
        lemma_map_find_agree(s1.drop_first(), s2.drop_first(), id, i - 1);
    }
}

} // verus!
