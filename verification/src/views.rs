//! View entries and the ordered entry tree of one view.
//!
//! Per distinct key a view stores one entry: the mappings of every source
//! document that emitted the key, plus the reduced value over them. Entries
//! are kept in ascending lexicographic key order, which is the scan order of
//! every range query.

use vstd::prelude::*;

use crate::byteorder::{bytes_clone, bytes_eq, bytes_lt, lex_lt, lemma_lex_asymmetric,
    lemma_lex_irreflexive, lemma_lex_total, lemma_lex_transitive};

verus! {

/// One mapping stored under a view key: the source document and the value it
/// emitted.
#[derive(Debug)]
pub struct Mapping {
    pub source: u64,
    pub value: Vec<u8>,
}

/// The mathematical value of a `Mapping`.
#[verifier::ext_equal]
pub struct MappingV {
    pub source: u64,
    pub value: Seq<u8>,
}

impl View for Mapping {
    type V = MappingV;

    open spec fn view(&self) -> MappingV {
        MappingV { source: self.source, value: self.value@ }
    }
}

impl Clone for Mapping {
    fn clone(&self) -> (r: Self)
        ensures
            r@ == self@,
    {
        Mapping { source: self.source, value: bytes_clone(&self.value) }
    }
}

/// The views of a list of mappings.
pub open spec fn mappings_view(s: Seq<Mapping>) -> Seq<MappingV> {
    s.map_values(|m: Mapping| m@)
}

/// Copies a list of mappings.
pub fn mappings_clone(s: &Vec<Mapping>) -> (r: Vec<Mapping>)
    ensures
        mappings_view(r@) == mappings_view(s@),
        r@.len() == s@.len(),
{
    let mut r: Vec<Mapping> = Vec::new();
    let mut i: usize = 0;
    while i < s.len()
        invariant
            0 <= i <= s@.len(),
            r@.len() == i,
            forall|j: int| 0 <= j < i ==> (#[trigger] r@[j]@) == s@[j]@,
        decreases s@.len() - i,
    {
        r.push(s[i].clone());
        i += 1;
    }
    proof {
        assert(mappings_view(r@) =~= mappings_view(s@));
    }
    r
}

/// The stored aggregate of all mappings sharing one view key.
#[derive(Debug)]
pub struct ViewEntry {
    pub key: Vec<u8>,
    pub mappings: Vec<Mapping>,
    pub reduced_value: Vec<u8>,
}

/// The mathematical value of a `ViewEntry`.
#[verifier::ext_equal]
pub struct EntryV {
    pub key: Seq<u8>,
    pub mappings: Seq<MappingV>,
    pub reduced_value: Seq<u8>,
}

impl View for ViewEntry {
    type V = EntryV;

    open spec fn view(&self) -> EntryV {
        EntryV {
            key: self.key@,
            mappings: mappings_view(self.mappings@),
            reduced_value: self.reduced_value@,
        }
    }
}

impl Clone for ViewEntry {
    fn clone(&self) -> (r: Self)
        ensures
            r@ == self@,
    {
        let r = ViewEntry {
            key: bytes_clone(&self.key),
            mappings: mappings_clone(&self.mappings),
            reduced_value: bytes_clone(&self.reduced_value),
        };
        proof {
            assert(r@ =~= self@);
        }
        r
    }
}

/// The views of a list of entries.
pub open spec fn entries_view(s: Seq<ViewEntry>) -> Seq<EntryV> {
    s.map_values(|e: ViewEntry| e@)
}

/// The entry stored under `key`, if any: the first entry of `s` carrying the
/// key.
pub open spec fn find_entry(s: Seq<EntryV>, key: Seq<u8>) -> Option<EntryV>
    decreases s.len(),
{
    if s.len() == 0 {
        None
    } else if s[0].key == key {
        Some(s[0])
    } else {
        find_entry(s.drop_first(), key)
    }
}

/// Entries are in strictly ascending key order.
pub open spec fn entries_sorted(s: Seq<EntryV>) -> bool {
    forall|i: int, j: int| 0 <= i < j < s.len() ==> lex_lt(#[trigger] s[i].key, #[trigger] s[j].key)
}

/// When no entry carries the key, `find_entry` comes back empty.
pub proof fn lemma_find_entry_none(s: Seq<EntryV>, key: Seq<u8>)
    requires
        forall|j: int| 0 <= j < s.len() ==> (#[trigger] s[j].key) != key,
    ensures
        find_entry(s, key) is None,
    decreases s.len(),
{
    if s.len() > 0 {
        assert(forall|j: int|
            0 <= j < s.drop_first().len() ==> (#[trigger] s.drop_first()[j].key) != key);
        lemma_find_entry_none(s.drop_first(), key);
    }
}

/// When position `i` holds the first entry carrying the key, `find_entry`
/// returns it.
pub proof fn lemma_find_entry_at(s: Seq<EntryV>, key: Seq<u8>, i: int)
    requires
        0 <= i < s.len(),
        s[i].key == key,
        forall|j: int| 0 <= j < i ==> (#[trigger] s[j].key) != key,
    ensures
        find_entry(s, key) == Some(s[i]),
    decreases i,
{
    if i > 0 {
        assert(forall|j: int|
            0 <= j < i - 1 ==> (#[trigger] s.drop_first()[j].key) == s[j + 1].key);
        lemma_find_entry_at(s.drop_first(), key, i - 1);
    }
}

/// Looking a key up in a concatenation looks it up on the left first.
pub proof fn lemma_find_entry_append(a: Seq<EntryV>, b: Seq<EntryV>, key: Seq<u8>)
    ensures
        find_entry(a + b, key) == match find_entry(a, key) {
            Some(e) => Some(e),
            None => find_entry(b, key),
        },
    decreases a.len(),
{
    if a.len() == 0 {
        assert(a + b =~= b);
    } else {
        assert((a + b).drop_first() =~= a.drop_first() + b);
        lemma_find_entry_append(a.drop_first(), b, key);
    }
}

/// In a sorted entry list, any entry carrying `key` is the only one, so a
/// match at `i` decides the lookup.
pub proof fn lemma_sorted_find_at(s: Seq<EntryV>, key: Seq<u8>, i: int)
    requires
        entries_sorted(s),
        0 <= i < s.len(),
        s[i].key == key,
    ensures
        find_entry(s, key) == Some(s[i]),
{
    assert forall|j: int| 0 <= j < i implies (#[trigger] s[j].key) != key by {
        if s[j].key == key {
            lemma_lex_irreflexive(key);
        }
    }
    lemma_find_entry_at(s, key, i);
}

/// The ordered entry tree of one view, keyed by the big-endian key bytes.
#[derive(Debug)]
pub struct EntryTree {
    pub entries: Vec<ViewEntry>,
}

impl View for EntryTree {
    type V = Seq<EntryV>;

    open spec fn view(&self) -> Seq<EntryV> {
        entries_view(self.entries@)
    }
}

impl EntryTree {
    /// Entries are strictly sorted by key.
    pub open spec fn wf(&self) -> bool {
        entries_sorted(self@)
    }

    /// Creates an empty tree.
    pub fn new() -> (r: Self)
        ensures
            r.wf(),
            r@ =~= Seq::<EntryV>::empty(),
    {
        let r = EntryTree { entries: Vec::new() };
        proof {
            assert(r@ =~= Seq::<EntryV>::empty());
        }
        r
    }

    /// The number of distinct keys stored.
    pub fn len(&self) -> (r: usize)
        ensures
            r == self@.len(),
    {
        proof {
            assert(self@.len() == self.entries@.len());
        }
        self.entries.len()
    }

    /// The position of `key` in the tree, if present.
    fn index_of(&self, key: &Vec<u8>) -> (r: Option<usize>)
        ensures
            match r {
                Some(i) => 0 <= i < self@.len() && self@[i as int].key == key@ && find_entry(
                    self@,
                    key@,
                ) == Some(self@[i as int]),
                None => find_entry(self@, key@) is None,
            },
    {
        let mut i: usize = 0;
        let n: usize = self.entries.len();
        proof {
            assert(self@.len() == self.entries@.len());
        }
        while i < n
            invariant
                0 <= i <= n,
                n == self@.len(),
                self@.len() == self.entries@.len(),
                forall|j: int| 0 <= j < i ==> (#[trigger] self@[j].key) != key@,
            decreases n - i,
        {
            proof {
                assert(self@[i as int] == self.entries@[i as int]@);
            }
            if bytes_eq(&self.entries[i].key, key) {
                proof {
                    lemma_find_entry_at(self@, key@, i as int);
                }
                return Some(i);
            }
            i += 1;
        }
        proof {
            lemma_find_entry_none(self@, key@);
        }
        None
    }

    /// Loads the entry stored under `key`.
    pub fn get(&self, key: &Vec<u8>) -> (r: Option<&ViewEntry>)
        ensures
            match r {
                Some(e) => find_entry(self@, key@) == Some(e@) && e@.key == key@,
                None => find_entry(self@, key@) is None,
            },
    {
        match self.index_of(key) {
            Some(i) => {
                proof {
                    assert(self@[i as int] == self.entries@[i as int]@);
                }
                Some(&self.entries[i])
            },
            None => None,
        }
    }

    /// Stores `entry` under its key, replacing any entry the key held before.
    /// Every other key keeps its entry, and the tree stays sorted.
    pub fn upsert(&mut self, entry: ViewEntry)
        requires
            old(self).wf(),
        ensures
            final(self).wf(),
            find_entry(final(self)@, entry@.key) == Some(entry@),
            forall|k: Seq<u8>|
                k != entry@.key ==> #[trigger] find_entry(final(self)@, k) == find_entry(
                    old(self)@,
                    k,
                ),
            final(self)@.len() == if find_entry(old(self)@, entry@.key) is Some {
                old(self)@.len()
            } else {
                old(self)@.len() + 1
            },
    {
        let ghost old_view = self@;
        let ghost e = entry@;
        // Find the first position whose key is not below the new key.
        let mut i: usize = 0;
        let n: usize = self.entries.len();
        proof {
            assert(self@.len() == self.entries@.len());
        }
        while i < n
            invariant
                0 <= i <= n,
                n == self@.len(),
                self@.len() == self.entries@.len(),
                self@ == old_view,
                e == entry@,
                forall|j: int| 0 <= j < i ==> lex_lt(#[trigger] self@[j].key, e.key),
            ensures
                0 <= i <= n,
                n == self@.len(),
                self@.len() == self.entries@.len(),
                self@ == old_view,
                e == entry@,
                forall|j: int| 0 <= j < i ==> lex_lt(#[trigger] self@[j].key, e.key),
                i < n ==> !lex_lt(self@[i as int].key, e.key),
            decreases n - i,
        {
            proof {
                assert(self@[i as int] == self.entries@[i as int]@);
            }
            if !bytes_lt(&self.entries[i].key, &entry.key) {
                break ;
            }
            i += 1;
        }
        proof {
            assert(forall|j: int| 0 <= j < i ==> lex_lt(#[trigger] old_view[j].key, e.key));
        }
        if i < self.entries.len() {
            proof {
                assert(self@[i as int] == self.entries@[i as int]@);
            }
            if bytes_eq(&self.entries[i].key, &entry.key) {
                // Replace in place.
                self.entries.set(i, entry);
                proof {
                    self.lemma_upsert_replace(old_view, e, i as int);
                }
                return ;
            }
            // Insert before position i.
            self.entries.insert(i, entry);
            proof {
                self.lemma_upsert_insert(old_view, e, i as int);
            }
            return ;
        }
        // Append at the end.
        let ghost pos = self.entries@.len() as int;
        self.entries.push(entry);
        proof {
            self.lemma_upsert_insert(old_view, e, pos);
        }
    }

    /// After replacing position `i` by an entry with the same key, the tree
    /// keeps its shape and the lookups change only at that key.
    proof fn lemma_upsert_replace(&self, old_view: Seq<EntryV>, e: EntryV, i: int)
        requires
            entries_sorted(old_view),
            0 <= i < old_view.len(),
            old_view[i].key == e.key,
            self@ =~= old_view.update(i, e),
        ensures
            self.wf(),
            find_entry(self@, e.key) == Some(e),
            forall|k: Seq<u8>|
                k != e.key ==> #[trigger] find_entry(self@, k) == find_entry(old_view, k),
            self@.len() == old_view.len(),
            find_entry(old_view, e.key) is Some,
    {
        let s = self@;
        assert(entries_sorted(s)) by {
            assert(forall|a: int, b: int|
                0 <= a < b < s.len() ==> lex_lt(#[trigger] s[a].key, #[trigger] s[b].key)) by {
                assert(forall|a: int| 0 <= a < s.len() ==> (#[trigger] s[a].key) == old_view[a].key);
            }
        }
        lemma_sorted_find_at(s, e.key, i);
        lemma_sorted_find_at(old_view, e.key, i);
        assert forall|k: Seq<u8>| k != e.key implies #[trigger] find_entry(s, k) == find_entry(
            old_view,
            k,
        ) by {
            lemma_find_entry_agree(s, old_view, k, i);
        }
    }

    /// After inserting an entry at position `i` between its sorted
    /// neighbours, the tree keeps its shape and the lookups change only at
    /// the new key.
    proof fn lemma_upsert_insert(&self, old_view: Seq<EntryV>, e: EntryV, i: int)
        requires
            entries_sorted(old_view),
            0 <= i <= old_view.len(),
            forall|j: int| 0 <= j < i ==> lex_lt(#[trigger] old_view[j].key, e.key),
            i < old_view.len() ==> !lex_lt(old_view[i].key, e.key) && old_view[i].key != e.key,
            self@ =~= old_view.take(i) + seq![e] + old_view.skip(i),
        ensures
            self.wf(),
            find_entry(self@, e.key) == Some(e),
            forall|k: Seq<u8>|
                k != e.key ==> #[trigger] find_entry(self@, k) == find_entry(old_view, k),
            self@.len() == old_view.len() + 1,
            find_entry(old_view, e.key) is None,
    {
        let s = self@;
        // Everything at or after position i in the old view is above the new
        // key.
        assert forall|j: int| i <= j < old_view.len() implies lex_lt(
            e.key,
            #[trigger] old_view[j].key,
        ) by {
            lemma_lex_total(e.key, old_view[i].key);
            if j > i {
                lemma_lex_transitive(e.key, old_view[i].key, old_view[j].key);
            }
        }
        assert(entries_sorted(s)) by {
            assert forall|a: int, b: int| 0 <= a < b < s.len() implies lex_lt(
                #[trigger] s[a].key,
                #[trigger] s[b].key,
            ) by {
                if a < i && b == i {
                } else if a == i && b > i {
                } else if a < i && b > i {
                    lemma_lex_transitive(s[a].key, e.key, s[b].key);
                }
            }
        }
        assert forall|j: int| 0 <= j < old_view.len() implies (#[trigger] old_view[j].key)
            != e.key by {
            if j < i {
                lemma_lex_irreflexive(old_view[j].key);
            } else {
                lemma_lex_irreflexive(e.key);
            }
        }
        lemma_find_entry_none(old_view, e.key);
        lemma_sorted_find_at(s, e.key, i);
        assert forall|k: Seq<u8>| k != e.key implies #[trigger] find_entry(s, k) == find_entry(
            old_view,
            k,
        ) by {
            lemma_find_entry_append(old_view.take(i), seq![e] + old_view.skip(i), k);
            lemma_find_entry_append(seq![e], old_view.skip(i), k);
            lemma_find_entry_append(old_view.take(i), old_view.skip(i), k);
            assert(old_view.take(i) + old_view.skip(i) =~= old_view);
            assert(s =~= old_view.take(i) + (seq![e] + old_view.skip(i)));
            assert(find_entry(seq![e], k) is None) by {
                reveal_with_fuel(find_entry, 2);
                assert(seq![e].drop_first() =~= Seq::<EntryV>::empty());
            }
        }
    }

    /// Removes the entry stored under `key`, if any. Every other key keeps
    /// its entry.
    pub fn remove(&mut self, key: &Vec<u8>)
        requires
            old(self).wf(),
        ensures
            final(self).wf(),
            find_entry(final(self)@, key@) is None,
            forall|k: Seq<u8>|
                k != key@ ==> #[trigger] find_entry(final(self)@, k) == find_entry(old(self)@, k),
            final(self)@.len() == if find_entry(old(self)@, key@) is Some {
                old(self)@.len() - 1
            } else {
                old(self)@.len() as int
            },
    {
        let ghost old_view = self@;
        match self.index_of(key) {
            Some(i) => {
                self.entries.remove(i);
                proof {
                    let s = self@;
                    assert(s =~= old_view.take(i as int) + old_view.skip(i as int + 1));
                    assert(entries_sorted(s)) by {
                        assert forall|a: int, b: int| 0 <= a < b < s.len() implies lex_lt(
                            #[trigger] s[a].key,
                            #[trigger] s[b].key,
                        ) by {
                            if a < i && b >= i {
                                assert(s[a] == old_view[a]);
                                assert(s[b] == old_view[b + 1]);
                            }
                        }
                    }
                    assert forall|j: int| 0 <= j < s.len() implies (#[trigger] s[j].key)
                        != key@ by {
                        if j < i {
                            if s[j].key == key@ {
                                lemma_lex_irreflexive(key@);
                            }
                        } else {
                            if s[j].key == key@ {
                                lemma_lex_irreflexive(key@);
                            }
                        }
                    }
                    lemma_find_entry_none(s, key@);
                    assert forall|k: Seq<u8>| k != key@ implies #[trigger] find_entry(s, k)
                        == find_entry(old_view, k) by {
                        lemma_find_entry_agree_removed(s, old_view, k, i as int);
                    }
                }
            },
            None => {
                proof {
                    assert(forall|k: Seq<u8>| #[trigger]
                        find_entry(self@, k) == find_entry(old_view, k));
                }
            },
        }
    }

    /// Copies every entry, in ascending key order.
    pub fn scan_all(&self) -> (r: Vec<ViewEntry>)
        ensures
            entries_view(r@) =~= self@,
    {
        let mut r: Vec<ViewEntry> = Vec::new();
        let mut i: usize = 0;
        let n: usize = self.entries.len();
        proof {
            assert(self@.len() == self.entries@.len());
        }
        while i < n
            invariant
                0 <= i <= n,
                n == self.entries@.len(),
                self@.len() == self.entries@.len(),
                r@.len() == i,
                forall|j: int| 0 <= j < i ==> (#[trigger] r@[j]@) == self@[j],
            decreases n - i,
        {
            proof {
                assert(self@[i as int] == self.entries@[i as int]@);
            }
            r.push(self.entries[i].clone());
            i += 1;
        }
        proof {
            assert(entries_view(r@) =~= self@);
        }
        r
    }

    /// Copies the whole tree.
    pub fn duplicate(&self) -> (r: Self)
        ensures
            r@ == self@,
    {
        let r = EntryTree { entries: self.scan_all() };
        proof {
            assert(r@ =~= self@);
        }
        r
    }

    /// Copies the entries whose keys fall in `[from, to)`, in ascending key
    /// order.
    pub fn scan_range(&self, from: &Vec<u8>, to: &Vec<u8>) -> (r: Vec<ViewEntry>)
        ensures
            entries_view(r@) =~= select_range(self@, from@, to@),
    {
        let mut r: Vec<ViewEntry> = Vec::new();
        let mut i: usize = 0;
        let n: usize = self.entries.len();
        proof {
            assert(self@.len() == self.entries@.len());
            assert(self@.take(0) =~= Seq::<EntryV>::empty());
        }
        while i < n
            invariant
                0 <= i <= n,
                n == self.entries@.len(),
                self@.len() == self.entries@.len(),
                entries_view(r@) =~= select_range(self@.take(i as int), from@, to@),
            decreases n - i,
        {
            proof {
                assert(self@[i as int] == self.entries@[i as int]@);
                assert(self@.take(i + 1 as int).drop_last() =~= self@.take(i as int));
                assert(self@.take(i + 1 as int).last() == self@[i as int]);
            }
            let in_range = !bytes_lt(&self.entries[i].key, from) && bytes_lt(
                &self.entries[i].key,
                to,
            );
            if in_range {
                r.push(self.entries[i].clone());
            }
            proof {
                assert(entries_view(r@) =~= select_range(self@.take(i + 1 as int), from@, to@));
            }
            i += 1;
        }
        proof {
            assert(self@.take(n as int) =~= self@);
        }
        r
    }
}

/// The entries of `s` whose keys fall in `[from, to)`, in the order of `s`.
pub open spec fn select_range(s: Seq<EntryV>, from: Seq<u8>, to: Seq<u8>) -> Seq<EntryV>
    decreases s.len(),
{
    if s.len() == 0 {
        Seq::empty()
    } else {
        let rest = select_range(s.drop_last(), from, to);
        if !lex_lt(s.last().key, from) && lex_lt(s.last().key, to) {
            rest.push(s.last())
        } else {
            rest
        }
    }
}

/// Range queries return exactly the in-range entries, in ascending key
/// order: an entry is selected if and only if it is stored and its key
/// falls in `[from, to)`, and the selection of a sorted list is sorted.
pub proof fn lemma_select_range_spec(s: Seq<EntryV>, from: Seq<u8>, to: Seq<u8>)
    requires
        entries_sorted(s),
    ensures
        entries_sorted(select_range(s, from, to)),
        forall|e: EntryV| #[trigger]
            select_range(s, from, to).contains(e) == (s.contains(e) && !lex_lt(e.key, from)
                && lex_lt(e.key, to)),
    decreases s.len(),
{
    if s.len() > 0 {
        assert(forall|i: int| 0 <= i < s.len() - 1 ==> (#[trigger] s.drop_last()[i]) == s[i]);
        lemma_select_range_spec(s.drop_last(), from, to);
        let rest = select_range(s.drop_last(), from, to);
        let whole = select_range(s, from, to);
        assert forall|i: int| 0 <= i < rest.len() implies s.drop_last().contains(
            #[trigger] rest[i],
        ) && !lex_lt(rest[i].key, from) && lex_lt(rest[i].key, to) by {
            assert(rest.contains(rest[i]));
        }
        if !lex_lt(s.last().key, from) && lex_lt(s.last().key, to) {
            assert(whole =~= rest.push(s.last()));
            assert(entries_sorted(whole)) by {
                assert forall|a: int, b: int| 0 <= a < b < whole.len() implies lex_lt(
                    #[trigger] whole[a].key,
                    #[trigger] whole[b].key,
                ) by {
                    if b == whole.len() - 1 {
                        let j = choose|j: int|
                            0 <= j < s.drop_last().len() && (#[trigger] s.drop_last()[j]) == whole[a];
                        assert(s[j] == whole[a]);
                        assert(lex_lt(s[j].key, s[s.len() - 1].key));
                    }
                }
            }
        }
        assert forall|e: EntryV| #[trigger] whole.contains(e) == (s.contains(e) && !lex_lt(
            e.key,
            from,
        ) && lex_lt(e.key, to)) by {
            if whole.contains(e) {
                let i = choose|i: int| 0 <= i < whole.len() && whole[i] == e;
                if i < rest.len() {
                    assert(rest.contains(e));
                    let j = choose|j: int|
                        0 <= j < s.drop_last().len() && (#[trigger] s.drop_last()[j]) == e;
                    assert(s[j] == e);
                } else {
                    assert(e == s.last());
                    assert(s[s.len() - 1] == e);
                }
            }
            if s.contains(e) && !lex_lt(e.key, from) && lex_lt(e.key, to) {
                let i = choose|i: int| 0 <= i < s.len() && s[i] == e;
                if i < s.len() - 1 {
                    assert(s.drop_last()[i] == e);
                    assert(rest.contains(e));
                    let j = choose|j: int| 0 <= j < rest.len() && rest[j] == e;
                    assert(whole[j] == e);
                } else {
                    assert(e == s.last());
                    assert(whole[whole.len() - 1] == e);
                }
            }
        }
    }
}

/// Builds the storage tree name that holds a view's entries.
pub fn view_entries_tree_name(database: &str, view: &crate::schema::ViewName) -> (r: String)
    ensures
        r@ == database@ + "::view::"@ + view@.0 + "."@ + view@.1 + "::entries"@,
{
    let mut out = view_tree_prefix(database, view);
    out.append("::entries");
    out
}

/// Builds the storage tree name that holds a view's document-map.
pub fn view_document_map_tree_name(database: &str, view: &crate::schema::ViewName) -> (r: String)
    ensures
        r@ == database@ + "::view::"@ + view@.0 + "."@ + view@.1 + "::document-map"@,
{
    let mut out = view_tree_prefix(database, view);
    out.append("::document-map");
    out
}

/// Builds the storage tree name that holds a view's invalidated set.
pub fn view_invalidated_docs_tree_name(database: &str, view: &crate::schema::ViewName) -> (r:
    String)
    ensures
        r@ == database@ + "::view::"@ + view@.0 + "."@ + view@.1 + "::invalidated"@,
{
    let mut out = view_tree_prefix(database, view);
    out.append("::invalidated");
    out
}

/// Builds the storage tree name that holds a view's omitted set.
pub fn view_omitted_docs_tree_name(database: &str, view: &crate::schema::ViewName) -> (r: String)
    ensures
        r@ == database@ + "::view::"@ + view@.0 + "."@ + view@.1 + "::omitted"@,
{
    let mut out = view_tree_prefix(database, view);
    out.append("::omitted");
    out
}

/// The shared prefix of a view's tree names.
fn view_tree_prefix(database: &str, view: &crate::schema::ViewName) -> (r: String)
    ensures
        r@ == database@ + "::view::"@ + view@.0 + "."@ + view@.1,
{
    let mut out = String::new();
    out.append(database);
    out.append("::view::");
    out.append(view.namespace.as_str());
    out.append(".");
    out.append(view.name.as_str());
    out
}

/// Two entry lists that differ only at one position, where neither side
/// carries `k`, agree on the lookup of `k`.
proof fn lemma_find_entry_agree(s1: Seq<EntryV>, s2: Seq<EntryV>, k: Seq<u8>, i: int)
    requires
        s1.len() == s2.len(),
        0 <= i < s1.len(),
        s1[i].key != k,
        s2[i].key != k,
        forall|j: int| 0 <= j < s1.len() && j != i ==> s1[j] == s2[j],
    ensures
        find_entry(s1, k) == find_entry(s2, k),
    decreases s1.len(),
{
    if i == 0 {
        assert(s1.drop_first() =~= s2.drop_first());
    } else {
        assert(s1[0] == s2[0]);
        assert(forall|j: int|
            0 <= j < s1.drop_first().len() && j != i - 1 ==> s1.drop_first()[j]
                == s2.drop_first()[j]);
        lemma_find_entry_agree(s1.drop_first(), s2.drop_first(), k, i - 1);
    }
}

/// Removing the entry at one position, whose key is not `k`, does not change
/// the lookup of `k`.
proof fn lemma_find_entry_agree_removed(s: Seq<EntryV>, old_view: Seq<EntryV>, k: Seq<u8>, i: int)
    requires
        0 <= i < old_view.len(),
        old_view[i].key != k,
        s =~= old_view.take(i) + old_view.skip(i + 1),
    ensures
        find_entry(s, k) == find_entry(old_view, k),
{
    lemma_find_entry_append(old_view.take(i), old_view.skip(i + 1), k);
    lemma_find_entry_append(old_view.take(i), old_view.skip(i), k);
    assert(old_view.take(i) + old_view.skip(i) =~= old_view);
    assert(old_view.skip(i).drop_first() =~= old_view.skip(i + 1));
    assert(old_view.skip(i)[0] == old_view[i]);
}

} // verus!
