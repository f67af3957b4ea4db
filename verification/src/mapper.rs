//! The mapping primitive shared by the synchronous unique-view pipeline and
//! the background view updater.
//!
//! Applying a document's emitted mappings to a view's state first subtracts
//! the stale mappings that the document-map records for the document, then
//! files each emitted mapping under its key (aborting a unique view when a
//! key is already held by another document), and finally records the new key
//! set in the document-map and adjusts the omitted set.

use vstd::prelude::*;

use crate::byteorder::{bytes_clone, bytes_eq};
use crate::error::Error;
use crate::schema::{emitted_view, EmittedMapping, Schema, ViewName};
use crate::storage::{keys_view, DocMap, IdSet};
use crate::views::{find_entry, mappings_clone, mappings_view, EntryTree, EntryV, Mapping, MappingV,
    ViewEntry};

verus! {

/// The mappings stored under `k`, or none when the key holds no entry.
pub open spec fn mappings_at(s: Seq<EntryV>, k: Seq<u8>) -> Seq<MappingV> {
    match find_entry(s, k) {
        Some(e) => e.mappings,
        None => Seq::empty(),
    }
}

/// `ms` without the mappings whose source is `doc`.
pub open spec fn drop_source(ms: Seq<MappingV>, doc: u64) -> Seq<MappingV>
    decreases ms.len(),
{
    if ms.len() == 0 {
        Seq::empty()
    } else {
        let rest = drop_source(ms.drop_last(), doc);
        if ms.last().source == doc {
            rest
        } else {
            rest.push(ms.last())
        }
    }
}

/// The mappings that the emitted list files under `k`, in emission order,
/// all carrying `doc` as their source.
pub open spec fn added_for(ems: Seq<(Seq<u8>, Seq<u8>)>, doc: u64, k: Seq<u8>) -> Seq<MappingV>
    decreases ems.len(),
{
    if ems.len() == 0 {
        Seq::empty()
    } else {
        let rest = added_for(ems.drop_last(), doc, k);
        if ems.last().0 == k {
            rest.push(MappingV { source: doc, value: ems.last().1 })
        } else {
            rest
        }
    }
}

/// Whether the emitted list names `k`.
pub open spec fn ems_has_key(ems: Seq<(Seq<u8>, Seq<u8>)>, k: Seq<u8>) -> bool {
    exists|i: int| 0 <= i < ems.len() && (#[trigger] ems[i].0) == k
}

/// The mappings stored under `k` once `doc`'s emitted list has been applied
/// over the old entries `s0`.
pub open spec fn target_mappings(
    s0: Seq<EntryV>,
    doc: u64,
    ems: Seq<(Seq<u8>, Seq<u8>)>,
    k: Seq<u8>,
) -> Seq<MappingV> {
    drop_source(mappings_at(s0, k), doc) + added_for(ems, doc, k)
}

/// Whether any mapping of `ms` has a source other than `doc`.
pub open spec fn has_other_source(ms: Seq<MappingV>, doc: u64) -> bool {
    exists|i: int| 0 <= i < ms.len() && (#[trigger] ms[i].source) != doc
}

/// Whether any mapping of `ms` has source `doc`.
pub open spec fn has_source(ms: Seq<MappingV>, doc: u64) -> bool {
    exists|i: int| 0 <= i < ms.len() && (#[trigger] ms[i].source) == doc
}

/// All mappings of `ms` share one source.
pub open spec fn same_source(ms: Seq<MappingV>) -> bool {
    forall|i: int, j: int|
        0 <= i < ms.len() && 0 <= j < ms.len() ==> (#[trigger] ms[i].source)
            == (#[trigger] ms[j].source)
}

/// The keys of a key list are distinct.
pub open spec fn distinct_keys(ks: Seq<Seq<u8>>) -> bool {
    forall|i: int, j: int| 0 <= i < j < ks.len() ==> ks[i] != ks[j]
}

/// Membership in `drop_source`: exactly the mappings of other sources stay,
/// and their relative order with it.
pub proof fn lemma_drop_source_membership(ms: Seq<MappingV>, doc: u64)
    ensures
        forall|i: int|
            0 <= i < drop_source(ms, doc).len() ==> ms.contains(#[trigger] drop_source(ms, doc)[i])
                && drop_source(ms, doc)[i].source != doc,
        forall|i: int|
            0 <= i < ms.len() && (#[trigger] ms[i].source) != doc ==> drop_source(ms, doc).contains(
                ms[i],
            ),
    decreases ms.len(),
{
    if ms.len() > 0 {
        lemma_drop_source_membership(ms.drop_last(), doc);
        let rest = drop_source(ms.drop_last(), doc);
        assert(forall|i: int| 0 <= i < ms.len() - 1 ==> ms.drop_last()[i] == ms[i]);
        assert forall|i: int| 0 <= i < drop_source(ms, doc).len() implies ms.contains(
            #[trigger] drop_source(ms, doc)[i],
        ) && drop_source(ms, doc)[i].source != doc by {
            if i < rest.len() {
                assert(ms.drop_last().contains(rest[i]));
                let j = choose|j: int| 0 <= j < ms.drop_last().len() && ms.drop_last()[j] == rest[i];
                assert(ms[j] == rest[i]);
            } else {
                assert(drop_source(ms, doc)[i] == ms.last());
                assert(ms[ms.len() - 1] == ms.last());
            }
        }
        assert forall|i: int|
            0 <= i < ms.len() && (#[trigger] ms[i].source) != doc implies drop_source(
            ms,
            doc,
        ).contains(ms[i]) by {
            if i < ms.len() - 1 {
                assert(ms.drop_last()[i] == ms[i]);
                assert(rest.contains(ms[i]));
                let j = choose|j: int| 0 <= j < rest.len() && rest[j] == ms[i];
                if ms.last().source == doc {
                    assert(drop_source(ms, doc)[j] == ms[i]);
                } else {
                    assert(drop_source(ms, doc)[j] == ms[i]);
                }
            } else {
                assert(drop_source(ms, doc)[drop_source(ms, doc).len() - 1] == ms.last());
            }
        }
    }
}

/// When no mapping of `ms` has source `doc`, dropping that source changes
/// nothing.
pub proof fn lemma_drop_source_noop(ms: Seq<MappingV>, doc: u64)
    requires
        !has_source(ms, doc),
    ensures
        drop_source(ms, doc) == ms,
    decreases ms.len(),
{
    if ms.len() > 0 {
        assert(ms[ms.len() - 1].source != doc);
        assert(forall|i: int|
            0 <= i < ms.drop_last().len() ==> (#[trigger] ms.drop_last()[i]) == ms[i]);
        assert(!has_source(ms.drop_last(), doc));
        lemma_drop_source_noop(ms.drop_last(), doc);
        assert(drop_source(ms, doc) =~= ms);
    }
}

/// Membership in `added_for`: exactly the emitted pairs with key `k`, turned
/// into mappings of `doc` that carry the emitted values; so an emitted
/// `(key, value)` pair is found again, with its value, under its key.
pub proof fn lemma_added_for_membership(ems: Seq<(Seq<u8>, Seq<u8>)>, doc: u64, k: Seq<u8>)
    ensures
        forall|i: int|
            0 <= i < added_for(ems, doc, k).len() ==> (#[trigger] added_for(ems, doc, k)[i].source)
                == doc,
        added_for(ems, doc, k).len() > 0 ==> ems_has_key(ems, k),
        ems_has_key(ems, k) ==> added_for(ems, doc, k).len() > 0,
        forall|i: int|
            0 <= i < ems.len() && (#[trigger] ems[i].0) == k ==> added_for(ems, doc, k).contains(
                MappingV { source: doc, value: ems[i].1 },
            ),
        forall|i: int|
            0 <= i < added_for(ems, doc, k).len() ==> ems.contains(
                (k, (#[trigger] added_for(ems, doc, k)[i]).value),
            ),
    decreases ems.len(),
{
    if ems.len() > 0 {
        lemma_added_for_membership(ems.drop_last(), doc, k);
        assert(forall|i: int|
            0 <= i < ems.len() - 1 ==> (#[trigger] ems.drop_last()[i]) == ems[i]);
        if ems_has_key(ems, k) && ems.last().0 != k {
            let i = choose|i: int| 0 <= i < ems.len() && (#[trigger] ems[i].0) == k;
            assert(ems.drop_last()[i] == ems[i]);
            assert(ems_has_key(ems.drop_last(), k));
        }
        if ems_has_key(ems.drop_last(), k) {
            let i = choose|i: int|
                0 <= i < ems.drop_last().len() && (#[trigger] ems.drop_last()[i].0) == k;
            assert(ems[i] == ems.drop_last()[i]);
            assert(ems_has_key(ems, k));
        }
        if ems.last().0 == k {
            assert(ems[ems.len() - 1].0 == k);
            assert(ems_has_key(ems, k));
        }
        let a = added_for(ems, doc, k);
        let rest = added_for(ems.drop_last(), doc, k);
        assert forall|i: int|
            0 <= i < ems.len() && (#[trigger] ems[i].0) == k implies a.contains(
            MappingV { source: doc, value: ems[i].1 },
        ) by {
            if i < ems.len() - 1 {
                assert(ems.drop_last()[i] == ems[i]);
                assert(rest.contains(MappingV { source: doc, value: ems[i].1 }));
                let j = choose|j: int|
                    0 <= j < rest.len() && rest[j] == MappingV { source: doc, value: ems[i].1 };
                assert(a[j] == MappingV { source: doc, value: ems[i].1 });
            } else {
                assert(a[a.len() - 1] == MappingV { source: doc, value: ems[i].1 });
            }
        }
        assert forall|i: int| 0 <= i < a.len() implies ems.contains(
            (k, (#[trigger] a[i]).value),
        ) by {
            if i < rest.len() {
                assert(rest[i] == a[i]);
                assert(ems.drop_last().contains((k, rest[i].value)));
                let j = choose|j: int|
                    0 <= j < ems.drop_last().len() && ems.drop_last()[j] == (k, rest[i].value);
                assert(ems[j] == (k, a[i].value));
            } else {
                assert(a[i] == MappingV { source: doc, value: ems.last().1 });
                assert(ems[ems.len() - 1] == (k, a[i].value));
            }
        }
    }
}

/// Dropping `doc`'s mappings leaves the presence of other sources unchanged.
pub proof fn lemma_has_other_drop(ms: Seq<MappingV>, doc: u64)
    ensures
        has_other_source(drop_source(ms, doc), doc) == has_other_source(ms, doc),
{
    lemma_drop_source_membership(ms, doc);
    let d = drop_source(ms, doc);
    if has_other_source(d, doc) {
        let i = choose|i: int| 0 <= i < d.len() && (#[trigger] d[i].source) != doc;
        let j = choose|j: int| 0 <= j < ms.len() && ms[j] == d[i];
        assert(ms[j].source != doc);
    }
    if has_other_source(ms, doc) {
        let i = choose|i: int| 0 <= i < ms.len() && (#[trigger] ms[i].source) != doc;
        assert(d.contains(ms[i]));
        let j = choose|j: int| 0 <= j < d.len() && d[j] == ms[i];
        assert(d[j].source != doc);
    }
}

/// Appending mappings that all carry source `doc` leaves the presence of
/// other sources unchanged.
pub proof fn lemma_has_other_append(a: Seq<MappingV>, b: Seq<MappingV>, doc: u64)
    requires
        forall|i: int| 0 <= i < b.len() ==> (#[trigger] b[i].source) == doc,
    ensures
        has_other_source(a + b, doc) == has_other_source(a, doc),
{
    let c = a + b;
    if has_other_source(c, doc) {
        let i = choose|i: int| 0 <= i < c.len() && (#[trigger] c[i].source) != doc;
        if i < a.len() {
            assert(a[i].source != doc);
        } else {
            assert(b[i - a.len()].source == doc);
        }
    }
    if has_other_source(a, doc) {
        let i = choose|i: int| 0 <= i < a.len() && (#[trigger] a[i].source) != doc;
        assert(c[i].source != doc);
    }
}

/// Checks whether any mapping has a source other than `doc`.
fn has_other_source_exec(ms: &Vec<Mapping>, doc: u64) -> (r: bool)
    ensures
        r == has_other_source(mappings_view(ms@), doc),
{
    let ghost mv = mappings_view(ms@);
    let mut i: usize = 0;
    while i < ms.len()
        invariant
            0 <= i <= ms@.len(),
            mv == mappings_view(ms@),
            mv.len() == ms@.len(),
            forall|j: int| 0 <= j < i ==> (#[trigger] mv[j].source) == doc,
        decreases ms@.len() - i,
    {
        proof {
            assert(mv[i as int] == ms@[i as int]@);
        }
        if ms[i].source != doc {
            proof {
                assert(mv[i as int].source != doc);
            }
            return true;
        }
        i += 1;
    }
    false
}

/// Copies the mappings whose source is not `doc`, keeping their order.
fn mappings_without_source(ms: &Vec<Mapping>, doc: u64) -> (r: Vec<Mapping>)
    ensures
        mappings_view(r@) == drop_source(mappings_view(ms@), doc),
{
    let ghost mv = mappings_view(ms@);
    let mut r: Vec<Mapping> = Vec::new();
    let mut i: usize = 0;
    proof {
        assert(mappings_view(r@) =~= drop_source(mv.take(0), doc));
    }
    while i < ms.len()
        invariant
            0 <= i <= ms@.len(),
            mv == mappings_view(ms@),
            mv.len() == ms@.len(),
            mappings_view(r@) =~= drop_source(mv.take(i as int), doc),
        decreases ms@.len() - i,
    {
        proof {
            assert(mv[i as int] == ms@[i as int]@);
            assert(mv.take(i + 1 as int).drop_last() =~= mv.take(i as int));
            assert(mv.take(i + 1 as int).last() == mv[i as int]);
        }
        if ms[i].source != doc {
            r.push(ms[i].clone());
        }
        proof {
            assert(mappings_view(r@) =~= drop_source(mv.take(i + 1 as int), doc));
        }
        i += 1;
    }
    proof {
        assert(mv.take(ms@.len() as int) =~= mv);
    }
    r
}

/// Recomputes the reduced value of one key from its mappings, by the
/// schema's reduce function; views without a reduce function store an empty
/// value.
fn recompute_reduced<S: Schema>(
    logic: &S,
    view_name: &ViewName,
    has_reduce: bool,
    key: &Vec<u8>,
    mappings: &Vec<Mapping>,
) -> Result<Vec<u8>, Error> {
    if !has_reduce {
        return Ok(Vec::new());
    }
    let mut pairs: Vec<(Vec<u8>, Vec<u8>)> = Vec::new();
    let mut i: usize = 0;
    while i < mappings.len()
        invariant
            0 <= i <= mappings@.len(),
        decreases mappings@.len() - i,
    {
        pairs.push((bytes_clone(key), bytes_clone(&mappings[i].value)));
        i += 1;
    }
    logic.reduce(view_name, &pairs, false)
}

/// Subtracts `doc_id`'s stale mappings from the entry stored under `key`:
/// drops the entry when nothing else maps the key, and rewrites it with the
/// remaining mappings otherwise. Nothing else changes; an error from the
/// reduce function leaves the tree untouched.
fn strip_key<S: Schema>(
    logic: &S,
    view_name: &ViewName,
    has_reduce: bool,
    entries: &mut EntryTree,
    doc_id: u64,
    key: &Vec<u8>,
) -> (r: Result<(), Error>)
    requires
        old(entries).wf(),
    ensures
        final(entries).wf(),
        match r {
            Ok(_) => {
                &&& forall|k: Seq<u8>|
                    k != key@ ==> #[trigger] find_entry(final(entries)@, k) == find_entry(
                        old(entries)@,
                        k,
                    )
                &&& match find_entry(final(entries)@, key@) {
                    Some(e) => e.key == key@ && e.mappings == drop_source(
                        mappings_at(old(entries)@, key@),
                        doc_id,
                    ) && e.mappings.len() > 0,
                    None => drop_source(mappings_at(old(entries)@, key@), doc_id).len() == 0,
                }
            },
            Err(_) => final(entries)@ == old(entries)@,
        },
{
    let kept: Option<Vec<Mapping>> = match entries.get(key) {
        None => {
            proof {
                assert(drop_source(mappings_at(entries@, key@), doc_id).len() == 0);
            }
            return Ok(());
        },
        Some(e) => Some(mappings_without_source(&e.mappings, doc_id)),
    };
    let kept = kept.unwrap();
    if kept.len() == 0 {
        entries.remove(key);
        return Ok(());
    }
    let reduced = match recompute_reduced(logic, view_name, has_reduce, key, &kept) {
        Ok(v) => v,
        Err(e) => {
            return Err(e);
        },
    };
    entries.upsert(ViewEntry { key: bytes_clone(key), mappings: kept, reduced_value: reduced });
    Ok(())
}

/// Files one emitted mapping under its key. A unique view refuses the key
/// when another document already holds it; an error leaves the tree
/// untouched.
fn add_mapping<S: Schema>(
    logic: &S,
    view_name: &ViewName,
    unique: bool,
    has_reduce: bool,
    entries: &mut EntryTree,
    doc_id: u64,
    em: &EmittedMapping,
) -> (r: Result<(), Error>)
    requires
        old(entries).wf(),
    ensures
        final(entries).wf(),
        match r {
            Ok(_) => {
                &&& forall|k: Seq<u8>|
                    k != em@.0 ==> #[trigger] find_entry(final(entries)@, k) == find_entry(
                        old(entries)@,
                        k,
                    )
                &&& (match find_entry(final(entries)@, em@.0) {
                    Some(e) => e.key == em@.0 && e.mappings == mappings_at(
                        old(entries)@,
                        em@.0,
                    ).push(MappingV { source: doc_id, value: em@.1 }),
                    None => false,
                })
                &&& !(unique && has_other_source(mappings_at(old(entries)@, em@.0), doc_id))
            },
            Err(_) => final(entries)@ == old(entries)@,
        },
        (unique && has_other_source(mappings_at(old(entries)@, em@.0), doc_id)) ==> (r matches Err(
            e,
        ) && e is UniqueKeyViolation),
{
    let mut ms: Vec<Mapping> = match entries.get(&em.key) {
        Some(e) => mappings_clone(&e.mappings),
        None => Vec::new(),
    };
    proof {
        assert(mappings_view(ms@) =~= mappings_at(entries@, em@.0));
    }
    if unique && has_other_source_exec(&ms, doc_id) {
        return Err(Error::UniqueKeyViolation(view_name.clone(), bytes_clone(&em.key)));
    }
    ms.push(Mapping { source: doc_id, value: bytes_clone(&em.value) });
    proof {
        assert(mappings_view(ms@) =~= mappings_at(entries@, em@.0).push(
            MappingV { source: doc_id, value: em@.1 },
        ));
    }
    let reduced = match recompute_reduced(logic, view_name, has_reduce, &em.key, &ms) {
        Ok(v) => v,
        Err(e) => {
            return Err(e);
        },
    };
    entries.upsert(ViewEntry { key: bytes_clone(&em.key), mappings: ms, reduced_value: reduced });
    Ok(())
}

/// Checks whether `keys` holds `key`.
fn keys_contain(keys: &Vec<Vec<u8>>, key: &Vec<u8>) -> (r: bool)
    ensures
        r == keys_view(keys@).contains(key@),
{
    let ghost kv = keys_view(keys@);
    let mut i: usize = 0;
    while i < keys.len()
        invariant
            0 <= i <= keys@.len(),
            kv == keys_view(keys@),
            kv.len() == keys@.len(),
            forall|j: int| 0 <= j < i ==> (#[trigger] kv[j]) != key@,
        decreases keys@.len() - i,
    {
        proof {
            assert(kv[i as int] == keys@[i as int]@);
        }
        if bytes_eq(&keys[i], key) {
            return true;
        }
        i += 1;
    }
    false
}

/// The distinct keys of an emitted list, each taken at its first occurrence.
fn dedup_emitted_keys(mappings: &Vec<EmittedMapping>) -> (r: Vec<Vec<u8>>)
    ensures
        distinct_keys(keys_view(r@)),
        forall|key: Seq<u8>| #[trigger]
            keys_view(r@).contains(key) == ems_has_key(emitted_view(mappings@), key),
{
    let ghost ems = emitted_view(mappings@);
    let mut r: Vec<Vec<u8>> = Vec::new();
    let mut i: usize = 0;
    while i < mappings.len()
        invariant
            0 <= i <= mappings@.len(),
            ems == emitted_view(mappings@),
            ems.len() == mappings@.len(),
            distinct_keys(keys_view(r@)),
            forall|key: Seq<u8>| #[trigger]
                keys_view(r@).contains(key) == ems_has_key(ems.take(i as int), key),
        decreases mappings@.len() - i,
    {
        proof {
            assert(ems[i as int] == mappings@[i as int]@);
        }
        if !keys_contain(&r, &mappings[i].key) {
            let ghost old_kv = keys_view(r@);
            r.push(bytes_clone(&mappings[i].key));
            proof {
                let kv = keys_view(r@);
                assert(kv =~= old_kv.push(ems[i as int].0));
                assert(distinct_keys(kv)) by {
                    assert forall|a: int, b: int| 0 <= a < b < kv.len() implies kv[a] != kv[b] by {
                        if b == kv.len() - 1 {
                            if kv[a] == kv[b] {
                                assert(old_kv[a] == ems[i as int].0);
                                assert(old_kv.contains(ems[i as int].0));
                            }
                        }
                    }
                }
                assert forall|key: Seq<u8>| #[trigger]
                    kv.contains(key) == ems_has_key(ems.take(i + 1 as int), key) by {
                    if kv.contains(key) {
                        let j = choose|j: int| 0 <= j < kv.len() && kv[j] == key;
                        if j < old_kv.len() {
                            assert(old_kv[j] == key);
                            assert(old_kv.contains(key));
                            let w = choose|w: int|
                                0 <= w < i && (#[trigger] ems.take(i as int)[w].0) == key;
                            assert(ems.take(i + 1 as int)[w].0 == key);
                        } else {
                            assert(ems.take(i + 1 as int)[i as int].0 == key);
                        }
                    }
                    if ems_has_key(ems.take(i + 1 as int), key) {
                        let w = choose|w: int|
                            0 <= w <= i && (#[trigger] ems.take(i + 1 as int)[w].0) == key;
                        if w < i {
                            assert(ems.take(i as int)[w].0 == key);
                            assert(ems_has_key(ems.take(i as int), key));
                            assert(old_kv.contains(key));
                            let j = choose|j: int| 0 <= j < old_kv.len() && old_kv[j] == key;
                            assert(kv[j] == key);
                        } else {
                            assert(kv[kv.len() - 1] == key);
                        }
                    }
                }
            }
        } else {
            proof {
                let kv = keys_view(r@);
                assert forall|key: Seq<u8>| #[trigger]
                    kv.contains(key) == ems_has_key(ems.take(i + 1 as int), key) by {
                    if kv.contains(key) {
                        let w = choose|w: int|
                            0 <= w < i && (#[trigger] ems.take(i as int)[w].0) == key;
                        assert(ems.take(i + 1 as int)[w].0 == key);
                    }
                    if ems_has_key(ems.take(i + 1 as int), key) {
                        let w = choose|w: int|
                            0 <= w <= i && (#[trigger] ems.take(i + 1 as int)[w].0) == key;
                        if w < i {
                            assert(ems.take(i as int)[w].0 == key);
                            assert(ems_has_key(ems.take(i as int), key));
                        } else {
                            assert(key == ems[i as int].0);
                            assert(kv.contains(key));
                        }
                    }
                }
            }
        }
        i += 1;
    }
    proof {
        assert(ems.take(mappings@.len() as int) =~= ems);
    }
    r
}

/// The whole persistent state of one view: its entry tree, document-map,
/// invalidation set, omitted set, and the stored schema version marker.
#[derive(Debug)]
pub struct ViewState {
    pub entries: EntryTree,
    pub document_map: DocMap,
    pub invalidated: IdSet,
    pub omitted: IdSet,
    pub stored_version: u64,
}

impl ViewState {
    /// The well-formedness of a view's state. Entries are sorted and
    /// nonempty and registered under their own key; the document-map is the
    /// sole authority on contributions, so every stored mapping is backed by
    /// it; recorded key lists are duplicate-free; and a unique view holds at
    /// most one source document per key.
    pub open spec fn wf(&self, unique: bool) -> bool {
        &&& self.entries.wf()
        &&& self.document_map.wf()
        &&& self.invalidated.wf()
        &&& self.omitted.wf()
        &&& forall|k: Seq<u8>|
            #[trigger] find_entry(self.entries@, k) matches Some(e) ==> e.key == k
                && e.mappings.len() > 0
        &&& forall|k: Seq<u8>, i: int|
            0 <= i < mappings_at(self.entries@, k).len() ==> (
            match self.document_map.spec_get(#[trigger] mappings_at(self.entries@, k)[i].source) {
                Some(ks) => ks.contains(k),
                None => false,
            })
        &&& forall|id: u64|
            #[trigger] self.document_map.spec_get(id) matches Some(ks) ==> distinct_keys(ks)
        &&& (unique ==> forall|k: Seq<u8>|
            #[trigger] find_entry(self.entries@, k) matches Some(e) ==> same_source(e.mappings))
    }

    /// Creates the empty state of a view at schema version `version`.
    pub fn new(version: u64) -> (r: Self)
        ensures
            r.wf(true),
            r.wf(false),
            r.entries@ =~= Seq::<EntryV>::empty(),
            r.invalidated@ =~= Seq::<u64>::empty(),
            r.omitted@ =~= Seq::<u64>::empty(),
            forall|id: u64| #[trigger] r.document_map.spec_get(id) is None,
            r.stored_version == version,
    {
        let r = ViewState {
            entries: EntryTree::new(),
            document_map: DocMap::new(),
            invalidated: IdSet::new(),
            omitted: IdSet::new(),
            stored_version: version,
        };
        proof {
            assert forall|k: Seq<u8>| #[trigger] find_entry(r.entries@, k) is None by {}
        }
        r
    }

    /// Copies the whole state.
    pub fn duplicate(&self) -> (r: Self)
        ensures
            r.entries@ == self.entries@,
            r.document_map@ == self.document_map@,
            r.invalidated@ == self.invalidated@,
            r.omitted@ == self.omitted@,
            r.stored_version == self.stored_version,
    {
        ViewState {
            entries: self.entries.duplicate(),
            document_map: self.document_map.duplicate(),
            invalidated: self.invalidated.duplicate(),
            omitted: self.omitted.duplicate(),
            stored_version: self.stored_version,
        }
    }
}

impl ViewState {
    /// Whether applying this document touches the key: it is recorded in the
    /// document-map or named by the emitted list.
    pub open spec fn spec_touched(
        &self,
        doc_id: u64,
        ems: Seq<(Seq<u8>, Seq<u8>)>,
        k: Seq<u8>,
    ) -> bool {
        ||| match self.document_map.spec_get(doc_id) {
            Some(ks) => ks.contains(k),
            None => false,
        }
        ||| ems_has_key(ems, k)
    }

    /// One document's emitted list has been applied over the state `pre`:
    /// every key holds exactly its target mappings, the document-map records
    /// exactly the emitted keys (everyone else's record kept), and the
    /// omitted mark says whether nothing was emitted.
    pub open spec fn view_mapped(
        pre: ViewState,
        post: ViewState,
        doc_id: u64,
        ems: Seq<(Seq<u8>, Seq<u8>)>,
    ) -> bool {
        &&& forall|k: Seq<u8>|
            match #[trigger] find_entry(post.entries@, k) {
                Some(e) => e.key == k && e.mappings == target_mappings(
                    pre.entries@,
                    doc_id,
                    ems,
                    k,
                ) && e.mappings.len() > 0,
                None => target_mappings(pre.entries@, doc_id, ems, k).len() == 0,
            }
        &&& (match post.document_map.spec_get(doc_id) {
            Some(ks) => distinct_keys(ks) && forall|key: Seq<u8>| #[trigger]
                ks.contains(key) == ems_has_key(ems, key),
            None => false,
        })
        &&& forall|x: u64|
            x != doc_id ==> #[trigger] post.document_map.spec_get(x)
                == pre.document_map.spec_get(x)
        &&& forall|x: u64| #[trigger]
            post.omitted@.contains(x) == if x == doc_id {
                ems.len() == 0
            } else {
                pre.omitted@.contains(x)
            }
        &&& post.invalidated@ == pre.invalidated@
        &&& post.stored_version == pre.stored_version
    }

    /// A deleted document's contributions have been subtracted from the
    /// state `pre`: its mappings left their entries, an entry left empty is
    /// gone, and the document left the document-map and the omitted set.
    pub open spec fn view_unmapped(pre: ViewState, post: ViewState, doc_id: u64) -> bool {
        &&& forall|k: Seq<u8>|
            match #[trigger] find_entry(post.entries@, k) {
                Some(e) => e.key == k && e.mappings == drop_source(
                    mappings_at(pre.entries@, k),
                    doc_id,
                ) && e.mappings.len() > 0,
                None => drop_source(mappings_at(pre.entries@, k), doc_id).len() == 0,
            }
        &&& post.document_map.spec_get(doc_id) is None
        &&& forall|x: u64|
            x != doc_id ==> #[trigger] post.document_map.spec_get(x)
                == pre.document_map.spec_get(x)
        &&& forall|x: u64| #[trigger]
            post.omitted@.contains(x) == (pre.omitted@.contains(x) && x != doc_id)
        &&& post.invalidated@ == pre.invalidated@
        &&& post.stored_version == pre.stored_version
    }

    /// Applies `doc_id`'s emitted mappings to the view: subtracts the stale
    /// mappings recorded in the document-map, files each emitted mapping
    /// under its key, records the new key set, and adjusts the omitted set.
    /// The call is atomic: on any error the state is unchanged. A unique
    /// view refuses a key already held by another document. Re-filing moves
    /// the document's mappings to the end of each shared entry's list, so
    /// re-applying an unchanged document keeps the stored sets but may
    /// reorder a shared key's mappings; the contracts state the resulting
    /// lists exactly.
    pub fn apply_mappings<S: Schema>(
        &mut self,
        logic: &S,
        view_name: &ViewName,
        unique: bool,
        has_reduce: bool,
        doc_id: u64,
        mappings: &Vec<EmittedMapping>,
    ) -> (r: Result<(), Error>)
        requires
            old(self).wf(unique),
        ensures
            final(self).wf(unique),
            final(self).stored_version == old(self).stored_version,
            final(self).invalidated@ == old(self).invalidated@,
            r is Ok ==> ViewState::view_mapped(
                *old(self),
                *final(self),
                doc_id,
                emitted_view(mappings@),
            ),
            match r {
                Ok(_) => {
                    let s0 = old(self).entries@;
                    let ems = emitted_view(mappings@);
                    &&& forall|k: Seq<u8>|
                        match #[trigger] find_entry(final(self).entries@, k) {
                            Some(e) => e.key == k && e.mappings == target_mappings(
                                s0,
                                doc_id,
                                ems,
                                k,
                            ) && e.mappings.len() > 0,
                            None => target_mappings(s0, doc_id, ems, k).len() == 0,
                        }
                    &&& forall|k: Seq<u8>|
                        !old(self).spec_touched(doc_id, ems, k) ==> #[trigger] find_entry(
                            final(self).entries@,
                            k,
                        ) == find_entry(s0, k)
                    &&& (match final(self).document_map.spec_get(doc_id) {
                        Some(ks) => distinct_keys(ks) && forall|key: Seq<u8>| #[trigger]
                            ks.contains(key) == ems_has_key(ems, key),
                        None => false,
                    })
                    &&& forall|x: u64|
                        x != doc_id ==> #[trigger] final(self).document_map.spec_get(x) == old(self).document_map.spec_get(x)
                    &&& forall|x: u64| #[trigger]
                        final(self).omitted@.contains(x) == if x == doc_id {
                            ems.len() == 0
                        } else {
                            old(self).omitted@.contains(x)
                        }
                    &&& (unique ==> forall|k: Seq<u8>|
                        ems_has_key(ems, k) ==> !has_other_source(
                            #[trigger] mappings_at(s0, k),
                            doc_id,
                        ))
                },
                Err(_) => *final(self) == *old(self),
            },
    {
        let ghost s0 = self.entries@;
        let ghost ems = emitted_view(mappings@);
        let old_keys: Option<Vec<Vec<u8>>> = self.document_map.get_keys(doc_id);
        let mut staged = self.entries.duplicate();
        let ghost kv: Seq<Seq<u8>> = match old_keys {
            Some(ref keys) => keys_view(keys@),
            None => Seq::empty(),
        };
        proof {
            if old_keys is Some {
                assert(self.document_map.spec_get(doc_id) == Some(kv));
                assert(distinct_keys(kv));
            }
        }
        // Subtract the stale mappings of every key the document-map records.
        match &old_keys {
            Some(keys) => {
                let mut i: usize = 0;
                while i < keys.len()
                    invariant
                        *self == *old(self),
                        old(self).wf(unique),
                        0 <= i <= keys@.len(),
                        kv == keys_view(keys@),
                        kv.len() == keys@.len(),
                        distinct_keys(kv),
                        staged.wf(),
                        forall|k: Seq<u8>|
                            (exists|j: int| 0 <= j < i && (#[trigger] kv[j]) == k) ==> match
                                #[trigger] find_entry(staged@, k) {
                                Some(e) => e.key == k && e.mappings == drop_source(
                                    mappings_at(s0, k),
                                    doc_id,
                                ) && e.mappings.len() > 0,
                                None => drop_source(mappings_at(s0, k), doc_id).len() == 0,
                            },
                        forall|k: Seq<u8>|
                            !(exists|j: int| 0 <= j < i && (#[trigger] kv[j]) == k)
                                ==> #[trigger] find_entry(staged@, k) == find_entry(s0, k),
                    decreases keys@.len() - i,
                {
                    proof {
                        assert(kv[i as int] == keys@[i as int]@);
                        assert(!(exists|j: int| 0 <= j < i && (#[trigger] kv[j]) == kv[i as int]));
                    }
                    let ghost staged_before = staged@;
                    match strip_key(logic, view_name, has_reduce, &mut staged, doc_id, &keys[i]) {
                        Ok(_) => {},
                        Err(e) => {
                            return Err(e);
                        },
                    }
                    proof {
                        let ki = kv[i as int];
                        assert(find_entry(staged_before, ki) == find_entry(s0, ki));
                        assert(mappings_at(staged_before, ki) == mappings_at(s0, ki));
                        assert forall|k: Seq<u8>| #![trigger find_entry(staged@, k)]
                            (exists|j: int| 0 <= j < i + 1 && (#[trigger] kv[j]) == k) implies match
                            find_entry(staged@, k) {
                            Some(e) => e.key == k && e.mappings == drop_source(
                                mappings_at(s0, k),
                                doc_id,
                            ) && e.mappings.len() > 0,
                            None => drop_source(mappings_at(s0, k), doc_id).len() == 0,
                        } by {
                            let j = choose|j: int| 0 <= j < i + 1 && (#[trigger] kv[j]) == k;
                            if j < i {
                                assert(k != ki);
                                assert(find_entry(staged@, k) == find_entry(staged_before, k));
                            }
                        }
                        assert forall|k: Seq<u8>| #![trigger find_entry(staged@, k)]
                            !(exists|j: int| 0 <= j < i + 1 && (#[trigger] kv[j]) == k) implies
                            find_entry(staged@, k) == find_entry(s0, k) by {
                            assert(k != ki);
                            assert(!(exists|j: int| 0 <= j < i && (#[trigger] kv[j]) == k));
                        }
                    }
                    i += 1;
                }
            },
            None => {},
        }
        // The staged tree now holds exactly the old entries with `doc_id`'s
        // contributions subtracted.
        proof {
            assert forall|k: Seq<u8>| #[trigger]
                kv.contains(k) == self.spec_touched(doc_id, Seq::empty(), k) by {}
            assert forall|k: Seq<u8>| !kv.contains(k) implies !has_source(
                mappings_at(s0, k),
                doc_id,
            ) by {
                if has_source(mappings_at(s0, k), doc_id) {
                    let i = choose|i: int|
                        0 <= i < mappings_at(s0, k).len() && (#[trigger] mappings_at(
                            s0,
                            k,
                        )[i].source) == doc_id;
                    assert(match self.document_map.spec_get(mappings_at(s0, k)[i].source) {
                        Some(ks) => ks.contains(k),
                        None => false,
                    });
                }
            }
            assert forall|k: Seq<u8>| match #[trigger] find_entry(staged@, k) {
                Some(e) => e.key == k && e.mappings == drop_source(mappings_at(s0, k), doc_id)
                    && e.mappings.len() > 0,
                None => drop_source(mappings_at(s0, k), doc_id).len() == 0,
            } by {
                if !kv.contains(k) {
                    assert(find_entry(staged@, k) == find_entry(s0, k));
                    lemma_drop_source_noop(mappings_at(s0, k), doc_id);
                    match find_entry(s0, k) {
                        Some(e) => {
                            assert(e.mappings == mappings_at(s0, k));
                        },
                        None => {
                            assert(mappings_at(s0, k) =~= Seq::<MappingV>::empty());
                            assert(drop_source(mappings_at(s0, k), doc_id).len() == 0);
                        },
                    }
                } else {
                    let j = choose|j: int| 0 <= j < kv.len() && kv[j] == k;
                }
            }
        }
        let ghost s1 = staged@;
        // File each emitted mapping under its key.
        let mut bi: usize = 0;
        proof {
            assert(ems.take(0) =~= Seq::<(Seq<u8>, Seq<u8>)>::empty());
            assert forall|k: Seq<u8>| match #[trigger] find_entry(staged@, k) {
                Some(e) => e.key == k && e.mappings == drop_source(mappings_at(s0, k), doc_id)
                    + added_for(ems.take(0), doc_id, k) && e.mappings.len() > 0,
                None => (drop_source(mappings_at(s0, k), doc_id) + added_for(
                    ems.take(0),
                    doc_id,
                    k,
                )).len() == 0,
            } by {
                assert(drop_source(mappings_at(s0, k), doc_id) + added_for(ems.take(0), doc_id, k)
                    =~= drop_source(mappings_at(s0, k), doc_id));
            }
        }
        while bi < mappings.len()
            invariant
                *self == *old(self),
                old(self).wf(unique),
                0 <= bi <= mappings@.len(),
                ems == emitted_view(mappings@),
                ems.len() == mappings@.len(),
                staged.wf(),
                forall|k: Seq<u8>| match #[trigger] find_entry(staged@, k) {
                    Some(e) => e.key == k && e.mappings == drop_source(mappings_at(s0, k), doc_id)
                        + added_for(ems.take(bi as int), doc_id, k) && e.mappings.len() > 0,
                    None => (drop_source(mappings_at(s0, k), doc_id) + added_for(
                        ems.take(bi as int),
                        doc_id,
                        k,
                    )).len() == 0,
                },
                forall|k: Seq<u8>|
                    !kv.contains(k) && !ems_has_key(ems.take(bi as int), k) ==> #[trigger] find_entry(
                        staged@,
                        k,
                    ) == find_entry(s1, k),
                forall|j: int|
                    unique && 0 <= j < bi ==> !has_other_source(
                        #[trigger] mappings_at(s0, ems[j].0),
                        doc_id,
                    ),
            decreases mappings@.len() - bi,
        {
            proof {
                assert(ems[bi as int] == mappings@[bi as int]@);
            }
            let ghost staged_before = staged@;
            let ghost emk = ems[bi as int].0;
            proof {
                // The mappings currently stored under the emitted key.
                match find_entry(staged_before, emk) {
                    Some(e) => {},
                    None => {
                        assert(mappings_at(staged_before, emk) =~= Seq::<MappingV>::empty());
                        assert((drop_source(mappings_at(s0, emk), doc_id) + added_for(
                            ems.take(bi as int),
                            doc_id,
                            emk,
                        )).len() == 0);
                        assert(mappings_at(staged_before, emk) =~= drop_source(
                            mappings_at(s0, emk),
                            doc_id,
                        ) + added_for(ems.take(bi as int), doc_id, emk));
                    },
                }
            }
            match add_mapping(logic, view_name, unique, has_reduce, &mut staged, doc_id, &mappings[bi]) {
                Ok(_) => {},
                Err(e) => {
                    return Err(e);
                },
            }
            proof {
                // Relate the per-key check back to the old entries.
                lemma_added_for_membership(ems.take(bi as int), doc_id, emk);
                lemma_has_other_append(
                    drop_source(mappings_at(s0, emk), doc_id),
                    added_for(ems.take(bi as int), doc_id, emk),
                    doc_id,
                );
                lemma_has_other_drop(mappings_at(s0, emk), doc_id);
                assert(ems.take(bi + 1 as int).drop_last() =~= ems.take(bi as int));
                assert(ems.take(bi + 1 as int).last() == ems[bi as int]);
                assert forall|k: Seq<u8>| match #[trigger] find_entry(staged@, k) {
                    Some(e) => e.key == k && e.mappings == drop_source(mappings_at(s0, k), doc_id)
                        + added_for(ems.take(bi + 1 as int), doc_id, k) && e.mappings.len() > 0,
                    None => (drop_source(mappings_at(s0, k), doc_id) + added_for(
                        ems.take(bi + 1 as int),
                        doc_id,
                        k,
                    )).len() == 0,
                } by {
                    if k == emk {
                        assert(find_entry(staged@, k) matches Some(e) && e.mappings == mappings_at(
                            staged_before,
                            k,
                        ).push(MappingV { source: doc_id, value: ems[bi as int].1 }));
                        assert(mappings_at(staged_before, k) == drop_source(
                            mappings_at(s0, k),
                            doc_id,
                        ) + added_for(ems.take(bi as int), doc_id, k));
                        assert(added_for(ems.take(bi + 1 as int), doc_id, k) == added_for(
                            ems.take(bi as int),
                            doc_id,
                            k,
                        ).push(MappingV { source: doc_id, value: ems[bi as int].1 }));
                        assert((drop_source(mappings_at(s0, k), doc_id) + added_for(
                            ems.take(bi as int),
                            doc_id,
                            k,
                        )).push(MappingV { source: doc_id, value: ems[bi as int].1 }) =~= drop_source(
                            mappings_at(s0, k),
                            doc_id,
                        ) + added_for(ems.take(bi + 1 as int), doc_id, k));
                    } else {
                        assert(find_entry(staged@, k) == find_entry(staged_before, k));
                        assert(added_for(ems.take(bi + 1 as int), doc_id, k) == added_for(
                            ems.take(bi as int),
                            doc_id,
                            k,
                        ));
                    }
                }
                assert forall|k: Seq<u8>|
                    !kv.contains(k) && !ems_has_key(ems.take(bi + 1 as int), k) implies #[trigger] find_entry(
                    staged@,
                    k,
                ) == find_entry(s1, k) by {
                    assert(k != emk) by {
                        if k == emk {
                            assert(ems.take(bi + 1 as int)[bi as int].0 == k);
                        }
                    }
                    assert(!ems_has_key(ems.take(bi as int), k)) by {
                        if ems_has_key(ems.take(bi as int), k) {
                            let w = choose|w: int|
                                0 <= w < bi && (#[trigger] ems.take(bi as int)[w].0) == k;
                            assert(ems.take(bi + 1 as int)[w].0 == k);
                        }
                    }
                }
            }
            bi += 1;
        }
        proof {
            assert(ems.take(mappings@.len() as int) =~= ems);
        }
        // Commit: install the staged entries, record the new key set, and
        // adjust the omitted set.
        let new_keys = dedup_emitted_keys(mappings);
        let was_empty = mappings.len() == 0;
        self.entries = staged;
        self.document_map.set_keys(doc_id, new_keys);
        if was_empty {
            self.omitted.insert(doc_id);
        } else {
            self.omitted.remove(doc_id);
        }
        proof {
            self.lemma_commit_wf(s0, doc_id, ems, unique, old(self).document_map);
        }
        Ok(())
    }

    /// Subtracts every contribution of a deleted document: its mappings
    /// leave their entries (an entry left empty is removed), and the
    /// document leaves the document-map and the omitted set. The call is
    /// atomic: on an error from the reduce function the state is unchanged.
    pub fn remove_contributions<S: Schema>(
        &mut self,
        logic: &S,
        view_name: &ViewName,
        unique: bool,
        has_reduce: bool,
        doc_id: u64,
    ) -> (r: Result<(), Error>)
        requires
            old(self).wf(unique),
        ensures
            final(self).wf(unique),
            final(self).stored_version == old(self).stored_version,
            final(self).invalidated@ == old(self).invalidated@,
            r is Ok ==> ViewState::view_unmapped(*old(self), *final(self), doc_id),
            match r {
                Ok(_) => {
                    let s0 = old(self).entries@;
                    &&& forall|k: Seq<u8>|
                        match #[trigger] find_entry(final(self).entries@, k) {
                            Some(e) => e.key == k && e.mappings == drop_source(
                                mappings_at(s0, k),
                                doc_id,
                            ) && e.mappings.len() > 0,
                            None => drop_source(mappings_at(s0, k), doc_id).len() == 0,
                        }
                    &&& forall|k: Seq<u8>|
                        !old(self).spec_touched(doc_id, Seq::empty(), k) ==> #[trigger] find_entry(
                            final(self).entries@,
                            k,
                        ) == find_entry(s0, k)
                    &&& final(self).document_map.spec_get(doc_id) is None
                    &&& forall|x: u64|
                        x != doc_id ==> #[trigger] final(self).document_map.spec_get(x) == old(self).document_map.spec_get(x)
                    &&& forall|x: u64| #[trigger]
                        final(self).omitted@.contains(x) == (old(self).omitted@.contains(x) && x
                            != doc_id)
                },
                Err(_) => *final(self) == *old(self),
            },
    {
        let ghost s0 = self.entries@;
        let old_keys: Option<Vec<Vec<u8>>> = self.document_map.get_keys(doc_id);
        let mut staged = self.entries.duplicate();
        let ghost kv: Seq<Seq<u8>> = match old_keys {
            Some(ref keys) => keys_view(keys@),
            None => Seq::empty(),
        };
        proof {
            if old_keys is Some {
                assert(self.document_map.spec_get(doc_id) == Some(kv));
                assert(distinct_keys(kv));
            }
        }
        match &old_keys {
            Some(keys) => {
                let mut i: usize = 0;
                while i < keys.len()
                    invariant
                        *self == *old(self),
                        old(self).wf(unique),
                        0 <= i <= keys@.len(),
                        kv == keys_view(keys@),
                        kv.len() == keys@.len(),
                        distinct_keys(kv),
                        staged.wf(),
                        forall|k: Seq<u8>|
                            (exists|j: int| 0 <= j < i && (#[trigger] kv[j]) == k) ==> match
                                #[trigger] find_entry(staged@, k) {
                                Some(e) => e.key == k && e.mappings == drop_source(
                                    mappings_at(s0, k),
                                    doc_id,
                                ) && e.mappings.len() > 0,
                                None => drop_source(mappings_at(s0, k), doc_id).len() == 0,
                            },
                        forall|k: Seq<u8>|
                            !(exists|j: int| 0 <= j < i && (#[trigger] kv[j]) == k)
                                ==> #[trigger] find_entry(staged@, k) == find_entry(s0, k),
                    decreases keys@.len() - i,
                {
                    proof {
                        assert(kv[i as int] == keys@[i as int]@);
                        assert(!(exists|j: int| 0 <= j < i && (#[trigger] kv[j]) == kv[i as int]));
                    }
                    let ghost staged_before = staged@;
                    match strip_key(logic, view_name, has_reduce, &mut staged, doc_id, &keys[i]) {
                        Ok(_) => {},
                        Err(e) => {
                            return Err(e);
                        },
                    }
                    proof {
                        let ki = kv[i as int];
                        assert(find_entry(staged_before, ki) == find_entry(s0, ki));
                        assert(mappings_at(staged_before, ki) == mappings_at(s0, ki));
                        assert forall|k: Seq<u8>| #![trigger find_entry(staged@, k)]
                            (exists|j: int| 0 <= j < i + 1 && (#[trigger] kv[j]) == k) implies match
                            find_entry(staged@, k) {
                            Some(e) => e.key == k && e.mappings == drop_source(
                                mappings_at(s0, k),
                                doc_id,
                            ) && e.mappings.len() > 0,
                            None => drop_source(mappings_at(s0, k), doc_id).len() == 0,
                        } by {
                            let j = choose|j: int| 0 <= j < i + 1 && (#[trigger] kv[j]) == k;
                            if j < i {
                                assert(k != ki);
                                assert(find_entry(staged@, k) == find_entry(staged_before, k));
                            }
                        }
                        assert forall|k: Seq<u8>| #![trigger find_entry(staged@, k)]
                            !(exists|j: int| 0 <= j < i + 1 && (#[trigger] kv[j]) == k) implies
                            find_entry(staged@, k) == find_entry(s0, k) by {
                            assert(k != ki);
                            assert(!(exists|j: int| 0 <= j < i && (#[trigger] kv[j]) == k));
                        }
                    }
                    i += 1;
                }
            },
            None => {},
        }
        proof {
            assert forall|k: Seq<u8>| !kv.contains(k) implies !has_source(
                mappings_at(s0, k),
                doc_id,
            ) by {
                if has_source(mappings_at(s0, k), doc_id) {
                    let i = choose|i: int|
                        0 <= i < mappings_at(s0, k).len() && (#[trigger] mappings_at(
                            s0,
                            k,
                        )[i].source) == doc_id;
                    assert(match self.document_map.spec_get(mappings_at(s0, k)[i].source) {
                        Some(ks) => ks.contains(k),
                        None => false,
                    });
                }
            }
            assert forall|k: Seq<u8>| match #[trigger] find_entry(staged@, k) {
                Some(e) => e.key == k && e.mappings == drop_source(mappings_at(s0, k), doc_id)
                    && e.mappings.len() > 0,
                None => drop_source(mappings_at(s0, k), doc_id).len() == 0,
            } by {
                if !kv.contains(k) {
                    assert(find_entry(staged@, k) == find_entry(s0, k));
                    lemma_drop_source_noop(mappings_at(s0, k), doc_id);
                    match find_entry(s0, k) {
                        Some(e) => {
                            assert(e.mappings == mappings_at(s0, k));
                        },
                        None => {
                            assert(mappings_at(s0, k) =~= Seq::<MappingV>::empty());
                            assert(drop_source(mappings_at(s0, k), doc_id).len() == 0);
                        },
                    }
                } else {
                    let j = choose|j: int| 0 <= j < kv.len() && kv[j] == k;
                }
            }
        }
        self.entries = staged;
        self.document_map.remove(doc_id);
        self.omitted.remove(doc_id);
        proof {
            let ghost ems: Seq<(Seq<u8>, Seq<u8>)> = Seq::empty();
            assert forall|k: Seq<u8>| match #[trigger] find_entry(self.entries@, k) {
                Some(e) => e.key == k && e.mappings == target_mappings(s0, doc_id, ems, k)
                    && e.mappings.len() > 0,
                None => target_mappings(s0, doc_id, ems, k).len() == 0,
            } by {
                assert(target_mappings(s0, doc_id, ems, k) =~= drop_source(
                    mappings_at(s0, k),
                    doc_id,
                ));
            }
            self.lemma_commit_wf(s0, doc_id, ems, unique, old(self).document_map);
        }
        Ok(())
    }

    /// Re-establishes the view invariant after a commit, from the pointwise
    /// shape of the new entries and the updated document-map.
    proof fn lemma_commit_wf(
        &self,
        s0: Seq<EntryV>,
        doc_id: u64,
        ems: Seq<(Seq<u8>, Seq<u8>)>,
        unique: bool,
        old_map: DocMap,
    )
        requires
            self.entries.wf(),
            self.document_map.wf(),
            self.invalidated.wf(),
            self.omitted.wf(),
            old_map.wf(),
            // the old state was well-formed
            forall|k: Seq<u8>, i: int|
                0 <= i < mappings_at(s0, k).len() ==> (match old_map.spec_get(
                    #[trigger] mappings_at(s0, k)[i].source,
                ) {
                    Some(ks) => ks.contains(k),
                    None => false,
                }),
            forall|id: u64| #[trigger] old_map.spec_get(id) matches Some(ks) ==> distinct_keys(ks),
            unique ==> forall|k: Seq<u8>|
                #[trigger] find_entry(s0, k) matches Some(e) ==> same_source(e.mappings),
            forall|k: Seq<u8>| #[trigger]
                find_entry(s0, k) matches Some(e) ==> e.key == k && e.mappings.len() > 0,
            // the new entries have the target shape
            forall|k: Seq<u8>| match #[trigger] find_entry(self.entries@, k) {
                Some(e) => e.key == k && e.mappings == target_mappings(s0, doc_id, ems, k)
                    && e.mappings.len() > 0,
                None => target_mappings(s0, doc_id, ems, k).len() == 0,
            },
            // the document-map was updated for this document alone
            match self.document_map.spec_get(doc_id) {
                Some(ks) => distinct_keys(ks) && forall|key: Seq<u8>| #[trigger]
                    ks.contains(key) == ems_has_key(ems, key),
                None => forall|key: Seq<u8>| !(#[trigger] ems_has_key(ems, key)),
            },
            forall|x: u64|
                x != doc_id ==> #[trigger] self.document_map.spec_get(x) == old_map.spec_get(x),
            // a unique view saw no foreign source under any emitted key
            unique ==> forall|k: Seq<u8>|
                ems_has_key(ems, k) ==> !has_other_source(#[trigger] mappings_at(s0, k), doc_id),
        ensures
            self.wf(unique),
    {
        assert forall|k: Seq<u8>, i: int|
            0 <= i < mappings_at(self.entries@, k).len() implies (
        match self.document_map.spec_get(#[trigger] mappings_at(self.entries@, k)[i].source) {
            Some(ks) => ks.contains(k),
            None => false,
        }) by {
            let tm = target_mappings(s0, doc_id, ems, k);
            assert(mappings_at(self.entries@, k) == tm);
            let m = tm[i];
            let d = drop_source(mappings_at(s0, k), doc_id);
            let a = added_for(ems, doc_id, k);
            lemma_drop_source_membership(mappings_at(s0, k), doc_id);
            lemma_added_for_membership(ems, doc_id, k);
            if i < d.len() {
                assert(m == d[i]);
                assert(m.source != doc_id);
                assert(mappings_at(s0, k).contains(m));
                let j = choose|j: int|
                    0 <= j < mappings_at(s0, k).len() && mappings_at(s0, k)[j] == m;
                assert(match old_map.spec_get(mappings_at(s0, k)[j].source) {
                    Some(ks) => ks.contains(k),
                    None => false,
                });
            } else {
                assert(m == a[i - d.len()]);
                assert(m.source == doc_id);
                assert(a.len() > 0);
                assert(ems_has_key(ems, k));
            }
        }
        if unique {
            assert forall|k: Seq<u8>|
                (#[trigger] find_entry(self.entries@, k) matches Some(e) ==> same_source(
                    e.mappings,
                )) by {
                if find_entry(self.entries@, k) is Some {
                    let e = find_entry(self.entries@, k).unwrap();
                    let tm = target_mappings(s0, doc_id, ems, k);
                    assert(e.mappings == tm);
                    let d = drop_source(mappings_at(s0, k), doc_id);
                    let a = added_for(ems, doc_id, k);
                    lemma_drop_source_membership(mappings_at(s0, k), doc_id);
                    lemma_added_for_membership(ems, doc_id, k);
                    if ems_has_key(ems, k) {
                        assert(!has_other_source(mappings_at(s0, k), doc_id));
                        assert(d.len() == 0) by {
                            if d.len() > 0 {
                                assert(d[0].source != doc_id);
                                assert(mappings_at(s0, k).contains(d[0]));
                                let j = choose|j: int|
                                    0 <= j < mappings_at(s0, k).len() && mappings_at(s0, k)[j]
                                        == d[0];
                                assert(has_other_source(mappings_at(s0, k), doc_id));
                            }
                        }
                        assert forall|x: int, y: int|
                            0 <= x < tm.len() && 0 <= y < tm.len() implies (
                        #[trigger] tm[x].source) == (#[trigger] tm[y].source) by {
                            assert(tm[x] == a[x - d.len()]);
                            assert(tm[y] == a[y - d.len()]);
                        }
                    } else {
                        assert(a.len() == 0);
                        assert(tm =~= d);
                        let ms0 = mappings_at(s0, k);
                        assert(same_source(ms0)) by {
                            if ms0.len() > 0 {
                                assert(find_entry(s0, k) matches Some(e0) && e0.mappings == ms0);
                            }
                        }
                        assert forall|x: int, y: int|
                            0 <= x < tm.len() && 0 <= y < tm.len() implies (
                        #[trigger] tm[x].source) == (#[trigger] tm[y].source) by {
                            assert(ms0.contains(tm[x]));
                            assert(ms0.contains(tm[y]));
                            let jx = choose|j: int| 0 <= j < ms0.len() && ms0[j] == tm[x];
                            let jy = choose|j: int| 0 <= j < ms0.len() && ms0[j] == tm[y];
                            assert(ms0[jx].source == ms0[jy].source);
                        }
                    }
                }
            }
        }
    }
}

} // verus!
