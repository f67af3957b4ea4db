//! The administrative registry: the collection of databases hosted by a
//! server, indexed by a unique by-name view over the case-folded name, so
//! that database names compare case-insensitively.

use vstd::prelude::*;

use crate::codec::{encode_u64, read_u64, u64_be, u64_of_be, lemma_u64_be_round_trip};
use crate::byteorder::bytes_range;
use crate::document::Document;
use crate::error::Error;
use crate::schema::{
    CollectionDescriptor, CollectionName, EmittedMapping, Schema, Schematic, ViewDescriptor,
    ViewName,
};

verus! {

/// The lower-case form of an ASCII byte.
pub open spec fn spec_lower_byte(b: u8) -> u8 {
    if 0x41 <= b <= 0x5a {
        (b + 0x20) as u8
    } else {
        b
    }
}

/// The case-folded form of a byte string.
pub open spec fn spec_lowercase(s: Seq<u8>) -> Seq<u8> {
    s.map_values(|b: u8| spec_lower_byte(b))
}

/// Folds ASCII letters to lower case, so that names differing only in case
/// collide in the by-name view.
pub fn ascii_lowercase(s: &Vec<u8>) -> (r: Vec<u8>)
    ensures
        r@ == spec_lowercase(s@),
{
    let mut r: Vec<u8> = Vec::new();
    let mut i: usize = 0;
    while i < s.len()
        invariant
            0 <= i <= s@.len(),
            r@.len() == i,
            forall|j: int| 0 <= j < i ==> (#[trigger] r@[j]) == spec_lower_byte(s@[j]),
        decreases s@.len() - i,
    {
        let b = s[i];
        if 0x41u8 <= b && b <= 0x5au8 {
            r.push(b + 0x20);
        } else {
            r.push(b);
        }
        i += 1;
    }
    proof {
        assert(r@ =~= spec_lowercase(s@));
    }
    r
}

/// The record stored for one hosted database: its name, then the name of
/// the schema it was created under, framed by the name's length.
pub open spec fn spec_database_record(name: Seq<u8>, schema: Seq<u8>) -> Seq<u8> {
    u64_be(name.len() as u64) + name + schema
}

/// Parses a database record back into its name and schema.
pub open spec fn spec_parse_database_record(s: Seq<u8>) -> Option<(Seq<u8>, Seq<u8>)> {
    if s.len() < 8 {
        None
    } else {
        let nlen = u64_of_be(s.subrange(0, 8)) as int;
        if 8 + nlen > s.len() {
            None
        } else {
            Some((s.subrange(8, 8 + nlen), s.subrange(8 + nlen, s.len() as int)))
        }
    }
}

/// Encoding and parsing a database record are inverse.
pub proof fn lemma_database_record_round_trip(name: Seq<u8>, schema: Seq<u8>)
    requires
        name.len() <= u64::MAX,
    ensures
        spec_parse_database_record(spec_database_record(name, schema)) == Some((name, schema)),
{
    let s = spec_database_record(name, schema);
    lemma_u64_be_round_trip(name.len() as u64);
    assert(s.subrange(0, 8) =~= u64_be(name.len() as u64));
    assert(s.subrange(8, 8 + name.len() as int) =~= name);
    assert(s.subrange(8 + name.len() as int, s.len() as int) =~= schema);
}

/// Encodes the record of a hosted database.
pub fn encode_database_record(name: &Vec<u8>, schema: &Vec<u8>) -> (r: Vec<u8>)
    ensures
        r@ == spec_database_record(name@, schema@),
{
    let mut out: Vec<u8> = Vec::new();
    encode_u64(&mut out, name.len() as u64);
    let mut i: usize = 0;
    let ghost pre = out@;
    while i < name.len()
        invariant
            0 <= i <= name@.len(),
            out@ =~= pre + name@.subrange(0, i as int),
        decreases name@.len() - i,
    {
        out.push(name[i]);
        proof {
            assert(out@ =~= pre + name@.subrange(0, i + 1 as int));
        }
        i += 1;
    }
    let mut j: usize = 0;
    let ghost pre2 = out@;
    while j < schema.len()
        invariant
            0 <= j <= schema@.len(),
            out@ =~= pre2 + schema@.subrange(0, j as int),
        decreases schema@.len() - j,
    {
        out.push(schema[j]);
        proof {
            assert(out@ =~= pre2 + schema@.subrange(0, j + 1 as int));
        }
        j += 1;
    }
    proof {
        assert(name@.subrange(0, name@.len() as int) =~= name@);
        assert(schema@.subrange(0, schema@.len() as int) =~= schema@);
        assert(out@ =~= spec_database_record(name@, schema@));
    }
    out
}

/// Parses the record of a hosted database.
pub fn decode_database_record(bytes: &Vec<u8>) -> (r: Option<(Vec<u8>, Vec<u8>)>)
    ensures
        match r {
            Some(pair) => spec_parse_database_record(bytes@) == Some((pair.0@, pair.1@)),
            None => spec_parse_database_record(bytes@) is None,
        },
{
    let n: usize = bytes.len();
    if n < 8 {
        return None;
    }
    let nlen_raw = read_u64(bytes, 0);
    if nlen_raw > (n - 8) as u64 {
        return None;
    }
    let nlen: usize = nlen_raw as usize;
    let name = bytes_range(bytes, 8, 8 + nlen);
    let schema = bytes_range(bytes, 8 + nlen, n);
    Some((name, schema))
}

/// The collection that holds one record per hosted database.
pub fn databases_collection() -> (r: CollectionName)
    ensures
        r@ == ("admin"@, "databases"@),
{
    CollectionName::new("admin", "databases")
}

/// The unique view that indexes hosted databases by case-folded name.
pub fn by_name_view() -> (r: ViewName)
    ensures
        r@ == ("admin"@, "by-name"@),
{
    ViewName::new("admin", "by-name")
}

/// The schematic of the administrative registry: the databases collection
/// with its unique by-name view.
pub fn admin_schematic() -> (r: Schematic)
    ensures
        r.wf(),
        r.collections@.len() == 1,
        r.views@.len() == 1,
        r.views@[0].unique,
{
    let r = Schematic {
        collections: vec![
            CollectionDescriptor { name: databases_collection(), encryption_key: None },
        ],
        views: vec![
            ViewDescriptor {
                name: by_name_view(),
                collection: databases_collection(),
                unique: true,
                version: 1,
                has_reduce: false,
                keys_are_encryptable: false,
            },
        ],
    };
    proof {
        assert(r.collections@.len() == 1);
        assert(r.views@.len() == 1);
        assert forall|i: int| 0 <= i < r.views@.len() implies r.view_collection_declared(i) by {
            assert(r.collections@[0].name@ == r.views@[i].collection@);
        }
    }
    r
}

/// The schema logic of the administrative registry: a database record maps
/// to its case-folded name, carrying the schema name as the value, so two
/// names differing only in case cannot both be registered.
pub struct AdminSchema {}

impl Schema for AdminSchema {
    fn map(&self, _view: &ViewName, document: &Document) -> Result<Vec<EmittedMapping>, Error> {
        match decode_database_record(&document.contents) {
            Some(pair) => {
                let mut out: Vec<EmittedMapping> = Vec::new();
                out.push(EmittedMapping { key: ascii_lowercase(&pair.0), value: pair.1 });
                Ok(out)
            },
            None => Err(Error::Serialization("malformed database record".to_owned())),
        }
    }

    fn reduce(
        &self,
        _view: &ViewName,
        _values: &Vec<(Vec<u8>, Vec<u8>)>,
        _rereduce: bool,
    ) -> Result<Vec<u8>, Error> {
        Ok(Vec::new())
    }
}

} // verus!
