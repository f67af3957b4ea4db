//! Big-endian integer encodings and length-prefixed byte framing.
//!
//! Document ids and transaction ids are stored as 8-byte big-endian keys, and
//! the document codec frames variable-length fields with an 8-byte big-endian
//! length. Big-endian order is chosen so that the numeric order of ids agrees
//! with the lexicographic order of their encodings.

use vstd::prelude::*;

use crate::byteorder::lex_lt;

verus! {

/// The 8-byte big-endian encoding of a 64-bit integer.
pub open spec fn u64_be(n: u64) -> Seq<u8> {
    seq![
        ((n >> 56) & 0xff) as u8,
        ((n >> 48) & 0xff) as u8,
        ((n >> 40) & 0xff) as u8,
        ((n >> 32) & 0xff) as u8,
        ((n >> 24) & 0xff) as u8,
        ((n >> 16) & 0xff) as u8,
        ((n >> 8) & 0xff) as u8,
        (n & 0xff) as u8,
    ]
}

/// The 64-bit integer read from 8 big-endian bytes.
pub open spec fn u64_of_be(s: Seq<u8>) -> u64
    recommends
        s.len() == 8,
{
    (((s[0] as u64) << 56) | ((s[1] as u64) << 48) | ((s[2] as u64) << 40) | ((s[3] as u64) << 32)
        | ((s[4] as u64) << 24) | ((s[5] as u64) << 16) | ((s[6] as u64) << 8) | (s[7] as u64)) as u64
}

/// The 4-byte big-endian encoding of a 32-bit integer.
pub open spec fn u32_be(n: u32) -> Seq<u8> {
    seq![
        ((n >> 24) & 0xff) as u8,
        ((n >> 16) & 0xff) as u8,
        ((n >> 8) & 0xff) as u8,
        (n & 0xff) as u8,
    ]
}

/// The 32-bit integer read from 4 big-endian bytes.
pub open spec fn u32_of_be(s: Seq<u8>) -> u32
    recommends
        s.len() == 4,
{
    (((s[0] as u32) << 24) | ((s[1] as u32) << 16) | ((s[2] as u32) << 8) | (s[3] as u32)) as u32
}

/// Reading back an encoded 64-bit integer yields the integer.
pub proof fn lemma_u64_be_round_trip(n: u64)
    ensures
        u64_of_be(u64_be(n)) == n,
{
    assert((((((((n >> 56) & 0xff) as u8) as u64) << 56) | (((((n >> 48) & 0xff) as u8) as u64)
        << 48) | (((((n >> 40) & 0xff) as u8) as u64) << 40) | (((((n >> 32) & 0xff) as u8) as u64)
        << 32) | (((((n >> 24) & 0xff) as u8) as u64) << 24) | (((((n >> 16) & 0xff) as u8) as u64)
        << 16) | (((((n >> 8) & 0xff) as u8) as u64) << 8) | (((n & 0xff) as u8) as u64)) as u64)
        == n) by (bit_vector);
}

/// Reading back an encoded 32-bit integer yields the integer.
pub proof fn lemma_u32_be_round_trip(n: u32)
    ensures
        u32_of_be(u32_be(n)) == n,
{
    assert((((((((n >> 24) & 0xff) as u8) as u32) << 24) | (((((n >> 16) & 0xff) as u8) as u32)
        << 16) | (((((n >> 8) & 0xff) as u8) as u32) << 8) | (((n & 0xff) as u8) as u32)) as u32)
        == n) by (bit_vector);
}

/// Once the first `k` bytes of the two encodings agree, the remaining
/// comparison decides; used to step the scan in `lemma_u64_be_lt`.
proof fn lemma_lex_lt_at(a: Seq<u8>, b: Seq<u8>, k: int)
    requires
        0 <= k < a.len(),
        k < b.len(),
        forall|j: int| 0 <= j < k ==> a[j] == b[j],
        a[k] < b[k],
    ensures
        lex_lt(a, b),
{
    crate::byteorder::lemma_lex_skip(a, b, k);
    assert(a.skip(k)[0] == a[k]);
    assert(b.skip(k)[0] == b[k]);
}

/// For `lo < hi`, the encoding of `lo` comes lexicographically first.
proof fn lemma_u64_be_lt(lo: u64, hi: u64)
    requires
        lo < hi,
    ensures
        lex_lt(u64_be(lo), u64_be(hi)),
{
    let a = u64_be(lo);
    let b = u64_be(hi);
    if a[0] != b[0] {
        assert(((((lo >> 56) & 0xff)) as u8) < ((((hi >> 56) & 0xff)) as u8)) by (bit_vector)
            requires
                lo < hi,
                ((((lo >> 56) & 0xff)) as u8) != ((((hi >> 56) & 0xff)) as u8),
        ;
        lemma_lex_lt_at(a, b, 0);
    } else if a[1] != b[1] {
        assert(((((lo >> 48) & 0xff)) as u8) < ((((hi >> 48) & 0xff)) as u8)) by (bit_vector)
            requires
                lo < hi,
                ((((lo >> 56) & 0xff)) as u8) == ((((hi >> 56) & 0xff)) as u8),
                ((((lo >> 48) & 0xff)) as u8) != ((((hi >> 48) & 0xff)) as u8),
        ;
        lemma_lex_lt_at(a, b, 1);
    } else if a[2] != b[2] {
        assert(((((lo >> 40) & 0xff)) as u8) < ((((hi >> 40) & 0xff)) as u8)) by (bit_vector)
            requires
                lo < hi,
                ((((lo >> 56) & 0xff)) as u8) == ((((hi >> 56) & 0xff)) as u8),
                ((((lo >> 48) & 0xff)) as u8) == ((((hi >> 48) & 0xff)) as u8),
                ((((lo >> 40) & 0xff)) as u8) != ((((hi >> 40) & 0xff)) as u8),
        ;
        lemma_lex_lt_at(a, b, 2);
    } else if a[3] != b[3] {
        assert(((((lo >> 32) & 0xff)) as u8) < ((((hi >> 32) & 0xff)) as u8)) by (bit_vector)
            requires
                lo < hi,
                ((((lo >> 56) & 0xff)) as u8) == ((((hi >> 56) & 0xff)) as u8),
                ((((lo >> 48) & 0xff)) as u8) == ((((hi >> 48) & 0xff)) as u8),
                ((((lo >> 40) & 0xff)) as u8) == ((((hi >> 40) & 0xff)) as u8),
                ((((lo >> 32) & 0xff)) as u8) != ((((hi >> 32) & 0xff)) as u8),
        ;
        lemma_lex_lt_at(a, b, 3);
    } else if a[4] != b[4] {
        assert(((((lo >> 24) & 0xff)) as u8) < ((((hi >> 24) & 0xff)) as u8)) by (bit_vector)
            requires
                lo < hi,
                ((((lo >> 56) & 0xff)) as u8) == ((((hi >> 56) & 0xff)) as u8),
                ((((lo >> 48) & 0xff)) as u8) == ((((hi >> 48) & 0xff)) as u8),
                ((((lo >> 40) & 0xff)) as u8) == ((((hi >> 40) & 0xff)) as u8),
                ((((lo >> 32) & 0xff)) as u8) == ((((hi >> 32) & 0xff)) as u8),
                ((((lo >> 24) & 0xff)) as u8) != ((((hi >> 24) & 0xff)) as u8),
        ;
        lemma_lex_lt_at(a, b, 4);
    } else if a[5] != b[5] {
        assert(((((lo >> 16) & 0xff)) as u8) < ((((hi >> 16) & 0xff)) as u8)) by (bit_vector)
            requires
                lo < hi,
                ((((lo >> 56) & 0xff)) as u8) == ((((hi >> 56) & 0xff)) as u8),
                ((((lo >> 48) & 0xff)) as u8) == ((((hi >> 48) & 0xff)) as u8),
                ((((lo >> 40) & 0xff)) as u8) == ((((hi >> 40) & 0xff)) as u8),
                ((((lo >> 32) & 0xff)) as u8) == ((((hi >> 32) & 0xff)) as u8),
                ((((lo >> 24) & 0xff)) as u8) == ((((hi >> 24) & 0xff)) as u8),
                ((((lo >> 16) & 0xff)) as u8) != ((((hi >> 16) & 0xff)) as u8),
        ;
        lemma_lex_lt_at(a, b, 5);
    } else if a[6] != b[6] {
        assert(((((lo >> 8) & 0xff)) as u8) < ((((hi >> 8) & 0xff)) as u8)) by (bit_vector)
            requires
                lo < hi,
                ((((lo >> 56) & 0xff)) as u8) == ((((hi >> 56) & 0xff)) as u8),
                ((((lo >> 48) & 0xff)) as u8) == ((((hi >> 48) & 0xff)) as u8),
                ((((lo >> 40) & 0xff)) as u8) == ((((hi >> 40) & 0xff)) as u8),
                ((((lo >> 32) & 0xff)) as u8) == ((((hi >> 32) & 0xff)) as u8),
                ((((lo >> 24) & 0xff)) as u8) == ((((hi >> 24) & 0xff)) as u8),
                ((((lo >> 16) & 0xff)) as u8) == ((((hi >> 16) & 0xff)) as u8),
                ((((lo >> 8) & 0xff)) as u8) != ((((hi >> 8) & 0xff)) as u8),
        ;
        lemma_lex_lt_at(a, b, 6);
    } else {
        assert((((lo & 0xff)) as u8) < (((hi & 0xff)) as u8)) by (bit_vector)
            requires
                lo < hi,
                ((((lo >> 56) & 0xff)) as u8) == ((((hi >> 56) & 0xff)) as u8),
                ((((lo >> 48) & 0xff)) as u8) == ((((hi >> 48) & 0xff)) as u8),
                ((((lo >> 40) & 0xff)) as u8) == ((((hi >> 40) & 0xff)) as u8),
                ((((lo >> 32) & 0xff)) as u8) == ((((hi >> 32) & 0xff)) as u8),
                ((((lo >> 24) & 0xff)) as u8) == ((((hi >> 24) & 0xff)) as u8),
                ((((lo >> 16) & 0xff)) as u8) == ((((hi >> 16) & 0xff)) as u8),
                ((((lo >> 8) & 0xff)) as u8) == ((((hi >> 8) & 0xff)) as u8),
        ;
        lemma_lex_lt_at(a, b, 7);
    }
}

/// The big-endian encoding preserves the order of 64-bit integers: numeric
/// order of ids and lexicographic order of their key bytes agree.
pub proof fn lemma_u64_be_order(a: u64, b: u64)
    ensures
        (a < b) == lex_lt(u64_be(a), u64_be(b)),
{
    if a == b {
        crate::byteorder::lemma_lex_irreflexive(u64_be(a));
        assert(u64_be(a) =~= u64_be(b));
    } else if a < b {
        lemma_u64_be_lt(a, b);
    } else {
        lemma_u64_be_lt(b, a);
        crate::byteorder::lemma_lex_asymmetric(u64_be(b), u64_be(a));
    }
}

/// Appends the 8-byte big-endian encoding of `n`.
pub fn encode_u64(out: &mut Vec<u8>, n: u64)
    ensures
        final(out)@ == old(out)@ + u64_be(n),
{
    out.push(((n >> 56) & 0xff) as u8);
    out.push(((n >> 48) & 0xff) as u8);
    out.push(((n >> 40) & 0xff) as u8);
    out.push(((n >> 32) & 0xff) as u8);
    out.push(((n >> 24) & 0xff) as u8);
    out.push(((n >> 16) & 0xff) as u8);
    out.push(((n >> 8) & 0xff) as u8);
    out.push((n & 0xff) as u8);
    proof {
        assert(out@ =~= old(out)@ + u64_be(n));
    }
}

/// Appends the 4-byte big-endian encoding of `n`.
pub fn encode_u32(out: &mut Vec<u8>, n: u32)
    ensures
        final(out)@ == old(out)@ + u32_be(n),
{
    out.push(((n >> 24) & 0xff) as u8);
    out.push(((n >> 16) & 0xff) as u8);
    out.push(((n >> 8) & 0xff) as u8);
    out.push((n & 0xff) as u8);
    proof {
        assert(out@ =~= old(out)@ + u32_be(n));
    }
}

/// Reads the 8-byte big-endian integer at `pos`.
pub fn read_u64(s: &Vec<u8>, pos: usize) -> (r: u64)
    requires
        pos + 8 <= s@.len(),
    ensures
        r == u64_of_be(s@.subrange(pos as int, pos as int + 8)),
{
    let _len: usize = s.len();
    let r = ((s[pos] as u64) << 56) | ((s[pos + 1] as u64) << 48) | ((s[pos + 2] as u64) << 40) | ((
    s[pos + 3] as u64) << 32) | ((s[pos + 4] as u64) << 24) | ((s[pos + 5] as u64) << 16) | ((s[pos
        + 6] as u64) << 8) | (s[pos + 7] as u64);
    proof {
        let sub = s@.subrange(pos as int, pos as int + 8);
        assert(sub[0] == s@[pos as int] && sub[1] == s@[pos as int + 1] && sub[2] == s@[pos as int
            + 2] && sub[3] == s@[pos as int + 3] && sub[4] == s@[pos as int + 4] && sub[5]
            == s@[pos as int + 5] && sub[6] == s@[pos as int + 6] && sub[7] == s@[pos as int + 7]);
    }
    r
}

/// Reads the 4-byte big-endian integer at `pos`.
pub fn read_u32(s: &Vec<u8>, pos: usize) -> (r: u32)
    requires
        pos + 4 <= s@.len(),
    ensures
        r == u32_of_be(s@.subrange(pos as int, pos as int + 4)),
{
    let _len: usize = s.len();
    let r = ((s[pos] as u32) << 24) | ((s[pos + 1] as u32) << 16) | ((s[pos + 2] as u32) << 8) | (
    s[pos + 3] as u32);
    proof {
        let sub = s@.subrange(pos as int, pos as int + 4);
        assert(sub[0] == s@[pos as int] && sub[1] == s@[pos as int + 1] && sub[2] == s@[pos as int
            + 2] && sub[3] == s@[pos as int + 3]);
    }
    r
}

/// Encodes a 64-bit id as its 8-byte big-endian storage key.
pub fn id_key(id: u64) -> (r: Vec<u8>)
    ensures
        r@ == u64_be(id),
{
    let mut out: Vec<u8> = Vec::new();
    encode_u64(&mut out, id);
    out
}

} // verus!
