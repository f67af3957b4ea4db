//! The vault: envelope framing for stored payloads, key resolution order, and
//! permission checks on decryption.
//!
//! An envelope records which key id a payload was sealed under so that keys
//! can rotate. Decryption is refused with `Unauthorized` when the caller's
//! effective permissions do not cover the recorded key id.

use vstd::prelude::*;

use crate::byteorder::{bytes_clone, bytes_eq, bytes_range};
use crate::codec::{read_u64, u64_be, u64_of_be, encode_u64, lemma_u64_be_round_trip};
use crate::error::Error;

verus! {

/// The effective rights a caller holds: either unrestricted, or restricted to
/// a list of encryption key ids it may use.
#[derive(Debug)]
pub struct Permissions {
    pub allowed_key_ids: Option<Vec<Vec<u8>>>,
}

/// The views of a list of byte strings.
pub open spec fn key_list_view(list: Seq<Vec<u8>>) -> Seq<Seq<u8>> {
    list.map_values(|k: Vec<u8>| k@)
}

impl View for Permissions {
    type V = Option<Seq<Seq<u8>>>;

    open spec fn view(&self) -> Self::V {
        match self.allowed_key_ids {
            Some(ref list) => Some(key_list_view(list@)),
            None => None,
        }
    }
}

impl Permissions {
    /// Whether these permissions cover `key`.
    pub open spec fn spec_allows(&self, key: Seq<u8>) -> bool {
        match self.allowed_key_ids {
            Some(list) => exists|i: int| 0 <= i < list@.len() && (#[trigger] list@[i]@) == key,
            None => true,
        }
    }

    /// Checks whether these permissions cover `key`.
    pub fn allows(&self, key: &Vec<u8>) -> (r: bool)
        ensures
            r == self.spec_allows(key@),
    {
        match &self.allowed_key_ids {
            None => true,
            Some(list) => {
                let mut i: usize = 0;
                while i < list.len()
                    invariant
                        self.allowed_key_ids matches Some(l) && l@ == list@,
                        0 <= i <= list@.len(),
                        forall|j: int| 0 <= j < i ==> (#[trigger] list@[j]@) != key@,
                    decreases list@.len() - i,
                {
                    if bytes_eq(&list[i], key) {
                        return true;
                    }
                    i += 1;
                }
                false
            },
        }
    }
}

impl Clone for Permissions {
    fn clone(&self) -> (r: Self)
        ensures
            r@ == self@,
    {
        let allowed_key_ids = match &self.allowed_key_ids {
            None => None,
            Some(list) => Some(crate::byteorder::bytes_list_clone(list)),
        };
        let r = Permissions { allowed_key_ids };
        proof {
            assert(r@ =~~= self@);
        }
        r
    }
}

/// Whether an optional permission set covers `key`; absent permissions mean
/// an internal caller with full rights.
pub open spec fn perms_allow(perms: &Option<Permissions>, key: Seq<u8>) -> bool {
    match perms {
        Some(p) => p.spec_allows(key),
        None => true,
    }
}

/// Checks whether an optional permission set covers `key`.
pub fn check_perms_allow(perms: &Option<Permissions>, key: &Vec<u8>) -> (r: bool)
    ensures
        r == perms_allow(perms, key@),
{
    match perms {
        Some(p) => p.allows(key),
        None => true,
    }
}

/// The envelope a payload is sealed into under a key id.
pub open spec fn envelope(key: Seq<u8>, payload: Seq<u8>) -> Seq<u8> {
    seq![1u8] + u64_be(key.len() as u64) + key + payload
}

/// Parses an envelope back into its key id and payload.
pub open spec fn parse_envelope(s: Seq<u8>) -> Option<(Seq<u8>, Seq<u8>)> {
    if s.len() < 9 || s[0] != 1u8 {
        None
    } else {
        let klen = u64_of_be(s.subrange(1, 9)) as int;
        if 9 + klen > s.len() {
            None
        } else {
            Some((s.subrange(9, 9 + klen), s.subrange(9 + klen, s.len() as int)))
        }
    }
}

/// Sealing and parsing are inverse.
pub proof fn lemma_envelope_round_trip(key: Seq<u8>, payload: Seq<u8>)
    requires
        key.len() <= u64::MAX,
    ensures
        parse_envelope(envelope(key, payload)) == Some((key, payload)),
{
    let s = envelope(key, payload);
    lemma_u64_be_round_trip(key.len() as u64);
    assert(s.subrange(1, 9) =~= u64_be(key.len() as u64));
    assert(s.subrange(9, 9 + key.len() as int) =~= key);
    assert(s.subrange(9 + key.len() as int, s.len() as int) =~= payload);
}

/// The vault capability. This vault stores payloads framed but unciphered;
/// it still records key ids and enforces permissions, so every key
/// resolution and authorization path behaves as with a real keyring.
#[derive(Debug)]
pub struct Vault {}

impl Vault {
    /// Creates the vault.
    pub fn new() -> (r: Self) {
        Vault {}
    }

    /// Seals `payload` under `key_id` for a caller holding `permissions`.
    pub fn encrypt_payload(
        &self,
        key_id: &Vec<u8>,
        payload: &Vec<u8>,
        permissions: &Option<Permissions>,
    ) -> (r: Result<Vec<u8>, Error>)
        ensures
            match r {
                Ok(sealed) => perms_allow(permissions, key_id@) && sealed@ == envelope(
                    key_id@,
                    payload@,
                ),
                Err(e) => !perms_allow(permissions, key_id@) && e is Unauthorized,
            },
    {
        if !check_perms_allow(permissions, key_id) {
            return Err(Error::Unauthorized);
        }
        let mut out: Vec<u8> = Vec::new();
        out.push(1u8);
        encode_u64(&mut out, key_id.len() as u64);
        let mut i: usize = 0;
        while i < key_id.len()
            invariant
                0 <= i <= key_id@.len(),
                out@ =~= seq![1u8] + u64_be(key_id@.len() as u64) + key_id@.subrange(0, i as int),
            decreases key_id@.len() - i,
        {
            out.push(key_id[i]);
            proof {
                assert(out@ =~= seq![1u8] + u64_be(key_id@.len() as u64) + key_id@.subrange(
                    0,
                    i + 1 as int,
                ));
            }
            i += 1;
        }
        let mut j: usize = 0;
        while j < payload.len()
            invariant
                0 <= j <= payload@.len(),
                out@ =~= seq![1u8] + u64_be(key_id@.len() as u64) + key_id@ + payload@.subrange(
                    0,
                    j as int,
                ),
            decreases payload@.len() - j,
        {
            out.push(payload[j]);
            proof {
                assert(out@ =~= seq![1u8] + u64_be(key_id@.len() as u64) + key_id@
                    + payload@.subrange(0, j + 1 as int));
            }
            j += 1;
        }
        proof {
            assert(key_id@.subrange(0, key_id@.len() as int) =~= key_id@);
            assert(payload@.subrange(0, payload@.len() as int) =~= payload@);
            assert(out@ =~= envelope(key_id@, payload@));
        }
        Ok(out)
    }

    /// Opens an envelope for a caller holding `permissions`. Fails with
    /// `Unauthorized` when the permissions do not cover the recorded key id,
    /// and with `Serialization` when the bytes are not an envelope.
    pub fn decrypt_payload(&self, bytes: &Vec<u8>, permissions: &Option<Permissions>) -> (r: Result<
        Vec<u8>,
        Error,
    >)
        ensures
            match r {
                Ok(payload) => (parse_envelope(bytes@) matches Some(pair) && payload@ == pair.1
                    && perms_allow(permissions, pair.0)),
                Err(e) => match parse_envelope(bytes@) {
                    Some(pair) => !perms_allow(permissions, pair.0) && e is Unauthorized,
                    None => e is Serialization,
                },
            },
    {
        let n: usize = bytes.len();
        if n < 9 || bytes[0] != 1u8 {
            return Err(Error::Serialization("not a vault envelope".to_owned()));
        }
        let klen_raw = read_u64(bytes, 1);
        if klen_raw > (n - 9) as u64 {
            return Err(Error::Serialization("vault envelope is truncated".to_owned()));
        }
        let klen: usize = klen_raw as usize;
        let key_id = bytes_range(bytes, 9, 9 + klen);
        if !check_perms_allow(permissions, &key_id) {
            return Err(Error::Unauthorized);
        }
        let payload = bytes_range(bytes, 9 + klen, n);
        Ok(payload)
    }
}

} // verus!
