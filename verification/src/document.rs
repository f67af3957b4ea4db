//! Documents, headers, and revisions.
//!
//! A revision carries a generation counter and the SHA-256 digest of the
//! contents it was produced from. A new revision is produced only when the
//! new contents differ from the current contents.

use vstd::prelude::*;

use crate::byteorder::{bytes_clone, bytes_eq};

verus! {

/// The SHA-256 digest of a byte string; what `sha2` computes for it.
pub uninterp spec fn digest_of(data: Seq<u8>) -> Seq<u8>;

/// Relies on sha2::Sha256::digest: the 32-byte SHA-256 digest, a function of
/// the input bytes alone.
#[verifier::external_body]
pub fn sha256_digest(data: &Vec<u8>) -> (r: Vec<u8>)
    ensures
        r@ == digest_of(data@),
        r@.len() == 32,
{
    let digest = <sha2::Sha256 as sha2::Digest>::digest(data.as_slice());
    digest.to_vec()
}

/// The version of one document: a generation counter plus the digest of the
/// contents that produced it.
#[derive(Debug)]
pub struct Revision {
    pub generation: u32,
    pub sha256: Vec<u8>,
}

/// The mathematical value of a `Revision`.
#[verifier::ext_equal]
pub struct RevisionV {
    pub generation: u32,
    pub sha256: Seq<u8>,
}

impl View for Revision {
    type V = RevisionV;

    open spec fn view(&self) -> RevisionV {
        RevisionV { generation: self.generation, sha256: self.sha256@ }
    }
}

/// The generation that follows `g`.
pub open spec fn next_generation(g: u32) -> u32 {
    if g == u32::MAX {
        0
    } else {
        (g + 1) as u32
    }
}

impl Revision {
    /// The first revision of a document with the given contents.
    pub open spec fn spec_first(contents: Seq<u8>) -> RevisionV {
        RevisionV { generation: 1, sha256: digest_of(contents) }
    }

    /// Builds the first revision for `contents`.
    pub fn first(contents: &Vec<u8>) -> (r: Self)
        ensures
            r@ == Revision::spec_first(contents@),
            r@.sha256.len() == 32,
    {
        Revision { generation: 1, sha256: sha256_digest(contents) }
    }
}

impl Clone for Revision {
    fn clone(&self) -> (r: Self)
        ensures
            r@ == self@,
    {
        Revision { generation: self.generation, sha256: bytes_clone(&self.sha256) }
    }
}

impl PartialEq for Revision {
    fn eq(&self, other: &Self) -> (r: bool) {
        self.generation == other.generation && bytes_eq(&self.sha256, &other.sha256)
    }
}

impl vstd::std_specs::cmp::PartialEqSpecImpl for Revision {
    open spec fn obeys_eq_spec() -> bool {
        true
    }

    open spec fn eq_spec(&self, other: &Self) -> bool {
        self@ == other@
    }
}

/// The header of a document: its id, revision, and the encryption key id its
/// contents are stored under, if any.
#[derive(Debug)]
pub struct Header {
    pub id: u64,
    pub revision: Revision,
    pub encryption_key: Option<Vec<u8>>,
}

/// The mathematical value of a `Header`.
#[verifier::ext_equal]
pub struct HeaderV {
    pub id: u64,
    pub revision: RevisionV,
    pub encryption_key: Option<Seq<u8>>,
}

impl View for Header {
    type V = HeaderV;

    open spec fn view(&self) -> HeaderV {
        HeaderV {
            id: self.id,
            revision: self.revision@,
            encryption_key: match self.encryption_key {
                Some(ref k) => Some(k@),
                None => None,
            },
        }
    }
}

impl Clone for Header {
    fn clone(&self) -> (r: Self)
        ensures
            r@ == self@,
    {
        Header {
            id: self.id,
            revision: self.revision.clone(),
            encryption_key: match &self.encryption_key {
                Some(k) => Some(bytes_clone(k)),
                None => None,
            },
        }
    }
}

impl PartialEq for Header {
    fn eq(&self, other: &Self) -> (r: bool) {
        let keys_match = match (&self.encryption_key, &other.encryption_key) {
            (Some(a), Some(b)) => bytes_eq(a, b),
            (None, None) => true,
            _ => false,
        };
        self.id == other.id && self.revision == other.revision && keys_match
    }
}

impl vstd::std_specs::cmp::PartialEqSpecImpl for Header {
    open spec fn obeys_eq_spec() -> bool {
        true
    }

    open spec fn eq_spec(&self, other: &Self) -> bool {
        self@ == other@
    }
}

/// A document: a header plus its contents. In memory the contents are either
/// plaintext, or a vault envelope when the header names an encryption key.
#[derive(Debug)]
pub struct Document {
    pub header: Header,
    pub contents: Vec<u8>,
}

/// The mathematical value of a `Document`.
#[verifier::ext_equal]
pub struct DocumentV {
    pub header: HeaderV,
    pub contents: Seq<u8>,
}

impl View for Document {
    type V = DocumentV;

    open spec fn view(&self) -> DocumentV {
        DocumentV { header: self.header@, contents: self.contents@ }
    }
}

impl Clone for Document {
    fn clone(&self) -> (r: Self)
        ensures
            r@ == self@,
    {
        Document { header: self.header.clone(), contents: bytes_clone(&self.contents) }
    }
}

impl Document {
    /// The value of a fresh document with the given id, contents, and key id.
    pub open spec fn spec_new(id: u64, contents: Seq<u8>, key: Option<Seq<u8>>) -> DocumentV {
        DocumentV {
            header: HeaderV {
                id,
                revision: Revision::spec_first(contents),
                encryption_key: key,
            },
            contents,
        }
    }

    /// Creates a document at generation one.
    pub fn new(id: u64, contents: Vec<u8>, encryption_key: Option<Vec<u8>>) -> (r: Self)
        ensures
            r@ == Document::spec_new(
                id,
                contents@,
                match encryption_key {
                    Some(ref k) => Some(k@),
                    None => None,
                },
            ),
            r@.header.revision.sha256.len() == 32,
    {
        let revision = Revision::first(&contents);
        Document { header: Header { id, revision, encryption_key }, contents }
    }

    /// The revision an update to `new_contents` produces, when it produces
    /// one.
    pub open spec fn spec_next_revision(&self, new_contents: Seq<u8>) -> RevisionV {
        RevisionV {
            generation: next_generation(self@.header.revision.generation),
            sha256: digest_of(new_contents),
        }
    }

    /// Produces the next revision of this document for `new_contents`, or
    /// `None` when the contents are unchanged; only differing contents make
    /// a new revision.
    pub fn create_new_revision(&self, new_contents: Vec<u8>) -> (r: Option<Document>)
        ensures
            match r {
                Some(doc) => self@.contents != new_contents@
                    && doc@.header.revision.sha256.len() == 32 && doc@ == (DocumentV {
                    header: HeaderV {
                        id: self@.header.id,
                        revision: self.spec_next_revision(new_contents@),
                        encryption_key: self@.header.encryption_key,
                    },
                    contents: new_contents@,
                }),
                None => self@.contents == new_contents@,
            },
    {
        if bytes_eq(&self.contents, &new_contents) {
            return None;
        }
        let generation = next_generation_exec(self.header.revision.generation);
        let sha256 = sha256_digest(&new_contents);
        Some(
            Document {
                header: Header {
                    id: self.header.id,
                    revision: Revision { generation, sha256 },
                    encryption_key: match &self.header.encryption_key {
                        Some(k) => Some(bytes_clone(k)),
                        None => None,
                    },
                },
                contents: new_contents,
            },
        )
    }
}

/// Computes the generation that follows `g`.
fn next_generation_exec(g: u32) -> (r: u32)
    ensures
        r == next_generation(g),
{
    if g == u32::MAX {
        0
    } else {
        g + 1
    }
}

} // verus!
