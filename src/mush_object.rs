//! A blob-only object whose stored form is raw DEFLATE data.

use vstd::prelude::*;
use crate::bytes::push_all;
use crate::hash::{digest_of, hex_chars, shard_path};
use crate::object::{ObjectView, canonical};

verus! {

/// Raw DEFLATE data (no zlib wrapper) of `data` at level `level`, as
/// miniz_oxide writes it.
pub uninterp spec fn deflate_of(data: Seq<u8>, level: u8) -> Seq<u8>;

/// Relies on miniz_oxide::deflate::compress_to_vec: the data compressed into
/// raw DEFLATE at the given level.
#[verifier::external_body]
fn deflate_compress(data: &[u8], level: u8) -> (r: Vec<u8>)
    ensures
        r@ == deflate_of(data@, level),
{
    miniz_oxide::deflate::compress_to_vec(data, level)
}

/// The level at which these objects are compressed.
pub const MUSH_COMPRESSION_LEVEL: u8 = 6;

pub enum MushObject {
    Blob(Vec<u8>),
}

impl MushObject {
    pub open spec fn content(&self) -> Seq<u8> {
        match self {
            MushObject::Blob(b) => b@,
        }
    }

    /// The canonical bytes, `"blob <size>\0<content>"`.
    pub fn store(&self) -> (r: Vec<u8>)
        ensures
            r@ == canonical(ObjectView::Blob(self.content())),
    {
        match self {
            MushObject::Blob(bytes) => {
                let mut content: Vec<u8> = Vec::new();
                push_all(&mut content, bytes.as_slice());
                proof {
                    assert(content@ =~= bytes@);
                }
                crate::object::Object::Blob(content).store()
            },
        }
    }

    /// The digest of the canonical bytes.
    pub fn hash(&self) -> (r: crate::hash::Hash)
        ensures
            r@ == digest_of(canonical(ObjectView::Blob(self.content()))),
    {
        let bytes = self.store();
        crate::hash::Hash::digest(bytes.as_slice())
    }

    /// The canonical bytes as raw DEFLATE data.
    pub fn compressed(&self) -> (r: Vec<u8>)
        ensures
            r@ == deflate_of(canonical(ObjectView::Blob(self.content())), MUSH_COMPRESSION_LEVEL),
    {
        let bytes = self.store();
        deflate_compress(bytes.as_slice(), MUSH_COMPRESSION_LEVEL)
    }

    /// Where the object is stored: `objects/<2 digits>/<38 digits>`.
    pub fn object_path(&self) -> (r: String)
        ensures
            r@ == shard_path(hex_chars(digest_of(canonical(ObjectView::Blob(self.content()))))),
    {
        self.hash().path()
    }
}

} // verus!
