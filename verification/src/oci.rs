//! The blob store of an opened image.
//!
//! On disk an image is a directory holding every blob under
//! `blobs/sha256/<hex digest>`.  An `Image` holds the blobs of interest in
//! memory, keyed by digest: the host hands each blob's bytes over once,
//! and every later access resolves a digest against the store.  Opening a
//! metadata blob or the root manifest parses the stored bytes; reading a
//! chunk copies a byte range out of them.

use vstd::prelude::*;
use vstd::string::{StringExecFns, StringSliceAdditionalSpecFns};
use crate::digest::{Digest, spec_hex};
use crate::error::{WireFormatError, is_decode_error};
use crate::types::{BlobRef, BlobRefKindView};
use crate::cbor::spec_parse_array_header;
use crate::metadata::MetadataBlob;
use crate::records::{Rootfs, spec_parse_rootfs};

verus! {

/// One stored blob: its digest and its bytes.
#[derive(Debug)]
pub struct Blob {
    pub digest: Digest,
    pub data: Vec<u8>,
}

/// An opened image: a content-addressed store of blobs.
#[derive(Debug)]
pub struct Image {
    blobs: Vec<Blob>,
}

/// The bytes stored under `digest`, scanning from the front; `None` when
/// the store holds no such blob.
pub open spec fn spec_lookup_in(blobs: Seq<Blob>, digest: Seq<u8>) -> Option<Seq<u8>>
    decreases blobs.len(),
{
    if blobs.len() == 0 {
        None
    } else if blobs[0].digest@ == digest {
        Some(blobs[0].data@)
    } else {
        spec_lookup_in(blobs.drop_first(), digest)
    }
}

/// The relative directory under which an image keeps its blobs.
pub fn blob_path_relative() -> (r: String)
    ensures
        r@ == "blobs/sha256"@,
{
    String::from_str("blobs/sha256")
}

/// The path of a blob relative to the image root:
/// `blobs/sha256/<hex digest>`.
pub fn blob_path(digest: &Digest) -> (r: String)
    ensures
        r@ == "blobs/sha256/"@ + spec_hex(digest@),
{
    let mut r = String::from_str("blobs/sha256/");
    let hex = digest.to_hex();
    r.append(hex.as_str());
    r
}

impl Image {
    /// The bytes this image stores under `digest`.
    pub closed spec fn spec_lookup(&self, digest: Seq<u8>) -> Option<Seq<u8>> {
        spec_lookup_in(self.blobs@, digest)
    }

    /// Opens an empty image; the host adds each blob it has read.
    pub fn open() -> (r: Image)
        ensures
            forall|d: Seq<u8>| r.spec_lookup(d) is None,
    {
        let r = Image { blobs: Vec::new() };
        proof {
            assert forall|d: Seq<u8>| r.spec_lookup(d) is None by {
                assert(r.blobs@.len() == 0);
            }
        }
        r
    }

    /// Stores a blob's bytes under its digest.  A digest already present
    /// keeps its earlier bytes.
    pub fn add_blob(&mut self, digest: Digest, data: Vec<u8>)
        ensures
            forall|d: Seq<u8>|
                final(self).spec_lookup(d) == (match old(self).spec_lookup(d) {
                    Option::Some(b) => Some(b),
                    Option::None => if d == digest@ {
                        Some(data@)
                    } else {
                        None::<Seq<u8>>
                    },
                }),
    {
        let ghost data_v = data@;
        self.blobs.push(Blob { digest, data });
        proof {
            assert forall|d: Seq<u8>|
                final(self).spec_lookup(d) == (match old(self).spec_lookup(d) {
                    Option::Some(b) => Some(b),
                    Option::None => if d == digest@ {
                        Some(data_v)
                    } else {
                        None::<Seq<u8>>
                    },
                }) by {
                lemma_lookup_push(old(self).blobs@, Blob { digest, data }, d);
            }
        }
    }

    /// The stored bytes of the blob named by `digest`; a digest the store
    /// does not hold is not found.
    pub fn open_raw_blob(&self, digest: &Digest) -> (r: Result<&Vec<u8>, WireFormatError>)
        ensures
            match r {
                Ok(v) => self.spec_lookup(digest@) == Some(v@),
                Err(e) => {
                    &&& self.spec_lookup(digest@) is None
                    &&& e == WireFormatError::NotFound
                },
            },
    {
        let n = self.blobs.len();
        proof {
            assert(self.blobs@.skip(0) =~= self.blobs@);
        }
        let mut i: usize = 0;
        while i < n
            invariant
                i <= n,
                n == self.blobs@.len(),
                spec_lookup_in(self.blobs@.skip(i as int), digest@) == self.spec_lookup(digest@),
                forall|j: int| 0 <= j < i ==> (#[trigger] self.blobs@[j].digest)@ != digest@,
            decreases n - i,
        {
            proof {
                assert(self.blobs@.skip(i as int)[0] == self.blobs@[i as int]);
            }
            if digest_eq(&self.blobs[i].digest, digest) {
                return Ok(&self.blobs[i].data);
            }
            proof {
                assert(self.blobs@.skip(i as int).drop_first() =~= self.blobs@.skip(i as int + 1));
            }
            i += 1;
        }
        proof {
            assert(self.blobs@.skip(n as int) =~= Seq::<Blob>::empty());
        }
        Err(WireFormatError::NotFound)
    }

    /// Opens and parses the metadata blob named by `digest`.
    pub fn open_metadata_blob(&self, digest: &Digest) -> (r: Result<MetadataBlob, WireFormatError>)
        ensures
            match r {
                Ok(mb) => {
                    &&& self.spec_lookup(digest@) == Some(mb.buf())
                    &&& (spec_parse_array_header(mb.buf(), 0) matches Some((c, _)) && c
                        == mb.inode_count as u64)
                },
                Err(e) => match self.spec_lookup(digest@) {
                    Option::None => e == WireFormatError::NotFound,
                    Option::Some(b) => {
                        &&& !(spec_parse_array_header(b, 0) matches Some((c, _)) && c
                            <= usize::MAX)
                        &&& e == crate::metadata::spec_metadata_new_err(b)
                    },
                },
            },
    {
        let data = self.open_raw_blob(digest)?;
        let copy = vstd::slice::slice_to_vec(data.as_slice());
        MetadataBlob::new(copy)
    }

    /// Opens and parses the root manifest whose digest is the 64-char hex
    /// string `rootfs_path`.
    pub fn open_rootfs_blob(&self, rootfs_path: &str) -> (r: Result<Rootfs, WireFormatError>)
        ensures
            match r {
                Ok(rf) => (crate::digest::spec_from_hex(rootfs_path@) matches Some(dg)
                    && (self.spec_lookup(dg) matches Some(b) && (spec_parse_rootfs(b, 0) matches
                Some((rv, _)) && rv == rf@))),
                Err(e) => match crate::digest::spec_from_hex(rootfs_path@) {
                    Option::None => e == WireFormatError::HexError,
                    Option::Some(dg) => match self.spec_lookup(dg) {
                        Option::None => e == WireFormatError::NotFound,
                        Option::Some(b) => {
                            &&& spec_parse_rootfs(b, 0) is None
                            &&& is_decode_error(e)
                            &&& b.len() == 0 ==> e == WireFormatError::ValueMissing
                        },
                    },
                },
            },
    {
        let digest = Digest::from_hex(rootfs_path)?;
        let data = self.open_raw_blob(&digest)?;
        let rf = Rootfs::open(data.as_slice())?;
        Ok(rf)
    }

    /// Reads up to `len` bytes of the chunk `chunk` names, starting
    /// `addl_offset` bytes into it, into `buf[start .. start + n]`.  The
    /// read is short only when the blob ends early; a seek past the end
    /// reads nothing.  A `Local` chunk names no blob, and a compressed
    /// chunk is not supported.
    pub fn fill_from_chunk(
        &self,
        chunk: BlobRef,
        addl_offset: u64,
        buf: &mut Vec<u8>,
        start: usize,
        len: usize,
    ) -> (r: Result<usize, WireFormatError>)
        requires
            start + len <= old(buf)@.len(),
        ensures
            final(buf)@.len() == old(buf)@.len(),
            match r {
                Ok(n) => {
                    &&& n <= len
                    &&& (chunk@.kind matches BlobRefKindView::Other { digest } && (match self
                        .spec_lookup(digest) {
                        Option::Some(blob) => {
                            &&& n == spec_chunk_read_len(
                                blob.len() as int,
                                chunk.offset as int + addl_offset as int,
                                len as int,
                            )
                            &&& forall|j: int|
                                0 <= j < n ==> #[trigger] final(buf)@[start + j] == blob[chunk.offset as int
                                    + addl_offset as int + j]
                        },
                        Option::None => false,
                    }))
                    &&& !chunk@.compressed
                    &&& forall|j: int|
                        0 <= j < old(buf)@.len() && !(start <= j < start + n)
                            ==> #[trigger] final(buf)@[j] == old(buf)@[j]
                },
                Err(e) => {
                    &&& final(buf)@ == old(buf)@
                    &&& e == (if chunk@.kind is Local {
                        WireFormatError::LocalRefError
                    } else if chunk@.compressed {
                        WireFormatError::Unsupported
                    } else {
                        WireFormatError::NotFound
                    })
                    &&& (chunk@.kind is Local || chunk@.compressed || (chunk@.kind matches
                    BlobRefKindView::Other { digest } && self.spec_lookup(digest) is None))
                },
            },
    {
        let digest = Digest::from_blob_ref(&chunk)?;
        if chunk.compressed {
            return Err(WireFormatError::Unsupported);
        }
        let blob = self.open_raw_blob(&digest)?;
        let blen = blob.len();
        let seek = match chunk.offset.checked_add(addl_offset) {
            Some(sk) => sk,
            None => {
                return Ok(0);
            },
        };
        if seek >= blen as u64 {
            return Ok(0);
        }
        let sk = seek as usize;
        let avail = blen - sk;
        let n = if len < avail {
            len
        } else {
            avail
        };
        let buflen = buf.len();
        let mut j: usize = 0;
        while j < n
            invariant
                j <= n,
                n <= len,
                blen == blob@.len(),
                buflen == buf@.len(),
                sk + n <= blen,
                sk + n <= blob@.len(),
                start + len <= buf@.len(),
                buf@.len() == old(buf)@.len(),
                spec_lookup_from_self(self, chunk) == Some(blob@),
                forall|i: int| 0 <= i < j ==> #[trigger] buf@[start + i] == blob@[sk + i],
                forall|i: int|
                    0 <= i < buf@.len() && !(start <= i < start + j) ==> #[trigger] buf@[i] == old(
                        buf,
                    )@[i],
            decreases n - j,
        {
            let b = blob[sk + j];
            buf[start + j] = b;
            j += 1;
        }
        Ok(n)
    }
}

/// How many bytes a chunk read yields: the request, capped by what the
/// blob still holds past the seek position.
pub open spec fn spec_chunk_read_len(blob_len: int, seek: int, len: int) -> int {
    if seek >= blob_len {
        0
    } else if len <= blob_len - seek {
        len
    } else {
        blob_len - seek
    }
}

/// The bytes the store holds for the blob a chunk names.
pub open spec fn spec_lookup_from_self(image: &Image, chunk: BlobRef) -> Option<Seq<u8>> {
    match chunk@.kind {
        BlobRefKindView::Other { digest } => image.spec_lookup(digest),
        BlobRefKindView::Local => None,
    }
}

/// Pushing a blob changes lookups only for a digest that was absent.
proof fn lemma_lookup_push(blobs: Seq<Blob>, b: Blob, d: Seq<u8>)
    ensures
        spec_lookup_in(blobs.push(b), d) == (match spec_lookup_in(blobs, d) {
            Option::Some(x) => Some(x),
            Option::None => if d == b.digest@ {
                Some(b.data@)
            } else {
                None::<Seq<u8>>
            },
        }),
    decreases blobs.len(),
{
    if blobs.len() == 0 {
        assert(blobs.push(b)[0] == b);
        assert(blobs.push(b).drop_first() =~= Seq::<Blob>::empty());
    } else {
        assert(blobs.push(b)[0] == blobs[0]);
        assert(blobs.push(b).drop_first() =~= blobs.drop_first().push(b));
        lemma_lookup_push(blobs.drop_first(), b, d);
    }
}

/// Byte-wise equality of two digests.
fn digest_eq(a: &Digest, b: &Digest) -> (r: bool)
    ensures
        r == (a@ == b@),
{
    let ab = a.underlying();
    let bb = b.underlying();
    let mut i: usize = 0;
    while i < 32
        invariant
            i <= 32,
            ab@ == a@,
            bb@ == b@,
            a@.len() == 32,
            b@.len() == 32,
            forall|j: int| 0 <= j < i ==> a@[j] == b@[j],
        decreases 32 - i,
    {
        if ab[i] != bb[i] {
            assert(a@ != b@);
            return false;
        }
        i += 1;
    }
    proof {
        assert(a@ =~= b@);
    }
    true
}

} // verus!
