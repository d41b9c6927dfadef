//! The parsed metadata blob: a fixed-stride, binary-sorted inode table
//! with variable-length side data behind it.
//!
//! A metadata blob starts with a CBOR array header sized for
//! `inode_count`; the k-th framed inode record occupies the
//! `INODE_WIRE_SIZE` bytes at `header_size + k * INODE_WIRE_SIZE`.  Because
//! the stride is fixed, an inode can be found by binary search without
//! decoding every record.  Behind the table lies a variable-length region
//! holding directory listings, file chunk lists and extended-attribute
//! records, addressed by byte offset.

use vstd::prelude::*;
use crate::cbor::{spec_cbor_header_size, spec_parse_header, spec_parse_array_header,
    spec_header_err, cbor_size_of_list_header, parse_cbor_array_header};
use crate::error::{Error, WireFormatError, is_decode_error};
use crate::types::{Inode, InodeView, BlobRef, BlobRefKind, BlobRefKindView, spec_parse_inode,
    Ino, INODE_SIZE, INODE_WIRE_SIZE};
use crate::records::{FileChunk, DirList, InodeAdditional, spec_chunk_views,
    spec_parse_file_chunk_list, spec_parse_dir_list, spec_parse_inode_additional,
    parse_file_chunk_list, parse_dir_list, parse_inode_additional};

verus! {

/// The byte offset of record `k` in a table of `count` inodes.
pub open spec fn spec_record_offset(count: nat, k: int) -> int {
    spec_cbor_header_size(count as int) + k * INODE_WIRE_SIZE
}

/// The inode stored at slot `k`, if the record there decodes.
pub open spec fn spec_inode_at(buf: Seq<u8>, count: nat, k: int) -> Option<InodeView> {
    match spec_parse_inode(buf, spec_record_offset(count, k)) {
        Option::None => None,
        Option::Some((i, _)) => Some(i),
    }
}

/// The inode number stored at slot `k` (meaningful when the record
/// decodes).
pub open spec fn spec_ino_at(buf: Seq<u8>, count: nat, k: int) -> Ino {
    spec_inode_at(buf, count, k).unwrap().ino
}

/// A well-formed inode table: every slot decodes, and the inode numbers
/// are strictly increasing.
pub open spec fn wf_inode_table(buf: Seq<u8>, count: nat) -> bool {
    &&& forall|k: int| 0 <= k < count ==> (#[trigger] spec_inode_at(buf, count, k)) is Some
    &&& forall|k1: int, k2: int|
        #![trigger spec_ino_at(buf, count, k1), spec_ino_at(buf, count, k2)]
        0 <= k1 < k2 < count ==> spec_ino_at(buf, count, k1) < spec_ino_at(buf, count, k2)
}

/// Whether some slot of the table stores inode number `ino`.
pub open spec fn table_contains_ino(buf: Seq<u8>, count: nat, ino: Ino) -> bool {
    exists|k: int|
        0 <= k < count && ((#[trigger] spec_inode_at(buf, count, k)) matches Some(i) && i.ino
            == ino)
}

/// The error `MetadataBlob::new` reports for a blob whose leading array
/// header cannot be used: the header is bad, or the count it announces
/// does not fit a `usize`.
pub open spec fn spec_metadata_new_err(b: Seq<u8>) -> WireFormatError {
    match spec_parse_array_header(b, 0) {
        Option::None => WireFormatError::CBORError(
            match spec_parse_header(b, 0) {
                Option::None => spec_header_err(b, 0),
                Option::Some(_) => Error::ExpectedArray,
            },
        ),
        Option::Some(_) => WireFormatError::InvalidSerializedData,
    }
}

/// An owned, fully read metadata blob.
#[derive(Debug)]
pub struct MetadataBlob {
    pub mmapped_region: Vec<u8>,
    pub inode_count: usize,
}

impl MetadataBlob {
    /// The bytes of the blob.
    pub open spec fn buf(&self) -> Seq<u8> {
        self.mmapped_region@
    }

    /// The number of inode records the leading array header announces.
    pub open spec fn count(&self) -> nat {
        self.inode_count as nat
    }

    /// This blob's inode table is well formed.
    pub open spec fn wf(&self) -> bool {
        wf_inode_table(self.buf(), self.count())
    }

    /// Parses the leading array header of a fully read blob and retains
    /// the buffer.  The records themselves are decoded lazily, so a
    /// malformed record is only discovered when a lookup reaches it.
    pub fn new(data: Vec<u8>) -> (r: Result<MetadataBlob, WireFormatError>)
        ensures
            match r {
                Ok(mb) => {
                    &&& mb.buf() == data@
                    &&& (spec_parse_array_header(data@, 0) matches Some((c, _)) && c
                        == mb.inode_count as u64)
                },
                Err(e) => {
                    &&& e == spec_metadata_new_err(data@)
                    &&& match spec_parse_array_header(data@, 0) {
                        Option::None => true,
                        Option::Some((c, _)) => c > usize::MAX,
                    }
                },
            },
    {
        let (count, _) = match parse_cbor_array_header(data.as_slice(), 0) {
            Ok(h) => h,
            Err(e) => {
                return Err(WireFormatError::CBORError(e));
            },
        };
        if count > usize::MAX as u64 {
            return Err(WireFormatError::InvalidSerializedData);
        }
        Ok(MetadataBlob { mmapped_region: data, inode_count: count as usize })
    }

    /// The byte offset a `Local` reference points at.  A reference into
    /// another blob cannot be seeked here.
    pub fn seek_ref(&self, r: &BlobRef) -> (res: Result<u64, WireFormatError>)
        ensures
            match res {
                Ok(off) => r@.kind is Local && off == r.offset,
                Err(e) => {
                    &&& r@.kind is Other
                    &&& e == WireFormatError::SeekOtherError
                },
            },
    {
        match r.kind {
            BlobRefKind::Other { .. } => Err(WireFormatError::SeekOtherError),
            BlobRefKind::Local => Ok(r.offset),
        }
    }

    /// Decodes the file chunk list stored at byte `offset` of this blob.
    pub fn read_file_chunks(&self, offset: u64) -> (r: Result<Vec<FileChunk>, WireFormatError>)
        ensures
            match r {
                Ok(v) => (spec_parse_file_chunk_list(self.buf(), offset as int) matches Some(
                    (cs, _),
                ) && cs == spec_chunk_views(v@)),
                Err(e) => {
                    &&& spec_parse_file_chunk_list(self.buf(), offset as int) is None
                    &&& is_decode_error(e)
                    &&& offset >= self.buf().len() ==> e == WireFormatError::ValueMissing
                },
            },
    {
        if offset >= self.mmapped_region.len() as u64 {
            // the offset points past the buffer: no value to decode at all
            return Err(WireFormatError::ValueMissing);
        }
        let (cl, _) = parse_file_chunk_list(self.mmapped_region.as_slice(), offset as usize)?;
        Ok(cl.chunks)
    }

    /// Decodes the directory listing stored at byte `offset` of this
    /// blob.
    pub fn read_dir_list(&self, offset: u64) -> (r: Result<DirList, WireFormatError>)
        ensures
            match r {
                Ok(d) => (spec_parse_dir_list(self.buf(), offset as int) matches Some((dl, _))
                    && dl == d@),
                Err(e) => {
                    &&& spec_parse_dir_list(self.buf(), offset as int) is None
                    &&& is_decode_error(e)
                    &&& offset >= self.buf().len() ==> e == WireFormatError::ValueMissing
                },
            },
    {
        if offset >= self.mmapped_region.len() as u64 {
            // the offset points past the buffer: no value to decode at all
            return Err(WireFormatError::ValueMissing);
        }
        let (d, _) = parse_dir_list(self.mmapped_region.as_slice(), offset as usize)?;
        Ok(d)
    }

    /// Decodes the side data a `Local` reference points at.  Side data in
    /// another blob is not supported here.
    pub fn read_inode_additional(&self, r: &BlobRef) -> (res: Result<
        InodeAdditional,
        WireFormatError,
    >)
        ensures
            match res {
                Ok(a) => {
                    &&& r@.kind is Local
                    &&& (spec_parse_inode_additional(self.buf(), r.offset as int) matches Some(
                        (av, _),
                    ) && av == a@)
                },
                Err(e) => (r@.kind is Other && e == WireFormatError::SeekOtherError) || (r@.kind
                    is Local && spec_parse_inode_additional(self.buf(), r.offset as int) is None
                    && is_decode_error(e) && (r.offset >= self.buf().len() ==> e
                    == WireFormatError::ValueMissing)),
            },
    {
        let offset = self.seek_ref(r)?;
        if offset >= self.mmapped_region.len() as u64 {
            // the offset points past the buffer: no value to decode at all
            return Err(WireFormatError::ValueMissing);
        }
        let (a, _) = parse_inode_additional(self.mmapped_region.as_slice(), offset as usize)?;
        Ok(a)
    }

    /// Decides whether this blob's inode table is well formed: every
    /// record decodes, and the inode numbers are strictly increasing.
    /// Lookups on a table that passes this check are exact.
    pub fn check_inode_table(&self) -> (r: bool)
        ensures
            r == self.wf(),
    {
        let count = self.inode_count;
        let buf = self.mmapped_region.as_slice();
        let blen = self.mmapped_region.len();
        let header = cbor_size_of_list_header(count);
        let mut i: usize = 0;
        let mut prev: u64 = 0;
        while i < count
            invariant
                i <= count,
                count == self.inode_count,
                buf@ == self.buf(),
                blen == self.buf().len(),
                header == spec_cbor_header_size(count as int),
                forall|k: int|
                    0 <= k < i ==> (#[trigger] spec_inode_at(self.buf(), self.count(), k)) is Some,
                forall|k1: int, k2: int|
                    #![trigger spec_ino_at(self.buf(), self.count(), k1), spec_ino_at(self.buf(), self.count(), k2)]
                    0 <= k1 < k2 < i ==> spec_ino_at(self.buf(), self.count(), k1) < spec_ino_at(
                        self.buf(),
                        self.count(),
                        k2,
                    ),
                i > 0 ==> prev == spec_ino_at(self.buf(), self.count(), i - 1),
            decreases count - i,
        {
            let stride = match i.checked_mul(INODE_WIRE_SIZE) {
                Some(x) => x,
                None => {
                    proof {
                        if self.wf() {
                            self.lemma_record_fits(i as int);
                        }
                    }
                    return false;
                },
            };
            let off = match header.checked_add(stride) {
                Some(x) => x,
                None => {
                    proof {
                        if self.wf() {
                            self.lemma_record_fits(i as int);
                        }
                    }
                    return false;
                },
            };
            let inode = match Inode::deserialize(buf, off) {
                Ok((inode, _)) => inode,
                Err(_) => {
                    proof {
                        if self.wf() {
                            assert(spec_inode_at(self.buf(), self.count(), i as int) is Some);
                            assert(false);
                        }
                    }
                    return false;
                },
            };
            proof {
                assert(spec_inode_at(self.buf(), self.count(), i as int) == Some(inode@));
                assert(spec_ino_at(self.buf(), self.count(), i as int) == inode@.ino);
            }
            if i > 0 && inode.ino <= prev {
                proof {
                    if self.wf() {
                        assert(spec_ino_at(self.buf(), self.count(), i as int - 1) < spec_ino_at(
                            self.buf(),
                            self.count(),
                            i as int,
                        ));
                        assert(false);
                    }
                }
                return false;
            }
            prev = inode.ino;
            i += 1;
        }
        true
    }

    /// Binary search for inode number `ino` over the fixed-stride table.
    ///
    /// Success is decided by the table alone: on a well-formed table the
    /// result is `Ok(Some(..))` exactly when some record stores `ino`, and
    /// the returned record is that stored record; it is `Ok(None)` when no
    /// record does, in particular on an empty table.  Whatever the buffer
    /// holds, the search never panics: a record that cannot be decoded
    /// surfaces its own decode error (a slot that does not even fit the
    /// address space is malformed data), and a search that would run past
    /// slot 0 stops at the `mid == 0` guard.
    pub fn find_inode(&self, ino: Ino) -> (r: Result<Option<Inode>, WireFormatError>)
        ensures
            match r {
                Ok(Some(i)) => {
                    &&& i@.ino == ino
                    &&& exists|k: int|
                        0 <= k < self.count() && spec_inode_at(self.buf(), self.count(), k)
                            == Some(i@)
                },
                Ok(None) => {
                    &&& self.wf() ==> !table_contains_ino(self.buf(), self.count(), ino)
                    &&& self.count() == 0 || exists|k: int|
                        0 <= k < self.count() && (#[trigger] spec_inode_at(
                            self.buf(),
                            self.count(),
                            k,
                        )) is Some
                },
                Err(e) => {
                    &&& !self.wf()
                    &&& {
                        ||| exists|k: int|
                            0 <= k < self.count() && (#[trigger] spec_inode_at(
                                self.buf(),
                                self.count(),
                                k,
                            )) is None && e == crate::types::spec_fixed_record_err(
                                self.buf(),
                                spec_record_offset(self.count(), k),
                                INODE_SIZE as int,
                            )
                        ||| e == WireFormatError::InvalidSerializedData
                    }
                },
            },
            self.wf() ==> r matches Ok(_),
    {
        let count = self.inode_count;
        if count == 0 {
            return Ok(None);
        }
        let buf = self.mmapped_region.as_slice();
        let blen = self.mmapped_region.len();
        let header = cbor_size_of_list_header(count);
        let mut left: usize = 0;
        let mut right: usize = count - 1;
        while left <= right
            invariant
                count == self.inode_count,
                0 < count,
                left <= count,
                right < count,
                buf@ == self.buf(),
                blen == self.buf().len(),
                header == spec_cbor_header_size(count as int),
                self.wf() ==> forall|k: int|
                    0 <= k < left ==> spec_ino_at(self.buf(), self.count(), k) < ino,
                self.wf() ==> forall|k: int|
                    right < k < count ==> spec_ino_at(self.buf(), self.count(), k) > ino,
                (left == 0 && right == count - 1) || exists|k: int|
                    0 <= k < count && (#[trigger] spec_inode_at(self.buf(), self.count(), k))
                        is Some,
            decreases right + 1 - left,
        {
            let mid = left + (right - left) / 2;
            let stride = match mid.checked_mul(INODE_WIRE_SIZE) {
                Some(x) => x,
                None => {
                    proof {
                        if self.wf() {
                            self.lemma_record_fits(mid as int);
                        }
                    }
                    return Err(WireFormatError::InvalidSerializedData);
                },
            };
            let mid_offset = match header.checked_add(stride) {
                Some(x) => x,
                None => {
                    proof {
                        if self.wf() {
                            self.lemma_record_fits(mid as int);
                        }
                    }
                    return Err(WireFormatError::InvalidSerializedData);
                },
            };
            let i = match Inode::deserialize(buf, mid_offset) {
                Ok((i, _)) => i,
                Err(e) => {
                    proof {
                        assert(spec_inode_at(self.buf(), self.count(), mid as int) is None);
                        assert(e == crate::types::spec_fixed_record_err(
                            self.buf(),
                            spec_record_offset(self.count(), mid as int),
                            INODE_SIZE as int,
                        ));
                        if self.wf() {
                            assert(spec_inode_at(self.buf(), self.count(), mid as int) is Some);
                            assert(false);
                        }
                    }
                    return Err(e);
                },
            };
            proof {
                assert(spec_inode_at(self.buf(), self.count(), mid as int) == Some(i@));
                assert(spec_ino_at(self.buf(), self.count(), mid as int) == i@.ino);
            }
            if i.ino == ino {
                return Ok(Some(i));
            }
            if i.ino < ino {
                proof {
                    if self.wf() {
                        assert forall|k: int| 0 <= k < mid + 1 implies spec_ino_at(
                            self.buf(),
                            self.count(),
                            k,
                        ) < ino by {
                            if left <= k < mid {
                                assert(spec_ino_at(self.buf(), self.count(), k) < spec_ino_at(
                                    self.buf(),
                                    self.count(),
                                    mid as int,
                                ));
                            }
                        }
                    }
                }
                left = mid + 1;
            } else {
                // don't underflow below slot 0: the target sorts before
                // the whole table
                if mid == 0 {
                    proof {
                        if self.wf() {
                            assert forall|k: int| 0 <= k < count implies spec_ino_at(
                                self.buf(),
                                self.count(),
                                k,
                            ) > ino by {
                                if k > 0 {
                                    assert(spec_ino_at(self.buf(), self.count(), 0) < spec_ino_at(
                                        self.buf(),
                                        self.count(),
                                        k,
                                    ));
                                }
                            }
                            if table_contains_ino(self.buf(), self.count(), ino) {
                                let k = choose|k: int|
                                    0 <= k < self.count() && ((#[trigger] spec_inode_at(
                                        self.buf(),
                                        self.count(),
                                        k,
                                    )) matches Some(i) && i.ino == ino);
                                assert(spec_ino_at(self.buf(), self.count(), k) == ino);
                                assert(false);
                            }
                        }
                    }
                    return Ok(None);
                }
                proof {
                    if self.wf() {
                        assert forall|k: int| mid - 1 < k < count implies spec_ino_at(
                            self.buf(),
                            self.count(),
                            k,
                        ) > ino by {
                            if mid < k <= right {
                                assert(spec_ino_at(self.buf(), self.count(), mid as int)
                                    < spec_ino_at(self.buf(), self.count(), k));
                            }
                        }
                    }
                }
                right = mid - 1;
            }
        }
        proof {
            if self.wf() && table_contains_ino(self.buf(), self.count(), ino) {
                let k = choose|k: int|
                    0 <= k < self.count() && ((#[trigger] spec_inode_at(
                        self.buf(),
                        self.count(),
                        k,
                    )) matches Some(i) && i.ino == ino);
                assert(spec_ino_at(self.buf(), self.count(), k) == ino);
            }
        }
        Ok(None)
    }

    /// On a well-formed table, record `k` lies within the buffer, so its
    /// offset arithmetic cannot overflow a `usize`.
    proof fn lemma_record_fits(&self, k: int)
        requires
            0 <= k < self.count(),
            self.wf(),
        ensures
            spec_record_offset(self.count(), k) + INODE_WIRE_SIZE <= self.buf().len(),
    {
        assert(spec_inode_at(self.buf(), self.count(), k) is Some);
        let off = spec_record_offset(self.count(), k);
        assert(spec_parse_inode(self.buf(), off) is Some);
        match spec_parse_header(self.buf(), off) {
            Option::None => {
                assert(false);
            },
            Option::Some((major, n, np)) => {
                // the record is a byte string of INODE_SIZE bytes that
                // ends inside the buffer, and a header announcing a
                // length above 23 occupies at least two bytes
                assert(n == INODE_SIZE && np + INODE_SIZE <= self.buf().len());
                assert(np >= off + 2);
            },
        }
    }
}

} // verus!
