//! The fixed-stride wire records: blob references and inodes.
//!
//! A `BlobRef` occupies 41 bytes on the wire: the byte offset as a
//! little-endian `u64`, one flags byte (bit 7: compressed; low seven bits:
//! 0 for `Local`, 1 for `Other`), then 32 digest bytes (unused for
//! `Local`).  An `Inode` occupies 77 bytes: inode number, mode tag and a
//! 16-byte mode payload, uid, gid, permissions, a presence byte and an
//! optional `BlobRef` pointing at side data.  Each record is framed as a
//! CBOR byte string, so its wire size adds the string header.
//!
//! All multi-byte integers inside the fixed payloads are little-endian.

use vstd::prelude::*;
use vstd::bytes::{spec_u16_from_le_bytes, spec_u16_to_le_bytes, spec_u32_from_le_bytes,
    spec_u32_to_le_bytes, spec_u64_from_le_bytes, spec_u64_to_le_bytes, u16_from_le_bytes,
    u16_to_le_bytes, u32_from_le_bytes, u32_to_le_bytes, u64_from_le_bytes, u64_to_le_bytes,
    lemma_auto_spec_u16_to_from_le_bytes, lemma_auto_spec_u32_to_from_le_bytes,
    lemma_auto_spec_u64_to_from_le_bytes};
use crate::cbor::{spec_parse_header, spec_cbor_header, spec_cbor_header_size, spec_header_err,
    parse_cbor_header, encode_cbor_header, lemma_parse_of_cbor_header, MAJOR_BYTES};
use crate::digest::{Digest, SHA256_BLOCK_SIZE};
use crate::error::{Error, WireFormatError};

verus! {

/// Wire size of a `BlobRef` payload: an offset, a flags byte and a
/// digest.
pub const BLOB_REF_SIZE: usize = 1 + SHA256_BLOCK_SIZE + 8;

/// Bit 7 of the flags byte marks a compressed chunk.
pub const COMPRESSED_BIT: u8 = 128;

/// Whether a blob reference points into the metadata blob it lives in
/// (`Local`) or into another blob named by digest.
#[derive(Clone, Copy, Debug, PartialEq, Eq)]
pub enum BlobRefKind {
    Local,
    Other { digest: [u8; SHA256_BLOCK_SIZE] },
}

/// A reference to a byte range within some blob, plus flags.
#[derive(Clone, Copy, Debug, PartialEq, Eq)]
pub struct BlobRef {
    pub offset: u64,
    pub kind: BlobRefKind,
    pub compressed: bool,
}

/// The mathematical value of a `BlobRefKind`: the digest as a sequence.
pub enum BlobRefKindView {
    Local,
    Other { digest: Seq<u8> },
}

/// The mathematical value of a `BlobRef`.
pub struct BlobRefView {
    pub offset: u64,
    pub kind: BlobRefKindView,
    pub compressed: bool,
}

impl BlobRefView {
    /// A well-formed reference carries a full digest.
    pub open spec fn wf(&self) -> bool {
        match self.kind {
            BlobRefKindView::Local => true,
            BlobRefKindView::Other { digest } => digest.len() == SHA256_BLOCK_SIZE,
        }
    }
}

impl View for BlobRef {
    type V = BlobRefView;

    open spec fn view(&self) -> BlobRefView {
        BlobRefView {
            offset: self.offset,
            kind: match self.kind {
                BlobRefKind::Local => BlobRefKindView::Local,
                BlobRefKind::Other { digest } => BlobRefKindView::Other { digest: digest@ },
            },
            compressed: self.compressed,
        }
    }
}

/// The view of every executable `BlobRef` is well formed.
pub proof fn lemma_blob_ref_view_wf(b: BlobRef)
    ensures
        b@.wf(),
{
    match b.kind {
        BlobRefKind::Local => {},
        BlobRefKind::Other { digest } => {
            assert(digest@.len() == SHA256_BLOCK_SIZE);
        },
    }
}

/// Two `BlobRef`s with the same view are the same reference.
pub proof fn lemma_blob_ref_view_injective(a: BlobRef, b: BlobRef)
    requires
        a@ == b@,
    ensures
        a == b,
{
    match (a.kind, b.kind) {
        (BlobRefKind::Other { digest: da }, BlobRefKind::Other { digest: db }) => {
            assert(da@ == db@);
            assert(da =~= db);
        },
        _ => {},
    }
}

/// Reads a 41-byte `BlobRef` payload; `None` when the length is wrong or
/// the kind bits are unknown.
pub open spec fn spec_parse_blob_ref_payload(s: Seq<u8>) -> Option<BlobRefView> {
    if s.len() != BLOB_REF_SIZE {
        None
    } else {
        let offset = spec_u64_from_le_bytes(s.subrange(0, 8));
        let compressed = s[8] >= 128;
        let low = s[8] as int % 128;
        if low == 0 {
            Some(BlobRefView { offset, kind: BlobRefKindView::Local, compressed })
        } else if low == 1 {
            Some(
                BlobRefView {
                    offset,
                    kind: BlobRefKindView::Other { digest: s.subrange(9, 41) },
                    compressed,
                },
            )
        } else {
            None
        }
    }
}

/// The 41-byte payload a `BlobRef` writes: offset, flags, digest (zeroes
/// for a `Local` reference, whose digest area is unused).
pub open spec fn spec_blob_ref_payload(b: BlobRefView) -> Seq<u8> {
    let flags = ((if b.compressed {
        128int
    } else {
        0int
    }) + (match b.kind {
        BlobRefKindView::Local => 0int,
        BlobRefKindView::Other { .. } => 1int,
    })) as u8;
    spec_u64_to_le_bytes(b.offset) + seq![flags] + (match b.kind {
        BlobRefKindView::Local => Seq::new(SHA256_BLOCK_SIZE as nat, |i: int| 0u8),
        BlobRefKindView::Other { digest } => digest,
    })
}

impl BlobRef {
    /// Decodes the 41-byte fixed payload of a blob reference.  Unknown
    /// kind bits are malformed data.
    pub fn fixed_length_deserialize(state: &[u8]) -> (r: Result<BlobRef, WireFormatError>)
        requires
            state@.len() == BLOB_REF_SIZE,
        ensures
            match r {
                Ok(b) => spec_parse_blob_ref_payload(state@) == Some(b@),
                Err(e) => {
                    &&& spec_parse_blob_ref_payload(state@) is None
                    &&& e == WireFormatError::InvalidSerializedData
                },
            },
    {
        let offset = u64_from_le_bytes(&state[0..8]);
        let flags = state[8];
        let compressed = flags >= 128;
        let low = flags % 128;
        if low == 0 {
            Ok(BlobRef { offset, kind: BlobRefKind::Local, compressed })
        } else if low == 1 {
            let mut digest = [0u8; SHA256_BLOCK_SIZE];
            let mut i: usize = 0;
            while i < SHA256_BLOCK_SIZE
                invariant
                    i <= 32,
                    state@.len() == 41,
                    forall|j: int| 0 <= j < i ==> digest@[j] == state@[9 + j],
                decreases 32 - i,
            {
                digest[i] = state[9 + i];
                i += 1;
            }
            assert(digest@ =~= state@.subrange(9, 41));
            Ok(BlobRef { offset, kind: BlobRefKind::Other { digest }, compressed })
        } else {
            Err(WireFormatError::InvalidSerializedData)
        }
    }

    /// Appends the 41-byte fixed payload of this reference to `out`.
    pub fn fixed_length_serialize(&self, out: &mut Vec<u8>)
        ensures
            final(out)@ == old(out)@ + spec_blob_ref_payload(self@),
    {
        let mut le = u64_to_le_bytes(self.offset);
        out.append(&mut le);
        let base: u8 = match self.kind {
            BlobRefKind::Local => 0,
            BlobRefKind::Other { .. } => 1,
        };
        let flags: u8 = if self.compressed {
            base + COMPRESSED_BIT
        } else {
            base
        };
        out.push(flags);
        match self.kind {
            BlobRefKind::Local => {
                let mut i: usize = 0;
                while i < SHA256_BLOCK_SIZE
                    invariant
                        i <= 32,
                        out@ =~= old(out)@ + spec_u64_to_le_bytes(self@.offset) + seq![
                            spec_blob_ref_payload(self@)[8],
                        ] + Seq::new(i as nat, |j: int| 0u8),
                    decreases 32 - i,
                {
                    out.push(0);
                    assert(out@ =~= old(out)@ + spec_u64_to_le_bytes(self@.offset) + seq![
                        spec_blob_ref_payload(self@)[8],
                    ] + Seq::new((i + 1) as nat, |j: int| 0u8));
                    i += 1;
                }
            },
            BlobRefKind::Other { digest } => {
                let mut i: usize = 0;
                while i < SHA256_BLOCK_SIZE
                    invariant
                        i <= 32,
                        digest@.len() == 32,
                        out@ =~= old(out)@ + spec_u64_to_le_bytes(self@.offset) + seq![
                            spec_blob_ref_payload(self@)[8],
                        ] + digest@.subrange(0, i as int),
                    decreases 32 - i,
                {
                    out.push(digest[i]);
                    assert(out@ =~= old(out)@ + spec_u64_to_le_bytes(self@.offset) + seq![
                        spec_blob_ref_payload(self@)[8],
                    ] + digest@.subrange(0, i + 1));
                    i += 1;
                }
            },
        }
        proof {
            lemma_auto_spec_u64_to_from_le_bytes();
            assert(final(out)@ =~= old(out)@ + spec_blob_ref_payload(self@));
        }
    }
}

/// The decoder error when a framed fixed-size record at `pos` cannot be
/// read: the item header is bad, the item is not a byte string, the byte
/// string has the wrong length or overruns the buffer, or the payload
/// itself is malformed.
pub open spec fn spec_fixed_record_err(s: Seq<u8>, pos: int, expected: int) -> WireFormatError {
    match spec_parse_header(s, pos) {
        Option::None => WireFormatError::CBORError(spec_header_err(s, pos)),
        Option::Some((major, n, np)) => {
            if major != MAJOR_BYTES {
                WireFormatError::CBORError(Error::ExpectedString)
            } else if n != expected {
                WireFormatError::InvalidSerializedData
            } else if np + expected > s.len() {
                WireFormatError::CBORError(Error::Eof)
            } else {
                WireFormatError::InvalidSerializedData
            }
        },
    }
}

/// Reads a CBOR-framed `BlobRef` at `pos`: a byte string of exactly 41
/// bytes holding the fixed payload.
pub open spec fn spec_parse_blob_ref(s: Seq<u8>, pos: int) -> Option<(BlobRefView, int)> {
    match spec_parse_header(s, pos) {
        Option::None => None,
        Option::Some((major, n, np)) => {
            if major != MAJOR_BYTES || n != BLOB_REF_SIZE || np + BLOB_REF_SIZE > s.len() {
                None
            } else {
                match spec_parse_blob_ref_payload(s.subrange(np, np + BLOB_REF_SIZE)) {
                    Option::None => None,
                    Option::Some(b) => Some((b, np + BLOB_REF_SIZE)),
                }
            }
        },
    }
}

/// The CBOR framing of a `BlobRef`: a byte-string header and the payload.
pub open spec fn spec_blob_ref_bytes(b: BlobRefView) -> Seq<u8> {
    spec_cbor_header(MAJOR_BYTES, BLOB_REF_SIZE as u64) + spec_blob_ref_payload(b)
}

impl BlobRef {
    /// Decodes a CBOR-framed blob reference at `pos`; trailing bytes after
    /// the record are left alone.
    pub fn deserialize(s: &[u8], pos: usize) -> (r: Result<(BlobRef, usize), WireFormatError>)
        ensures
            match r {
                Ok((b, np)) => {
                    &&& spec_parse_blob_ref(s@, pos as int) == Some((b@, np as int))
                    &&& pos < np <= s@.len()
                },
                Err(e) => {
                    &&& spec_parse_blob_ref(s@, pos as int) is None
                    &&& e == spec_fixed_record_err(s@, pos as int, BLOB_REF_SIZE as int)
                },
            },
    {
        let (major, n, np) = match parse_cbor_header(s, pos) {
            Ok(h) => h,
            Err(e) => {
                return Err(WireFormatError::CBORError(e));
            },
        };
        if major != MAJOR_BYTES {
            return Err(WireFormatError::CBORError(Error::ExpectedString));
        }
        if n != BLOB_REF_SIZE as u64 {
            return Err(WireFormatError::InvalidSerializedData);
        }
        if s.len() - np < BLOB_REF_SIZE {
            return Err(WireFormatError::CBORError(Error::Eof));
        }
        let b = BlobRef::fixed_length_deserialize(&s[np..np + BLOB_REF_SIZE])?;
        Ok((b, np + BLOB_REF_SIZE))
    }

    /// Appends the CBOR framing and payload of this reference to `out`.
    pub fn serialize(&self, out: &mut Vec<u8>)
        ensures
            final(out)@ == old(out)@ + spec_blob_ref_bytes(self@),
    {
        encode_cbor_header(out, MAJOR_BYTES, BLOB_REF_SIZE as u64);
        self.fixed_length_serialize(out);
        assert(final(out)@ =~= old(out)@ + spec_blob_ref_bytes(self@));
    }
}

/// Decoding what a `BlobRef` encodes yields the same reference, both for
/// the bare 41-byte payload and for the CBOR-framed record.
pub proof fn lemma_blob_ref_round_trip(b: BlobRefView)
    requires
        b.wf(),
    ensures
        spec_blob_ref_payload(b).len() == BLOB_REF_SIZE,
        spec_parse_blob_ref_payload(spec_blob_ref_payload(b)) == Some(b),
        spec_blob_ref_bytes(b).len() == BLOB_REF_SIZE + 2,
        spec_parse_blob_ref(spec_blob_ref_bytes(b), 0) == Some((b, BLOB_REF_SIZE + 2int)),
{
    lemma_auto_spec_u64_to_from_le_bytes();
    let s = spec_blob_ref_payload(b);
    assert(s.len() == 41);
    assert(s.subrange(0, 8) =~= spec_u64_to_le_bytes(b.offset));
    match b.kind {
        BlobRefKindView::Local => {
            assert(s[8] == if b.compressed { 128u8 } else { 0u8 });
        },
        BlobRefKindView::Other { digest } => {
            assert(s[8] == if b.compressed { 129u8 } else { 1u8 });
            assert(s.subrange(9, 41) =~= digest);
        },
    }
    let full = spec_blob_ref_bytes(b);
    assert(spec_cbor_header(MAJOR_BYTES, BLOB_REF_SIZE as u64).len() == 2);
    assert(full.subrange(0, 2) =~= spec_cbor_header(MAJOR_BYTES, BLOB_REF_SIZE as u64));
    lemma_parse_of_cbor_header(MAJOR_BYTES, BLOB_REF_SIZE as u64, full, 0);
    assert(full.subrange(2, 43) =~= s);
}

/// Parsing starts exactly where a framed `BlobRef` was written, inside
/// any larger buffer, and yields the same reference.
pub proof fn lemma_parse_of_blob_ref(b: BlobRefView, s: Seq<u8>, pos: int)
    requires
        b.wf(),
        0 <= pos,
        pos + spec_blob_ref_bytes(b).len() <= s.len(),
        s.subrange(pos, pos + spec_blob_ref_bytes(b).len()) == spec_blob_ref_bytes(b),
    ensures
        spec_parse_blob_ref(s, pos) == Some((b, pos + spec_blob_ref_bytes(b).len())),
{
    lemma_blob_ref_round_trip(b);
    let enc = spec_blob_ref_bytes(b);
    let h = spec_cbor_header(MAJOR_BYTES, BLOB_REF_SIZE as u64);
    let p = spec_blob_ref_payload(b);
    assert(h.len() == 2);
    assert forall|i: int| 0 <= i < enc.len() implies s[pos + i] == enc[i] by {
        assert(s.subrange(pos, pos + enc.len() as int)[i] == s[pos + i]);
    }
    assert(s.subrange(pos, pos + 2) =~= h);
    lemma_parse_of_cbor_header(MAJOR_BYTES, BLOB_REF_SIZE as u64, s, pos);
    assert forall|i: int| 0 <= i < 41 implies s[pos + 2 + i] == p[i] by {
        assert(s[pos + (2 + i)] == enc[2 + i]);
        assert(enc[2 + i] == p[i]);
    }
    assert(s.subrange(pos + 2, pos + 2 + 41) =~= p);
}

/// An inode number.
pub type Ino = u64;

/// Wire size of the mode: one tag byte and a 16-byte payload.
pub const INODE_MODE_SIZE: usize = 1 + 8 + 8;

/// Wire size of the fixed inode payload.
pub const INODE_SIZE: usize = 8 + INODE_MODE_SIZE + 4 + 4 + 2 + 1 + BLOB_REF_SIZE;

/// Wire size of one framed inode record: the CBOR byte-string header of an
/// `INODE_SIZE`-byte string, then the payload.  `lemma_inode_wire_size`
/// checks the header part against the header-size rule.
pub const INODE_WIRE_SIZE: usize = 2 + INODE_SIZE;

/// The record stride is derived from the payload size: it adds exactly the
/// CBOR byte-string header for `INODE_SIZE` bytes.
pub proof fn lemma_inode_wire_size()
    ensures
        INODE_WIRE_SIZE == spec_cbor_header_size(INODE_SIZE as int) + INODE_SIZE,
{
}

/// What a filesystem object is, with the mode-specific payload.  `Dir` and
/// `Reg` carry the byte offset of their variable-length side data within
/// the same metadata blob.  `Wht` marks the inode as deleted in this layer.
#[derive(Clone, Copy, Debug, PartialEq, Eq)]
pub enum InodeMode {
    Unknown,
    Fifo,
    Chr { major: u64, minor: u64 },
    Dir { offset: u64 },
    Blk { major: u64, minor: u64 },
    Reg { offset: u64 },
    Lnk,
    Sock,
    Wht,
}

/// The wire tag of a mode.
pub open spec fn spec_mode_tag(m: InodeMode) -> u8 {
    match m {
        InodeMode::Unknown => 0,
        InodeMode::Fifo => 1,
        InodeMode::Chr { .. } => 2,
        InodeMode::Dir { .. } => 4,
        InodeMode::Blk { .. } => 6,
        InodeMode::Reg { .. } => 8,
        InodeMode::Lnk => 10,
        InodeMode::Sock => 12,
        InodeMode::Wht => 14,
    }
}

/// The fixed-stride inode record.
#[derive(Clone, Copy, Debug, PartialEq, Eq)]
pub struct Inode {
    pub ino: Ino,
    pub mode: InodeMode,
    pub uid: u32,
    pub gid: u32,
    pub permissions: u16,
    pub additional: Option<BlobRef>,
}

/// The mathematical value of an `Inode`.
pub struct InodeView {
    pub ino: Ino,
    pub mode: InodeMode,
    pub uid: u32,
    pub gid: u32,
    pub permissions: u16,
    pub additional: Option<BlobRefView>,
}

impl InodeView {
    /// A well-formed inode's side-data reference, if any, is well formed.
    pub open spec fn wf(&self) -> bool {
        match self.additional {
            Option::None => true,
            Option::Some(b) => b.wf(),
        }
    }
}

impl View for Inode {
    type V = InodeView;

    open spec fn view(&self) -> InodeView {
        InodeView {
            ino: self.ino,
            mode: self.mode,
            uid: self.uid,
            gid: self.gid,
            permissions: self.permissions,
            additional: match self.additional {
                Option::None => None,
                Option::Some(b) => Some(b@),
            },
        }
    }
}

/// The view of every executable `Inode` is well formed.
pub proof fn lemma_inode_view_wf(i: Inode)
    ensures
        i@.wf(),
{
    match i.additional {
        Option::None => {},
        Option::Some(b) => {
            lemma_blob_ref_view_wf(b);
        },
    }
}

/// Two `Inode`s with the same view are the same record.
pub proof fn lemma_inode_view_injective(a: Inode, b: Inode)
    requires
        a@ == b@,
    ensures
        a == b,
{
    match (a.additional, b.additional) {
        (Option::Some(x), Option::Some(y)) => {
            lemma_blob_ref_view_injective(x, y);
        },
        _ => {},
    }
}

/// The mode encoded by tag byte `s[8]` and the 16-byte payload at `s[9..25]`.
pub open spec fn spec_parse_mode(s: Seq<u8>) -> Option<InodeMode> {
    let tag = s[8];
    if tag == 0 {
        Some(InodeMode::Unknown)
    } else if tag == 1 {
        Some(InodeMode::Fifo)
    } else if tag == 2 {
        Some(
            InodeMode::Chr {
                major: spec_u64_from_le_bytes(s.subrange(9, 17)),
                minor: spec_u64_from_le_bytes(s.subrange(17, 25)),
            },
        )
    } else if tag == 4 {
        Some(InodeMode::Dir { offset: spec_u64_from_le_bytes(s.subrange(9, 17)) })
    } else if tag == 6 {
        Some(
            InodeMode::Blk {
                major: spec_u64_from_le_bytes(s.subrange(9, 17)),
                minor: spec_u64_from_le_bytes(s.subrange(17, 25)),
            },
        )
    } else if tag == 8 {
        Some(InodeMode::Reg { offset: spec_u64_from_le_bytes(s.subrange(9, 17)) })
    } else if tag == 10 {
        Some(InodeMode::Lnk)
    } else if tag == 12 {
        Some(InodeMode::Sock)
    } else if tag == 14 {
        Some(InodeMode::Wht)
    } else {
        None
    }
}

/// Reads a 77-byte inode payload; `None` when the length is wrong, the
/// mode tag is unknown, or the side-data reference is malformed.
pub open spec fn spec_parse_inode_payload(s: Seq<u8>) -> Option<InodeView> {
    if s.len() != INODE_SIZE {
        None
    } else {
        match spec_parse_mode(s) {
            Option::None => None,
            Option::Some(mode) => {
                let ino = spec_u64_from_le_bytes(s.subrange(0, 8));
                let uid = spec_u32_from_le_bytes(s.subrange(25, 29));
                let gid = spec_u32_from_le_bytes(s.subrange(29, 33));
                let permissions = spec_u16_from_le_bytes(s.subrange(33, 35));
                if s[35] == 0 {
                    Some(InodeView { ino, mode, uid, gid, permissions, additional: None })
                } else {
                    match spec_parse_blob_ref_payload(s.subrange(36, 77)) {
                        Option::None => None,
                        Option::Some(b) => Some(
                            InodeView { ino, mode, uid, gid, permissions, additional: Some(b) },
                        ),
                    }
                }
            },
        }
    }
}

/// The 16-byte mode payload an inode writes: device numbers, a side-data
/// offset, or zeroes.
pub open spec fn spec_mode_payload(m: InodeMode) -> Seq<u8> {
    match m {
        InodeMode::Chr { major, minor } => spec_u64_to_le_bytes(major) + spec_u64_to_le_bytes(
            minor,
        ),
        InodeMode::Blk { major, minor } => spec_u64_to_le_bytes(major) + spec_u64_to_le_bytes(
            minor,
        ),
        InodeMode::Dir { offset } => spec_u64_to_le_bytes(offset) + Seq::new(8, |i: int| 0u8),
        InodeMode::Reg { offset } => spec_u64_to_le_bytes(offset) + Seq::new(8, |i: int| 0u8),
        _ => Seq::new(16, |i: int| 0u8),
    }
}

/// The 77-byte payload an inode writes.
pub open spec fn spec_inode_payload(i: InodeView) -> Seq<u8> {
    spec_u64_to_le_bytes(i.ino) + seq![spec_mode_tag(i.mode)] + spec_mode_payload(i.mode)
        + spec_u32_to_le_bytes(i.uid) + spec_u32_to_le_bytes(i.gid) + spec_u16_to_le_bytes(
        i.permissions,
    ) + (match i.additional {
        Option::None => seq![0u8] + Seq::new(BLOB_REF_SIZE as nat, |j: int| 0u8),
        Option::Some(b) => seq![1u8] + spec_blob_ref_payload(b),
    })
}

/// Reads a CBOR-framed inode record at `pos`: a byte string of exactly 77
/// bytes holding the fixed payload.
pub open spec fn spec_parse_inode(s: Seq<u8>, pos: int) -> Option<(InodeView, int)> {
    match spec_parse_header(s, pos) {
        Option::None => None,
        Option::Some((major, n, np)) => {
            if major != MAJOR_BYTES || n != INODE_SIZE || np + INODE_SIZE > s.len() {
                None
            } else {
                match spec_parse_inode_payload(s.subrange(np, np + INODE_SIZE)) {
                    Option::None => None,
                    Option::Some(i) => Some((i, np + INODE_SIZE)),
                }
            }
        },
    }
}

/// The CBOR framing of an inode record: a byte-string header and the
/// 77-byte payload.
pub open spec fn spec_inode_bytes(i: InodeView) -> Seq<u8> {
    spec_cbor_header(MAJOR_BYTES, INODE_SIZE as u64) + spec_inode_payload(i)
}

/// Appends `n` zero bytes to `out`.
fn push_zeros(out: &mut Vec<u8>, n: usize)
    ensures
        final(out)@ == old(out)@ + Seq::new(n as nat, |i: int| 0u8),
{
    let mut i: usize = 0;
    while i < n
        invariant
            i <= n,
            out@ =~= old(out)@ + Seq::new(i as nat, |j: int| 0u8),
        decreases n - i,
    {
        out.push(0);
        assert(out@ =~= old(out)@ + Seq::new((i + 1) as nat, |j: int| 0u8));
        i += 1;
    }
    assert(final(out)@ =~= old(out)@ + Seq::new(n as nat, |i: int| 0u8));
}

impl Inode {
    /// Decodes the 77-byte fixed payload of an inode record.  An unknown
    /// mode tag or a malformed side-data reference is malformed data.
    pub fn fixed_length_deserialize(state: &[u8]) -> (r: Result<Inode, WireFormatError>)
        requires
            state@.len() == INODE_SIZE,
        ensures
            match r {
                Ok(i) => spec_parse_inode_payload(state@) == Some(i@),
                Err(e) => {
                    &&& spec_parse_inode_payload(state@) is None
                    &&& e == WireFormatError::InvalidSerializedData
                },
            },
    {
        let tag = state[8];
        let mode = if tag == 0 {
            InodeMode::Unknown
        } else if tag == 1 {
            InodeMode::Fifo
        } else if tag == 2 {
            let major = u64_from_le_bytes(&state[9..17]);
            let minor = u64_from_le_bytes(&state[17..25]);
            InodeMode::Chr { major, minor }
        } else if tag == 4 {
            let offset = u64_from_le_bytes(&state[9..17]);
            InodeMode::Dir { offset }
        } else if tag == 6 {
            let major = u64_from_le_bytes(&state[9..17]);
            let minor = u64_from_le_bytes(&state[17..25]);
            InodeMode::Blk { major, minor }
        } else if tag == 8 {
            let offset = u64_from_le_bytes(&state[9..17]);
            InodeMode::Reg { offset }
        } else if tag == 10 {
            InodeMode::Lnk
        } else if tag == 12 {
            InodeMode::Sock
        } else if tag == 14 {
            InodeMode::Wht
        } else {
            return Err(WireFormatError::InvalidSerializedData);
        };
        let additional = if state[35] > 0 {
            Some(BlobRef::fixed_length_deserialize(&state[36..77])?)
        } else {
            None
        };
        Ok(
            Inode {
                ino: u64_from_le_bytes(&state[0..8]),
                mode,
                uid: u32_from_le_bytes(&state[25..29]),
                gid: u32_from_le_bytes(&state[29..33]),
                permissions: u16_from_le_bytes(&state[33..35]),
                additional,
            },
        )
    }

    /// Appends the 77-byte fixed payload of this record to `out`.
    #[verifier::rlimit(60)]
    #[verifier::spinoff_prover]
    pub fn fixed_length_serialize(&self, out: &mut Vec<u8>)
        ensures
            final(out)@ == old(out)@ + spec_inode_payload(self@),
    {
        let mut le = u64_to_le_bytes(self.ino);
        out.append(&mut le);
        match self.mode {
            InodeMode::Unknown => out.push(0),
            InodeMode::Fifo => out.push(1),
            InodeMode::Chr { .. } => out.push(2),
            InodeMode::Dir { .. } => out.push(4),
            InodeMode::Blk { .. } => out.push(6),
            InodeMode::Reg { .. } => out.push(8),
            InodeMode::Lnk => out.push(10),
            InodeMode::Sock => out.push(12),
            InodeMode::Wht => out.push(14),
        }
        match self.mode {
            InodeMode::Chr { major, minor } => {
                let mut a = u64_to_le_bytes(major);
                out.append(&mut a);
                let mut b = u64_to_le_bytes(minor);
                out.append(&mut b);
            },
            InodeMode::Blk { major, minor } => {
                let mut a = u64_to_le_bytes(major);
                out.append(&mut a);
                let mut b = u64_to_le_bytes(minor);
                out.append(&mut b);
            },
            InodeMode::Dir { offset } => {
                let mut a = u64_to_le_bytes(offset);
                out.append(&mut a);
                push_zeros(out, 8);
            },
            InodeMode::Reg { offset } => {
                let mut a = u64_to_le_bytes(offset);
                out.append(&mut a);
                push_zeros(out, 8);
            },
            _ => push_zeros(out, 16),
        }
        let mut u = u32_to_le_bytes(self.uid);
        out.append(&mut u);
        let mut g = u32_to_le_bytes(self.gid);
        out.append(&mut g);
        let mut p = u16_to_le_bytes(self.permissions);
        out.append(&mut p);
        match self.additional {
            Option::None => {
                out.push(0);
                push_zeros(out, BLOB_REF_SIZE);
            },
            Option::Some(b) => {
                out.push(1);
                b.fixed_length_serialize(out);
            },
        }
        assert(final(out)@ =~= old(out)@ + spec_inode_payload(self@));
    }

    /// Decodes a CBOR-framed inode record at `pos`; trailing bytes after
    /// the record are left alone.
    pub fn deserialize(s: &[u8], pos: usize) -> (r: Result<(Inode, usize), WireFormatError>)
        ensures
            match r {
                Ok((i, np)) => {
                    &&& spec_parse_inode(s@, pos as int) == Some((i@, np as int))
                    &&& pos < np <= s@.len()
                },
                Err(e) => {
                    &&& spec_parse_inode(s@, pos as int) is None
                    &&& e == spec_fixed_record_err(s@, pos as int, INODE_SIZE as int)
                },
            },
    {
        let (major, n, np) = match parse_cbor_header(s, pos) {
            Ok(h) => h,
            Err(e) => {
                return Err(WireFormatError::CBORError(e));
            },
        };
        if major != MAJOR_BYTES {
            return Err(WireFormatError::CBORError(Error::ExpectedString));
        }
        if n != INODE_SIZE as u64 {
            return Err(WireFormatError::InvalidSerializedData);
        }
        if s.len() - np < INODE_SIZE {
            return Err(WireFormatError::CBORError(Error::Eof));
        }
        let i = Inode::fixed_length_deserialize(&s[np..np + INODE_SIZE])?;
        Ok((i, np + INODE_SIZE))
    }

    /// Appends the CBOR framing and payload of this record to `out`.  The
    /// framed record is exactly `INODE_WIRE_SIZE` bytes.
    pub fn serialize(&self, out: &mut Vec<u8>)
        ensures
            final(out)@ == old(out)@ + spec_inode_bytes(self@),
            final(out)@.len() == old(out)@.len() + INODE_WIRE_SIZE,
    {
        encode_cbor_header(out, MAJOR_BYTES, INODE_SIZE as u64);
        self.fixed_length_serialize(out);
        proof {
            lemma_auto_spec_u64_to_from_le_bytes();
            lemma_auto_spec_u32_to_from_le_bytes();
            lemma_auto_spec_u16_to_from_le_bytes();
            assert(spec_mode_payload(self@.mode).len() == 16);
            assert(spec_inode_payload(self@).len() == 77);
            assert(final(out)@ =~= old(out)@ + spec_inode_bytes(self@));
        }
    }
}

/// Decoding what an `Inode` encodes yields the same record, and the framed
/// record is exactly `INODE_WIRE_SIZE` bytes long.
#[verifier::rlimit(60)]
#[verifier::spinoff_prover]
pub proof fn lemma_inode_round_trip(i: InodeView)
    requires
        i.wf(),
    ensures
        spec_inode_payload(i).len() == INODE_SIZE,
        spec_parse_inode_payload(spec_inode_payload(i)) == Some(i),
        spec_inode_bytes(i).len() == INODE_WIRE_SIZE,
        spec_parse_inode(spec_inode_bytes(i), 0) == Some((i, INODE_WIRE_SIZE as int)),
{
    lemma_auto_spec_u64_to_from_le_bytes();
    lemma_auto_spec_u32_to_from_le_bytes();
    lemma_auto_spec_u16_to_from_le_bytes();
    let s = spec_inode_payload(i);
    assert(spec_mode_payload(i.mode).len() == 16);
    assert(s.len() == 77);
    assert(s.subrange(0, 8) =~= spec_u64_to_le_bytes(i.ino));
    assert(s[8] == spec_mode_tag(i.mode));
    assert(s.subrange(9, 25) =~= spec_mode_payload(i.mode));
    assert(s.subrange(25, 29) =~= spec_u32_to_le_bytes(i.uid));
    assert(s.subrange(29, 33) =~= spec_u32_to_le_bytes(i.gid));
    assert(s.subrange(33, 35) =~= spec_u16_to_le_bytes(i.permissions));
    match i.mode {
        InodeMode::Chr { major, minor } => {
            assert(s.subrange(9, 17) =~= spec_u64_to_le_bytes(major));
            assert(s.subrange(17, 25) =~= spec_u64_to_le_bytes(minor));
        },
        InodeMode::Blk { major, minor } => {
            assert(s.subrange(9, 17) =~= spec_u64_to_le_bytes(major));
            assert(s.subrange(17, 25) =~= spec_u64_to_le_bytes(minor));
        },
        InodeMode::Dir { offset } => {
            assert(s.subrange(9, 17) =~= spec_u64_to_le_bytes(offset));
        },
        InodeMode::Reg { offset } => {
            assert(s.subrange(9, 17) =~= spec_u64_to_le_bytes(offset));
        },
        _ => {},
    }
    assert(spec_parse_mode(s) == Some(i.mode));
    match i.additional {
        Option::None => {
            assert(s[35] == 0);
        },
        Option::Some(b) => {
            assert(s[35] == 1);
            assert(s.subrange(36, 77) =~= spec_blob_ref_payload(b));
            lemma_blob_ref_round_trip(b);
        },
    }
    assert(spec_parse_inode_payload(s) == Some(i));
    let full = spec_inode_bytes(i);
    assert(spec_cbor_header(MAJOR_BYTES, INODE_SIZE as u64).len() == 2);
    assert(full.subrange(0, 2) =~= spec_cbor_header(MAJOR_BYTES, INODE_SIZE as u64));
    lemma_parse_of_cbor_header(MAJOR_BYTES, INODE_SIZE as u64, full, 0);
    assert(full.subrange(2, 79) =~= s);
}

impl Digest {
    /// The digest a blob reference names.  A `Local` reference points into
    /// its own metadata blob and names no digest.
    pub fn from_blob_ref(v: &BlobRef) -> (r: Result<Digest, WireFormatError>)
        ensures
            match r {
                Ok(d) => match v@.kind {
                    BlobRefKindView::Other { digest } => d@ == digest,
                    BlobRefKindView::Local => false,
                },
                Err(e) => {
                    &&& v@.kind is Local
                    &&& e == WireFormatError::LocalRefError
                },
            },
    {
        match v.kind {
            BlobRefKind::Other { digest } => Ok(Digest::new(digest)),
            BlobRefKind::Local => Err(WireFormatError::LocalRefError),
        }
    }
}

} // verus!
