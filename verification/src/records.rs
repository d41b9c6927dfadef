//! The variable-length side data of a metadata blob, and the root
//! manifest.
//!
//! Each record is a CBOR map whose keys are the field names, in
//! declaration order.  Byte data (file names, symlink targets, extended
//! attributes) is carried as CBOR byte strings, lists as CBOR arrays,
//! absent optional values as `null`.  A decoder reads exactly one value
//! and leaves trailing bytes alone, so the records can sit inside a larger
//! buffer and be addressed by byte offset.

use vstd::prelude::*;
use vstd::string::StringSliceAdditionalSpecFns;
use crate::cbor::{spec_cbor_header, spec_parse_uint, spec_parse_array_header,
    spec_parse_map_header, spec_parse_key, spec_parse_bool, spec_parse_null, spec_cbor_key,
    spec_cbor_bool, spec_cbor_null, spec_parse_bytes, spec_cbor_bytes, parse_cbor_uint,
    parse_cbor_array_header, parse_cbor_map_header, parse_cbor_key, parse_cbor_bool,
    parse_cbor_null, parse_cbor_bytes, encode_cbor_header, encode_cbor_key, encode_cbor_bytes,
    lemma_parse_of_cbor_header, lemma_parse_of_cbor_key, lemma_parse_of_cbor_bytes,
    lemma_parse_of_cbor_bool, lemma_parse_of_cbor_null, MAJOR_UINT, MAJOR_ARRAY, MAJOR_MAP};
use crate::types::{BlobRef, BlobRefView, spec_parse_blob_ref, spec_blob_ref_bytes, Ino};
use crate::error::{Error, WireFormatError, is_decode_error};

verus! {

/// One contiguous piece of a file's contents: where the bytes live, and
/// how many of them the chunk contributes.
#[derive(Clone, Copy, Debug, PartialEq, Eq)]
pub struct FileChunk {
    pub blob: BlobRef,
    pub len: u64,
}

/// The mathematical value of a `FileChunk`.
pub struct FileChunkView {
    pub blob: BlobRefView,
    pub len: u64,
}

impl View for FileChunk {
    type V = FileChunkView;

    open spec fn view(&self) -> FileChunkView {
        FileChunkView { blob: self.blob@, len: self.len }
    }
}

/// The views of a sequence of chunks.
pub open spec fn spec_chunk_views(s: Seq<FileChunk>) -> Seq<FileChunkView> {
    Seq::new(s.len(), |i: int| s[i]@)
}

/// The ordered chunk list of a regular file; concatenating the chunk
/// bodies yields the file's contents.
#[derive(Debug, PartialEq, Eq)]
pub struct FileChunkList {
    pub chunks: Vec<FileChunk>,
}

impl View for FileChunkList {
    type V = Seq<FileChunkView>;

    open spec fn view(&self) -> Seq<FileChunkView> {
        spec_chunk_views(self.chunks@)
    }
}

/// Reads one chunk at `pos`: a map of `blob` (a framed `BlobRef`) and
/// `len` (an unsigned integer).
pub open spec fn spec_parse_file_chunk(s: Seq<u8>, pos: int) -> Option<(FileChunkView, int)> {
    match spec_parse_map_header(s, pos) {
        Option::None => None,
        Option::Some((n, p1)) => {
            if n != 2 {
                None
            } else {
                match spec_parse_key(s, p1, "blob".spec_bytes()) {
                    Option::None => None,
                    Option::Some(p2) => match spec_parse_blob_ref(s, p2) {
                        Option::None => None,
                        Option::Some((blob, p3)) => match spec_parse_key(
                            s,
                            p3,
                            "len".spec_bytes(),
                        ) {
                            Option::None => None,
                            Option::Some(p4) => match spec_parse_uint(s, p4) {
                                Option::None => None,
                                Option::Some((len, p5)) => Some((FileChunkView { blob, len }, p5)),
                            },
                        },
                    },
                }
            }
        },
    }
}

/// Reads `n` consecutive chunks starting at `pos`.
pub open spec fn spec_parse_file_chunks_n(s: Seq<u8>, pos: int, n: nat) -> Option<
    (Seq<FileChunkView>, int),
>
    decreases n,
{
    if n == 0 {
        Some((Seq::empty(), pos))
    } else {
        match spec_parse_file_chunk(s, pos) {
            Option::None => None,
            Option::Some((c, np)) => match spec_parse_file_chunks_n(s, np, (n - 1) as nat) {
                Option::None => None,
                Option::Some((rest, end)) => Some((seq![c] + rest, end)),
            },
        }
    }
}

/// Reads a chunk list at `pos`: a map of one key, `chunks`, holding an
/// array of chunks.
pub open spec fn spec_parse_file_chunk_list(s: Seq<u8>, pos: int) -> Option<
    (Seq<FileChunkView>, int),
> {
    match spec_parse_map_header(s, pos) {
        Option::None => None,
        Option::Some((n, p1)) => {
            if n != 1 {
                None
            } else {
                match spec_parse_key(s, p1, "chunks".spec_bytes()) {
                    Option::None => None,
                    Option::Some(p2) => match spec_parse_array_header(s, p2) {
                        Option::None => None,
                        Option::Some((count, p3)) => spec_parse_file_chunks_n(s, p3, count as nat),
                    },
                }
            }
        },
    }
}

/// The canonical encoding of one chunk.
pub open spec fn spec_file_chunk_bytes(c: FileChunkView) -> Seq<u8> {
    spec_cbor_header(MAJOR_MAP, 2) + spec_cbor_key("blob".spec_bytes()) + spec_blob_ref_bytes(
        c.blob,
    ) + spec_cbor_key("len".spec_bytes()) + spec_cbor_header(MAJOR_UINT, c.len)
}

/// The canonical encoding of the chunks from index `i` on.
pub open spec fn spec_file_chunks_bytes_from(cs: Seq<FileChunkView>, i: int) -> Seq<u8>
    decreases cs.len() - i,
{
    if i < 0 || i >= cs.len() {
        Seq::empty()
    } else {
        spec_file_chunk_bytes(cs[i]) + spec_file_chunks_bytes_from(cs, i + 1)
    }
}

/// The canonical encoding of a chunk list.
pub open spec fn spec_file_chunk_list_bytes(cs: Seq<FileChunkView>) -> Seq<u8> {
    spec_cbor_header(MAJOR_MAP, 1) + spec_cbor_key("chunks".spec_bytes()) + spec_cbor_header(
        MAJOR_ARRAY,
        cs.len() as u64,
    ) + spec_file_chunks_bytes_from(cs, 0)
}

/// `spec_parse_file_chunks_n` reads one chunk and then the rest.
proof fn lemma_file_chunks_n_peel(s: Seq<u8>, pos: int, n: nat)
    requires
        n > 0,
    ensures
        spec_parse_file_chunks_n(s, pos, n) == (match spec_parse_file_chunk(s, pos) {
            Option::None => None::<(Seq<FileChunkView>, int)>,
            Option::Some((c, np)) => match spec_parse_file_chunks_n(s, np, (n - 1) as nat) {
                Option::None => None,
                Option::Some((rest, end)) => Some((seq![c] + rest, end)),
            },
        }),
{
}

/// Parsing starts exactly where a canonical chunk was written, inside
/// any larger buffer, and yields the same chunk.
#[verifier::rlimit(100)]
#[verifier::spinoff_prover]
pub proof fn lemma_parse_of_file_chunk(c: FileChunkView, s: Seq<u8>, pos: int)
    requires
        c.blob.wf(),
        0 <= pos,
        pos + spec_file_chunk_bytes(c).len() <= s.len(),
        s.subrange(pos, pos + spec_file_chunk_bytes(c).len()) == spec_file_chunk_bytes(c),
    ensures
        spec_parse_file_chunk(s, pos) == Some((c, pos + spec_file_chunk_bytes(c).len())),
{
    reveal_strlit("blob");
    reveal_strlit("len");
    assert(vstd::string::is_ascii("blob"));
    assert(vstd::string::is_ascii("len"));
    vstd::string::is_ascii_spec_bytes("blob");
    vstd::string::is_ascii_spec_bytes("len");
    let enc = spec_file_chunk_bytes(c);
    let a = spec_cbor_header(MAJOR_MAP, 2);
    let k1 = spec_cbor_key("blob".spec_bytes());
    let cb = spec_blob_ref_bytes(c.blob);
    let k2 = spec_cbor_key("len".spec_bytes());
    let e = spec_cbor_header(MAJOR_UINT, c.len);
    assert(a.len() == 1);
    assert("blob".spec_bytes().len() == 4);
    assert("len".spec_bytes().len() == 3);
    assert(k1.len() == 5);
    assert(k2.len() == 4);
    crate::types::lemma_blob_ref_round_trip(c.blob);
    assert(cb.len() == 43);
    assert forall|i: int| 0 <= i < enc.len() implies s[pos + i] == enc[i] by {
        assert(s.subrange(pos, pos + enc.len() as int)[i] == s[pos + i]);
    }
    assert forall|i: int| 0 <= i < 1 implies s[pos + i] == a[i] by {
        assert(enc[i] == a[i]);
    }
    assert(s.subrange(pos, pos + 1) =~= a);
    lemma_parse_of_cbor_header(MAJOR_MAP, 2, s, pos);
    assert forall|i: int| 0 <= i < 5 implies s[pos + 1 + i] == k1[i] by {
        assert(s[pos + (1 + i)] == enc[1 + i]);
        assert(enc[1 + i] == k1[i]);
    }
    assert(s.subrange(pos + 1, pos + 1 + 5) =~= k1);
    lemma_parse_of_cbor_key("blob".spec_bytes(), s, pos + 1);
    assert forall|i: int| 0 <= i < 43 implies s[pos + 6 + i] == cb[i] by {
        assert(s[pos + (6 + i)] == enc[6 + i]);
        assert(enc[6 + i] == cb[i]);
    }
    assert(s.subrange(pos + 6, pos + 6 + 43) =~= cb);
    crate::types::lemma_parse_of_blob_ref(c.blob, s, pos + 6);
    assert forall|i: int| 0 <= i < 4 implies s[pos + 49 + i] == k2[i] by {
        assert(s[pos + (49 + i)] == enc[49 + i]);
        assert(enc[49 + i] == k2[i]);
    }
    assert(s.subrange(pos + 49, pos + 49 + 4) =~= k2);
    lemma_parse_of_cbor_key("len".spec_bytes(), s, pos + 49);
    assert forall|i: int| 0 <= i < e.len() implies s[pos + 53 + i] == e[i] by {
        assert(s[pos + (53 + i)] == enc[53 + i]);
        assert(enc[53 + i] == e[i]);
    }
    assert(s.subrange(pos + 53, pos + 53 + e.len() as int) =~= e);
    lemma_parse_of_cbor_header(MAJOR_UINT, c.len, s, pos + 53);
    assert(enc.len() == 53 + e.len());
}

/// Parsing starts exactly where the canonical encoding of the chunks
/// from index `i` on was written, and yields exactly those chunks.
#[verifier::rlimit(100)]
#[verifier::spinoff_prover]
proof fn lemma_parse_of_file_chunks_from(cs: Seq<FileChunkView>, i: int, s: Seq<u8>, pos: int)
    requires
        forall|k: int| 0 <= k < cs.len() ==> (#[trigger] cs[k]).blob.wf(),
        0 <= i <= cs.len(),
        0 <= pos,
        pos + spec_file_chunks_bytes_from(cs, i).len() <= s.len(),
        s.subrange(pos, pos + spec_file_chunks_bytes_from(cs, i).len())
            == spec_file_chunks_bytes_from(cs, i),
    ensures
        spec_parse_file_chunks_n(s, pos, (cs.len() - i) as nat) == Some(
            (cs.skip(i), pos + spec_file_chunks_bytes_from(cs, i).len()),
        ),
    decreases cs.len() - i,
{
    if i == cs.len() {
        assert(cs.skip(i) =~= Seq::<FileChunkView>::empty());
    } else {
        let whole = spec_file_chunks_bytes_from(cs, i);
        let head = spec_file_chunk_bytes(cs[i]);
        let rest = spec_file_chunks_bytes_from(cs, i + 1);
        assert(whole == head + rest);
        assert forall|j: int| 0 <= j < whole.len() implies s[pos + j] == whole[j] by {
            assert(s.subrange(pos, pos + whole.len() as int)[j] == s[pos + j]);
        }
        assert forall|j: int| 0 <= j < head.len() implies s[pos + j] == head[j] by {
            assert(whole[j] == head[j]);
        }
        assert(s.subrange(pos, pos + head.len() as int) =~= head);
        lemma_parse_of_file_chunk(cs[i], s, pos);
        assert forall|j: int| 0 <= j < rest.len() implies s[pos + head.len() + j] == rest[j] by {
            assert(s[pos + (head.len() + j)] == whole[head.len() + j]);
            assert(whole[head.len() + j] == rest[j]);
        }
        assert(s.subrange(pos + head.len(), pos + head.len() + rest.len() as int) =~= rest);
        lemma_parse_of_file_chunks_from(cs, i + 1, s, pos + head.len() as int);
        lemma_file_chunks_n_peel(s, pos, (cs.len() - i) as nat);
        assert(seq![cs[i]] + cs.skip(i + 1) =~= cs.skip(i));
    }
}

/// Decoding the bytes a chunk list encodes yields the same list.
#[verifier::rlimit(100)]
#[verifier::spinoff_prover]
pub proof fn lemma_file_chunk_list_round_trip(cs: Seq<FileChunkView>)
    requires
        forall|k: int| 0 <= k < cs.len() ==> (#[trigger] cs[k]).blob.wf(),
        cs.len() <= u64::MAX,
    ensures
        spec_parse_file_chunk_list(spec_file_chunk_list_bytes(cs), 0) == Some(
            (cs, spec_file_chunk_list_bytes(cs).len() as int),
        ),
{
    reveal_strlit("chunks");
    assert(vstd::string::is_ascii("chunks"));
    vstd::string::is_ascii_spec_bytes("chunks");
    let s = spec_file_chunk_list_bytes(cs);
    let a = spec_cbor_header(MAJOR_MAP, 1);
    let k = spec_cbor_key("chunks".spec_bytes());
    let h = spec_cbor_header(MAJOR_ARRAY, cs.len() as u64);
    let body = spec_file_chunks_bytes_from(cs, 0);
    assert(a.len() == 1);
    assert("chunks".spec_bytes().len() == 6);
    assert(k.len() == 7);
    assert(s.subrange(0, s.len() as int) =~= s);
    assert(s.subrange(0int, 1int) =~= a);
    lemma_parse_of_cbor_header(MAJOR_MAP, 1, s, 0);
    assert(s.subrange(1, 8) =~= k);
    lemma_parse_of_cbor_key("chunks".spec_bytes(), s, 1);
    assert(s.subrange(8, 8 + h.len() as int) =~= h);
    lemma_parse_of_cbor_header(MAJOR_ARRAY, cs.len() as u64, s, 8);
    let bp = 8 + h.len() as int;
    assert(s.subrange(bp, bp + body.len() as int) =~= body);
    lemma_parse_of_file_chunks_from(cs, 0, s, bp);
    assert(cs.skip(0) =~= cs);
}

/// Decodes one chunk at `pos`.
pub fn parse_file_chunk(s: &[u8], pos: usize) -> (r: Result<(FileChunk, usize), WireFormatError>)
    ensures
        match r {
            Ok((c, np)) => {
                &&& spec_parse_file_chunk(s@, pos as int) == Some((c@, np as int))
                &&& pos < np <= s@.len()
            },
            Err(e) => spec_parse_file_chunk(s@, pos as int) is None && is_decode_error(e),
        },
{
    let (n, p1) = match parse_cbor_map_header(s, pos) {
        Ok(h) => h,
        Err(e) => {
            return Err(WireFormatError::CBORError(e));
        },
    };
    if n != 2 {
        return Err(WireFormatError::CBORError(Error::Syntax));
    }
    let p2 = match parse_cbor_key(s, p1, "blob") {
        Ok(p) => p,
        Err(e) => {
            return Err(WireFormatError::CBORError(e));
        },
    };
    let (blob, p3) = BlobRef::deserialize(s, p2)?;
    let p4 = match parse_cbor_key(s, p3, "len") {
        Ok(p) => p,
        Err(e) => {
            return Err(WireFormatError::CBORError(e));
        },
    };
    let (len, p5) = match parse_cbor_uint(s, p4) {
        Ok(h) => h,
        Err(e) => {
            return Err(WireFormatError::CBORError(e));
        },
    };
    Ok((FileChunk { blob, len }, p5))
}

/// Decodes `count` consecutive chunks starting at `pos`.
fn parse_file_chunks_n(s: &[u8], pos: usize, count: u64) -> (r: Result<
    (Vec<FileChunk>, usize),
    WireFormatError,
>)
    requires
        pos <= s@.len(),
    ensures
        match r {
            Ok((v, np)) => {
                &&& spec_parse_file_chunks_n(s@, pos as int, count as nat) == Some(
                    (spec_chunk_views(v@), np as int),
                )
                &&& np <= s@.len()
                &&& pos <= np
            },
            Err(e) => spec_parse_file_chunks_n(s@, pos as int, count as nat) is None
                && is_decode_error(e),
        },
{
    let mut v: Vec<FileChunk> = Vec::new();
    let mut cur = pos;
    let mut k: u64 = 0;
    while k < count
        invariant
            k <= count,
            pos <= cur <= s@.len(),
            spec_chunk_views(v@).len() == k,
            match spec_parse_file_chunks_n(s@, cur as int, (count - k) as nat) {
                Option::Some((rest, end)) => spec_parse_file_chunks_n(
                    s@,
                    pos as int,
                    count as nat,
                ) == Some((spec_chunk_views(v@) + rest, end)),
                Option::None => spec_parse_file_chunks_n(s@, pos as int, count as nat) is None,
            },
        decreases count - k,
    {
        proof {
            lemma_file_chunks_n_peel(s@, cur as int, (count - k) as nat);
        }
        let (c, np) = match parse_file_chunk(s, cur) {
            Ok(h) => h,
            Err(e) => {
                return Err(e);
            },
        };
        let ghost m = (count - k) as nat;
        v.push(c);
        proof {
            let prev = v@.drop_last();
            assert(spec_chunk_views(v@) =~= spec_chunk_views(prev) + seq![c@]);
            match spec_parse_file_chunks_n(s@, np as int, (m - 1) as nat) {
                Option::Some((rest, end)) => {
                    assert((spec_chunk_views(prev) + (seq![c@] + rest)) =~= (spec_chunk_views(v@)
                        + rest));
                },
                Option::None => {},
            }
        }
        cur = np;
        k = k + 1;
    }
    proof {
        assert(spec_parse_file_chunks_n(s@, cur as int, 0) == Some(
            (Seq::<FileChunkView>::empty(), cur as int),
        ));
        assert(spec_chunk_views(v@) + Seq::<FileChunkView>::empty() =~= spec_chunk_views(v@));
    }
    Ok((v, cur))
}

/// Decodes a chunk list at `pos`; trailing bytes after the value are left
/// alone.
pub fn parse_file_chunk_list(s: &[u8], pos: usize) -> (r: Result<
    (FileChunkList, usize),
    WireFormatError,
>)
    ensures
        match r {
            Ok((cl, np)) => {
                &&& spec_parse_file_chunk_list(s@, pos as int) == Some((cl@, np as int))
                &&& np <= s@.len()
            },
            Err(e) => spec_parse_file_chunk_list(s@, pos as int) is None && is_decode_error(e),
        },
{
    let (n, p1) = match parse_cbor_map_header(s, pos) {
        Ok(h) => h,
        Err(e) => {
            return Err(WireFormatError::CBORError(e));
        },
    };
    if n != 1 {
        return Err(WireFormatError::CBORError(Error::Syntax));
    }
    let p2 = match parse_cbor_key(s, p1, "chunks") {
        Ok(p) => p,
        Err(e) => {
            return Err(WireFormatError::CBORError(e));
        },
    };
    let (count, p3) = match parse_cbor_array_header(s, p2) {
        Ok(h) => h,
        Err(e) => {
            return Err(WireFormatError::CBORError(e));
        },
    };
    let (chunks, end) = parse_file_chunks_n(s, p3, count)?;
    Ok((FileChunkList { chunks }, end))
}

/// Appends the canonical encoding of one chunk to `out`.
pub fn encode_file_chunk(c: &FileChunk, out: &mut Vec<u8>)
    ensures
        final(out)@ == old(out)@ + spec_file_chunk_bytes(c@),
{
    encode_cbor_header(out, MAJOR_MAP, 2);
    encode_cbor_key(out, "blob");
    c.blob.serialize(out);
    encode_cbor_key(out, "len");
    encode_cbor_header(out, MAJOR_UINT, c.len);
    assert(final(out)@ =~= old(out)@ + spec_file_chunk_bytes(c@));
}

/// Appends the canonical encoding of a chunk list to `out`.
#[verifier::rlimit(50)]
#[verifier::spinoff_prover]
pub fn encode_file_chunk_list(cl: &FileChunkList, out: &mut Vec<u8>)
    ensures
        final(out)@ == old(out)@ + spec_file_chunk_list_bytes(cl@),
{
    encode_cbor_header(out, MAJOR_MAP, 1);
    encode_cbor_key(out, "chunks");
    encode_cbor_header(out, MAJOR_ARRAY, cl.chunks.len() as u64);
    let ghost prefix = out@;
    let mut i: usize = 0;
    while i < cl.chunks.len()
        invariant
            i <= cl.chunks@.len(),
            out@ + spec_file_chunks_bytes_from(cl@, i as int) =~= prefix
                + spec_file_chunks_bytes_from(cl@, 0),
            cl@.len() == cl.chunks@.len(),
            cl@ == spec_chunk_views(cl.chunks@),
        decreases cl.chunks@.len() - i,
    {
        proof {
            assert(spec_file_chunks_bytes_from(cl@, i as int) == spec_file_chunk_bytes(
                cl@[i as int],
            ) + spec_file_chunks_bytes_from(cl@, i as int + 1));
            assert(cl@[i as int] == cl.chunks@[i as int]@);
        }
        encode_file_chunk(&cl.chunks[i], out);
        i += 1;
    }
    assert(final(out)@ =~= old(out)@ + spec_file_chunk_list_bytes(cl@));
}

/// One directory entry: the name of the child and its inode number.
#[derive(Debug, PartialEq, Eq)]
pub struct DirEnt {
    pub ino: Ino,
    pub name: Vec<u8>,
}

/// The mathematical value of a `DirEnt`.
pub struct DirEntView {
    pub ino: Ino,
    pub name: Seq<u8>,
}

impl View for DirEnt {
    type V = DirEntView;

    open spec fn view(&self) -> DirEntView {
        DirEntView { ino: self.ino, name: self.name@ }
    }
}

/// The views of a sequence of directory entries.
pub open spec fn spec_dir_ent_views(s: Seq<DirEnt>) -> Seq<DirEntView> {
    Seq::new(s.len(), |i: int| s[i]@)
}

/// A directory listing.  `look_below` set means the directory also
/// inherits entries from lower layers.
#[derive(Debug, PartialEq, Eq)]
pub struct DirList {
    pub look_below: bool,
    pub entries: Vec<DirEnt>,
}

/// The mathematical value of a `DirList`.
pub struct DirListView {
    pub look_below: bool,
    pub entries: Seq<DirEntView>,
}

impl View for DirList {
    type V = DirListView;

    open spec fn view(&self) -> DirListView {
        DirListView { look_below: self.look_below, entries: spec_dir_ent_views(self.entries@) }
    }
}

/// Reads one directory entry at `pos`: a map of `ino` (an unsigned
/// integer) and `name` (a byte string).
pub open spec fn spec_parse_dir_ent(s: Seq<u8>, pos: int) -> Option<(DirEntView, int)> {
    match spec_parse_map_header(s, pos) {
        Option::None => None,
        Option::Some((n, p1)) => {
            if n != 2 {
                None
            } else {
                match spec_parse_key(s, p1, "ino".spec_bytes()) {
                    Option::None => None,
                    Option::Some(p2) => match spec_parse_uint(s, p2) {
                        Option::None => None,
                        Option::Some((ino, p3)) => match spec_parse_key(
                            s,
                            p3,
                            "name".spec_bytes(),
                        ) {
                            Option::None => None,
                            Option::Some(p4) => match spec_parse_bytes(s, p4) {
                                Option::None => None,
                                Option::Some((name, p5)) => Some((DirEntView { ino, name }, p5)),
                            },
                        },
                    },
                }
            }
        },
    }
}

/// Reads `n` consecutive directory entries starting at `pos`.
pub open spec fn spec_parse_dir_ents_n(s: Seq<u8>, pos: int, n: nat) -> Option<
    (Seq<DirEntView>, int),
>
    decreases n,
{
    if n == 0 {
        Some((Seq::empty(), pos))
    } else {
        match spec_parse_dir_ent(s, pos) {
            Option::None => None,
            Option::Some((d, np)) => match spec_parse_dir_ents_n(s, np, (n - 1) as nat) {
                Option::None => None,
                Option::Some((rest, end)) => Some((seq![d] + rest, end)),
            },
        }
    }
}

/// `spec_parse_dir_ents_n` reads one entry and then the rest.
proof fn lemma_dir_ents_n_peel(s: Seq<u8>, pos: int, n: nat)
    requires
        n > 0,
    ensures
        spec_parse_dir_ents_n(s, pos, n) == (match spec_parse_dir_ent(s, pos) {
            Option::None => None::<(Seq<DirEntView>, int)>,
            Option::Some((d, np)) => match spec_parse_dir_ents_n(s, np, (n - 1) as nat) {
                Option::None => None,
                Option::Some((rest, end)) => Some((seq![d] + rest, end)),
            },
        }),
{
}

/// Reads a directory listing at `pos`: a map of `look_below` (a boolean)
/// and `entries` (an array of directory entries).
pub open spec fn spec_parse_dir_list(s: Seq<u8>, pos: int) -> Option<(DirListView, int)> {
    match spec_parse_map_header(s, pos) {
        Option::None => None,
        Option::Some((n, p1)) => {
            if n != 2 {
                None
            } else {
                match spec_parse_key(s, p1, "look_below".spec_bytes()) {
                    Option::None => None,
                    Option::Some(p2) => match spec_parse_bool(s, p2) {
                        Option::None => None,
                        Option::Some((look_below, p3)) => match spec_parse_key(
                            s,
                            p3,
                            "entries".spec_bytes(),
                        ) {
                            Option::None => None,
                            Option::Some(p4) => match spec_parse_array_header(s, p4) {
                                Option::None => None,
                                Option::Some((count, p5)) => match spec_parse_dir_ents_n(
                                    s,
                                    p5,
                                    count as nat,
                                ) {
                                    Option::None => None,
                                    Option::Some((entries, end)) => Some(
                                        (DirListView { look_below, entries }, end),
                                    ),
                                },
                            },
                        },
                    },
                }
            }
        },
    }
}

/// The canonical encoding of one directory entry.
pub open spec fn spec_dir_ent_bytes(d: DirEntView) -> Seq<u8> {
    spec_cbor_header(MAJOR_MAP, 2) + spec_cbor_key("ino".spec_bytes()) + spec_cbor_header(
        MAJOR_UINT,
        d.ino,
    ) + spec_cbor_key("name".spec_bytes()) + spec_cbor_bytes(d.name)
}

/// The canonical encoding of the directory entries from index `i` on.
pub open spec fn spec_dir_ents_bytes_from(ds: Seq<DirEntView>, i: int) -> Seq<u8>
    decreases ds.len() - i,
{
    if i < 0 || i >= ds.len() {
        Seq::empty()
    } else {
        spec_dir_ent_bytes(ds[i]) + spec_dir_ents_bytes_from(ds, i + 1)
    }
}

/// The canonical encoding of a directory listing.
pub open spec fn spec_dir_list_bytes(d: DirListView) -> Seq<u8> {
    spec_cbor_header(MAJOR_MAP, 2) + spec_cbor_key("look_below".spec_bytes()) + spec_cbor_bool(
        d.look_below,
    ) + spec_cbor_key("entries".spec_bytes()) + spec_cbor_header(
        MAJOR_ARRAY,
        d.entries.len() as u64,
    ) + spec_dir_ents_bytes_from(d.entries, 0)
}

/// Parsing starts exactly where a canonical directory entry was written,
/// inside any larger buffer, and yields the same entry.
#[verifier::rlimit(100)]
#[verifier::spinoff_prover]
proof fn lemma_parse_of_dir_ent(d: DirEntView, s: Seq<u8>, pos: int)
    requires
        d.name.len() <= u64::MAX,
        0 <= pos,
        pos + spec_dir_ent_bytes(d).len() <= s.len(),
        s.subrange(pos, pos + spec_dir_ent_bytes(d).len()) == spec_dir_ent_bytes(d),
    ensures
        spec_parse_dir_ent(s, pos) == Some((d, pos + spec_dir_ent_bytes(d).len())),
{
    reveal_strlit("ino");
    reveal_strlit("name");
    assert(vstd::string::is_ascii("ino"));
    assert(vstd::string::is_ascii("name"));
    vstd::string::is_ascii_spec_bytes("ino");
    vstd::string::is_ascii_spec_bytes("name");
    let enc = spec_dir_ent_bytes(d);
    let a = spec_cbor_header(MAJOR_MAP, 2);
    let k1 = spec_cbor_key("ino".spec_bytes());
    let e = spec_cbor_header(MAJOR_UINT, d.ino);
    let k2 = spec_cbor_key("name".spec_bytes());
    let nb = spec_cbor_bytes(d.name);
    assert(a.len() == 1);
    assert("ino".spec_bytes().len() == 3);
    assert("name".spec_bytes().len() == 4);
    assert(k1.len() == 4);
    assert(k2.len() == 5);
    let o2 = 5int;
    let o3 = o2 + e.len() as int;
    let o4 = o3 + 5;
    assert forall|i: int| 0 <= i < enc.len() implies s[pos + i] == enc[i] by {
        assert(s.subrange(pos, pos + enc.len() as int)[i] == s[pos + i]);
    }
    assert forall|i: int| 0 <= i < 1 implies s[pos + i] == a[i] by {
        assert(enc[i] == a[i]);
    }
    assert(s.subrange(pos, pos + 1) =~= a);
    lemma_parse_of_cbor_header(MAJOR_MAP, 2, s, pos);
    assert forall|i: int| 0 <= i < 4 implies s[pos + 1 + i] == k1[i] by {
        assert(s[pos + (1 + i)] == enc[1 + i]);
        assert(enc[1 + i] == k1[i]);
    }
    assert(s.subrange(pos + 1, pos + 1 + 4) =~= k1);
    lemma_parse_of_cbor_key("ino".spec_bytes(), s, pos + 1);
    assert forall|i: int| 0 <= i < e.len() implies s[pos + o2 + i] == e[i] by {
        assert(s[pos + (o2 + i)] == enc[o2 + i]);
        assert(enc[o2 + i] == e[i]);
    }
    assert(s.subrange(pos + o2, pos + o2 + e.len() as int) =~= e);
    lemma_parse_of_cbor_header(MAJOR_UINT, d.ino, s, pos + o2);
    assert forall|i: int| 0 <= i < 5 implies s[pos + o3 + i] == k2[i] by {
        assert(s[pos + (o3 + i)] == enc[o3 + i]);
        assert(enc[o3 + i] == k2[i]);
    }
    assert(s.subrange(pos + o3, pos + o3 + 5) =~= k2);
    lemma_parse_of_cbor_key("name".spec_bytes(), s, pos + o3);
    assert forall|i: int| 0 <= i < nb.len() implies s[pos + o4 + i] == nb[i] by {
        assert(s[pos + (o4 + i)] == enc[o4 + i]);
        assert(enc[o4 + i] == nb[i]);
    }
    assert(s.subrange(pos + o4, pos + o4 + nb.len() as int) =~= nb);
    lemma_parse_of_cbor_bytes(d.name, s, pos + o4);
    assert(enc.len() == o4 + nb.len());
}

/// Parsing starts exactly where the canonical encoding of the entries
/// from index `i` on was written, and yields exactly those entries.
#[verifier::rlimit(100)]
#[verifier::spinoff_prover]
proof fn lemma_parse_of_dir_ents_from(ds: Seq<DirEntView>, i: int, s: Seq<u8>, pos: int)
    requires
        forall|k: int| 0 <= k < ds.len() ==> (#[trigger] ds[k]).name.len() <= u64::MAX,
        0 <= i <= ds.len(),
        0 <= pos,
        pos + spec_dir_ents_bytes_from(ds, i).len() <= s.len(),
        s.subrange(pos, pos + spec_dir_ents_bytes_from(ds, i).len()) == spec_dir_ents_bytes_from(
            ds,
            i,
        ),
    ensures
        spec_parse_dir_ents_n(s, pos, (ds.len() - i) as nat) == Some(
            (ds.skip(i), pos + spec_dir_ents_bytes_from(ds, i).len()),
        ),
    decreases ds.len() - i,
{
    if i == ds.len() {
        assert(ds.skip(i) =~= Seq::<DirEntView>::empty());
    } else {
        let whole = spec_dir_ents_bytes_from(ds, i);
        let head = spec_dir_ent_bytes(ds[i]);
        let rest = spec_dir_ents_bytes_from(ds, i + 1);
        assert(whole == head + rest);
        assert forall|j: int| 0 <= j < whole.len() implies s[pos + j] == whole[j] by {
            assert(s.subrange(pos, pos + whole.len() as int)[j] == s[pos + j]);
        }
        assert forall|j: int| 0 <= j < head.len() implies s[pos + j] == head[j] by {
            assert(whole[j] == head[j]);
        }
        assert(s.subrange(pos, pos + head.len() as int) =~= head);
        lemma_parse_of_dir_ent(ds[i], s, pos);
        assert forall|j: int| 0 <= j < rest.len() implies s[pos + head.len() + j] == rest[j] by {
            assert(s[pos + (head.len() + j)] == whole[head.len() + j]);
            assert(whole[head.len() + j] == rest[j]);
        }
        assert(s.subrange(pos + head.len(), pos + head.len() + rest.len() as int) =~= rest);
        lemma_parse_of_dir_ents_from(ds, i + 1, s, pos + head.len() as int);
        lemma_dir_ents_n_peel(s, pos, (ds.len() - i) as nat);
        assert(seq![ds[i]] + ds.skip(i + 1) =~= ds.skip(i));
    }
}

/// Decoding the bytes a directory listing encodes yields the same
/// listing.
#[verifier::rlimit(100)]
#[verifier::spinoff_prover]
pub proof fn lemma_dir_list_round_trip(d: DirListView)
    requires
        forall|k: int| 0 <= k < d.entries.len() ==> (#[trigger] d.entries[k]).name.len()
            <= u64::MAX,
        d.entries.len() <= u64::MAX,
    ensures
        spec_parse_dir_list(spec_dir_list_bytes(d), 0) == Some(
            (d, spec_dir_list_bytes(d).len() as int),
        ),
{
    reveal_strlit("look_below");
    reveal_strlit("entries");
    assert(vstd::string::is_ascii("look_below"));
    assert(vstd::string::is_ascii("entries"));
    vstd::string::is_ascii_spec_bytes("look_below");
    vstd::string::is_ascii_spec_bytes("entries");
    let s = spec_dir_list_bytes(d);
    let a = spec_cbor_header(MAJOR_MAP, 2);
    let k1 = spec_cbor_key("look_below".spec_bytes());
    let bl = spec_cbor_bool(d.look_below);
    let k2 = spec_cbor_key("entries".spec_bytes());
    let h = spec_cbor_header(MAJOR_ARRAY, d.entries.len() as u64);
    let body = spec_dir_ents_bytes_from(d.entries, 0);
    assert(a.len() == 1);
    assert("look_below".spec_bytes().len() == 10);
    assert("entries".spec_bytes().len() == 7);
    assert(k1.len() == 11);
    assert(k2.len() == 8);
    assert(bl.len() == 1);
    let o2 = 12int;
    let o3 = o2 + 1;
    let o4 = o3 + 8;
    let o5 = o4 + h.len() as int;
    assert(s.subrange(0, s.len() as int) =~= s);
    assert(s.subrange(0int, 1int) =~= a);
    lemma_parse_of_cbor_header(MAJOR_MAP, 2, s, 0);
    assert(s.subrange(1int, 12int) =~= k1);
    lemma_parse_of_cbor_key("look_below".spec_bytes(), s, 1);
    assert(s.subrange(o2, o2 + 1) =~= bl);
    lemma_parse_of_cbor_bool(d.look_below, s, o2);
    assert(s.subrange(o3, o3 + 8) =~= k2);
    lemma_parse_of_cbor_key("entries".spec_bytes(), s, o3);
    assert(s.subrange(o4, o4 + h.len() as int) =~= h);
    lemma_parse_of_cbor_header(MAJOR_ARRAY, d.entries.len() as u64, s, o4);
    assert(s.subrange(o5, o5 + body.len() as int) =~= body);
    lemma_parse_of_dir_ents_from(d.entries, 0, s, o5);
    assert(d.entries.skip(0) =~= d.entries);
}

/// Decodes one directory entry at `pos`.
pub fn parse_dir_ent(s: &[u8], pos: usize) -> (r: Result<(DirEnt, usize), WireFormatError>)
    ensures
        match r {
            Ok((d, np)) => {
                &&& spec_parse_dir_ent(s@, pos as int) == Some((d@, np as int))
                &&& pos < np <= s@.len()
            },
            Err(e) => spec_parse_dir_ent(s@, pos as int) is None && is_decode_error(e),
        },
{
    let (n, p1) = match parse_cbor_map_header(s, pos) {
        Ok(h) => h,
        Err(e) => {
            return Err(WireFormatError::CBORError(e));
        },
    };
    if n != 2 {
        return Err(WireFormatError::CBORError(Error::Syntax));
    }
    let p2 = match parse_cbor_key(s, p1, "ino") {
        Ok(p) => p,
        Err(e) => {
            return Err(WireFormatError::CBORError(e));
        },
    };
    let (ino, p3) = match parse_cbor_uint(s, p2) {
        Ok(h) => h,
        Err(e) => {
            return Err(WireFormatError::CBORError(e));
        },
    };
    let p4 = match parse_cbor_key(s, p3, "name") {
        Ok(p) => p,
        Err(e) => {
            return Err(WireFormatError::CBORError(e));
        },
    };
    let (name, p5) = match parse_cbor_bytes(s, p4) {
        Ok(h) => h,
        Err(e) => {
            return Err(WireFormatError::CBORError(e));
        },
    };
    Ok((DirEnt { ino, name }, p5))
}

/// Decodes `count` consecutive directory entries starting at `pos`.
fn parse_dir_ents_n(s: &[u8], pos: usize, count: u64) -> (r: Result<
    (Vec<DirEnt>, usize),
    WireFormatError,
>)
    requires
        pos <= s@.len(),
    ensures
        match r {
            Ok((v, np)) => {
                &&& spec_parse_dir_ents_n(s@, pos as int, count as nat) == Some(
                    (spec_dir_ent_views(v@), np as int),
                )
                &&& np <= s@.len()
                &&& pos <= np
            },
            Err(e) => spec_parse_dir_ents_n(s@, pos as int, count as nat) is None && is_decode_error(
                e,
            ),
        },
{
    let mut v: Vec<DirEnt> = Vec::new();
    let mut cur = pos;
    let mut k: u64 = 0;
    while k < count
        invariant
            k <= count,
            pos <= cur <= s@.len(),
            spec_dir_ent_views(v@).len() == k,
            match spec_parse_dir_ents_n(s@, cur as int, (count - k) as nat) {
                Option::Some((rest, end)) => spec_parse_dir_ents_n(
                    s@,
                    pos as int,
                    count as nat,
                ) == Some((spec_dir_ent_views(v@) + rest, end)),
                Option::None => spec_parse_dir_ents_n(s@, pos as int, count as nat) is None,
            },
        decreases count - k,
    {
        proof {
            lemma_dir_ents_n_peel(s@, cur as int, (count - k) as nat);
        }
        let (d, np) = match parse_dir_ent(s, cur) {
            Ok(h) => h,
            Err(e) => {
                return Err(e);
            },
        };
        let ghost m = (count - k) as nat;
        v.push(d);
        proof {
            let prev = v@.drop_last();
            assert(spec_dir_ent_views(v@) =~= spec_dir_ent_views(prev) + seq![d@]);
            match spec_parse_dir_ents_n(s@, np as int, (m - 1) as nat) {
                Option::Some((rest, end)) => {
                    assert((spec_dir_ent_views(prev) + (seq![d@] + rest)) =~= (spec_dir_ent_views(
                        v@,
                    ) + rest));
                },
                Option::None => {},
            }
        }
        cur = np;
        k = k + 1;
    }
    proof {
        assert(spec_parse_dir_ents_n(s@, cur as int, 0) == Some(
            (Seq::<DirEntView>::empty(), cur as int),
        ));
        assert(spec_dir_ent_views(v@) + Seq::<DirEntView>::empty() =~= spec_dir_ent_views(v@));
    }
    Ok((v, cur))
}

/// Decodes a directory listing at `pos`; trailing bytes after the value
/// are left alone.
pub fn parse_dir_list(s: &[u8], pos: usize) -> (r: Result<(DirList, usize), WireFormatError>)
    ensures
        match r {
            Ok((d, np)) => {
                &&& spec_parse_dir_list(s@, pos as int) == Some((d@, np as int))
                &&& np <= s@.len()
            },
            Err(e) => spec_parse_dir_list(s@, pos as int) is None && is_decode_error(e),
        },
{
    let (n, p1) = match parse_cbor_map_header(s, pos) {
        Ok(h) => h,
        Err(e) => {
            return Err(WireFormatError::CBORError(e));
        },
    };
    if n != 2 {
        return Err(WireFormatError::CBORError(Error::Syntax));
    }
    let p2 = match parse_cbor_key(s, p1, "look_below") {
        Ok(p) => p,
        Err(e) => {
            return Err(WireFormatError::CBORError(e));
        },
    };
    let (look_below, p3) = match parse_cbor_bool(s, p2) {
        Ok(h) => h,
        Err(e) => {
            return Err(WireFormatError::CBORError(e));
        },
    };
    let p4 = match parse_cbor_key(s, p3, "entries") {
        Ok(p) => p,
        Err(e) => {
            return Err(WireFormatError::CBORError(e));
        },
    };
    let (count, p5) = match parse_cbor_array_header(s, p4) {
        Ok(h) => h,
        Err(e) => {
            return Err(WireFormatError::CBORError(e));
        },
    };
    let (entries, end) = parse_dir_ents_n(s, p5, count)?;
    Ok((DirList { look_below, entries }, end))
}

/// Appends the canonical encoding of one directory entry to `out`.
pub fn encode_dir_ent(d: &DirEnt, out: &mut Vec<u8>)
    ensures
        final(out)@ == old(out)@ + spec_dir_ent_bytes(d@),
{
    encode_cbor_header(out, MAJOR_MAP, 2);
    encode_cbor_key(out, "ino");
    encode_cbor_header(out, MAJOR_UINT, d.ino);
    encode_cbor_key(out, "name");
    encode_cbor_bytes(out, d.name.as_slice());
    assert(final(out)@ =~= old(out)@ + spec_dir_ent_bytes(d@));
}

/// Appends the canonical encoding of a directory listing to `out`.
#[verifier::rlimit(50)]
#[verifier::spinoff_prover]
pub fn encode_dir_list(d: &DirList, out: &mut Vec<u8>)
    ensures
        final(out)@ == old(out)@ + spec_dir_list_bytes(d@),
{
    encode_cbor_header(out, MAJOR_MAP, 2);
    encode_cbor_key(out, "look_below");
    if d.look_below {
        out.push(0xf5);
    } else {
        out.push(0xf4);
    }
    encode_cbor_key(out, "entries");
    encode_cbor_header(out, MAJOR_ARRAY, d.entries.len() as u64);
    let ghost prefix = out@;
    let mut i: usize = 0;
    while i < d.entries.len()
        invariant
            i <= d.entries@.len(),
            out@ + spec_dir_ents_bytes_from(d@.entries, i as int) =~= prefix
                + spec_dir_ents_bytes_from(d@.entries, 0),
            d@.entries.len() == d.entries@.len(),
            d@.entries == spec_dir_ent_views(d.entries@),
        decreases d.entries@.len() - i,
    {
        proof {
            assert(spec_dir_ents_bytes_from(d@.entries, i as int) == spec_dir_ent_bytes(
                d@.entries[i as int],
            ) + spec_dir_ents_bytes_from(d@.entries, i as int + 1));
            assert(d@.entries[i as int] == d.entries@[i as int]@);
        }
        encode_dir_ent(&d.entries[i], out);
        i += 1;
    }
    assert(final(out)@ =~= old(out)@ + spec_dir_list_bytes(d@));
}

/// One extended attribute: a key and its value, both raw bytes.
#[derive(Debug, PartialEq, Eq)]
pub struct Xattr {
    pub key: Vec<u8>,
    pub val: Vec<u8>,
}

/// The mathematical value of an `Xattr`.
pub struct XattrView {
    pub key: Seq<u8>,
    pub val: Seq<u8>,
}

impl View for Xattr {
    type V = XattrView;

    open spec fn view(&self) -> XattrView {
        XattrView { key: self.key@, val: self.val@ }
    }
}

/// The views of a sequence of extended attributes.
pub open spec fn spec_xattr_views(s: Seq<Xattr>) -> Seq<XattrView> {
    Seq::new(s.len(), |i: int| s[i]@)
}

/// The variable-length side data of an inode: extended attributes and,
/// for a symlink, its target.
#[derive(Debug, PartialEq, Eq)]
pub struct InodeAdditional {
    pub xattrs: Vec<Xattr>,
    pub symlink_target: Option<Vec<u8>>,
}

/// The mathematical value of an `InodeAdditional`.
pub struct InodeAdditionalView {
    pub xattrs: Seq<XattrView>,
    pub symlink_target: Option<Seq<u8>>,
}

impl View for InodeAdditional {
    type V = InodeAdditionalView;

    open spec fn view(&self) -> InodeAdditionalView {
        InodeAdditionalView {
            xattrs: spec_xattr_views(self.xattrs@),
            symlink_target: match self.symlink_target {
                Option::None => None,
                Option::Some(ref t) => Some(t@),
            },
        }
    }
}

/// Reads one extended attribute at `pos`: a map of `key` and `val`, both
/// byte strings.
pub open spec fn spec_parse_xattr(s: Seq<u8>, pos: int) -> Option<(XattrView, int)> {
    match spec_parse_map_header(s, pos) {
        Option::None => None,
        Option::Some((n, p1)) => {
            if n != 2 {
                None
            } else {
                match spec_parse_key(s, p1, "key".spec_bytes()) {
                    Option::None => None,
                    Option::Some(p2) => match spec_parse_bytes(s, p2) {
                        Option::None => None,
                        Option::Some((key, p3)) => match spec_parse_key(
                            s,
                            p3,
                            "val".spec_bytes(),
                        ) {
                            Option::None => None,
                            Option::Some(p4) => match spec_parse_bytes(s, p4) {
                                Option::None => None,
                                Option::Some((val, p5)) => Some((XattrView { key, val }, p5)),
                            },
                        },
                    },
                }
            }
        },
    }
}

/// Reads `n` consecutive extended attributes starting at `pos`.
pub open spec fn spec_parse_xattrs_n(s: Seq<u8>, pos: int, n: nat) -> Option<(Seq<XattrView>, int)>
    decreases n,
{
    if n == 0 {
        Some((Seq::empty(), pos))
    } else {
        match spec_parse_xattr(s, pos) {
            Option::None => None,
            Option::Some((x, np)) => match spec_parse_xattrs_n(s, np, (n - 1) as nat) {
                Option::None => None,
                Option::Some((rest, end)) => Some((seq![x] + rest, end)),
            },
        }
    }
}

/// `spec_parse_xattrs_n` reads one attribute and then the rest.
proof fn lemma_xattrs_n_peel(s: Seq<u8>, pos: int, n: nat)
    requires
        n > 0,
    ensures
        spec_parse_xattrs_n(s, pos, n) == (match spec_parse_xattr(s, pos) {
            Option::None => None::<(Seq<XattrView>, int)>,
            Option::Some((x, np)) => match spec_parse_xattrs_n(s, np, (n - 1) as nat) {
                Option::None => None,
                Option::Some((rest, end)) => Some((seq![x] + rest, end)),
            },
        }),
{
}

/// Reads inode side data at `pos`: a map of `xattrs` (an array) and
/// `symlink_target` (`null` or a byte string).
pub open spec fn spec_parse_inode_additional(s: Seq<u8>, pos: int) -> Option<
    (InodeAdditionalView, int),
> {
    match spec_parse_map_header(s, pos) {
        Option::None => None,
        Option::Some((n, p1)) => {
            if n != 2 {
                None
            } else {
                match spec_parse_key(s, p1, "xattrs".spec_bytes()) {
                    Option::None => None,
                    Option::Some(p2) => match spec_parse_array_header(s, p2) {
                        Option::None => None,
                        Option::Some((count, p3)) => match spec_parse_xattrs_n(
                            s,
                            p3,
                            count as nat,
                        ) {
                            Option::None => None,
                            Option::Some((xattrs, p4)) => match spec_parse_key(
                                s,
                                p4,
                                "symlink_target".spec_bytes(),
                            ) {
                                Option::None => None,
                                Option::Some(p5) => match spec_parse_null(s, p5) {
                                    Option::Some(p6) => Some(
                                        (
                                            InodeAdditionalView { xattrs, symlink_target: None },
                                            p6,
                                        ),
                                    ),
                                    Option::None => match spec_parse_bytes(s, p5) {
                                        Option::None => None,
                                        Option::Some((t, p6)) => Some(
                                            (
                                                InodeAdditionalView {
                                                    xattrs,
                                                    symlink_target: Some(t),
                                                },
                                                p6,
                                            ),
                                        ),
                                    },
                                },
                            },
                        },
                    },
                }
            }
        },
    }
}

/// The canonical encoding of one extended attribute.
pub open spec fn spec_xattr_bytes(x: XattrView) -> Seq<u8> {
    spec_cbor_header(MAJOR_MAP, 2) + spec_cbor_key("key".spec_bytes()) + spec_cbor_bytes(x.key)
        + spec_cbor_key("val".spec_bytes()) + spec_cbor_bytes(x.val)
}

/// The canonical encoding of the extended attributes from index `i` on.
pub open spec fn spec_xattrs_bytes_from(xs: Seq<XattrView>, i: int) -> Seq<u8>
    decreases xs.len() - i,
{
    if i < 0 || i >= xs.len() {
        Seq::empty()
    } else {
        spec_xattr_bytes(xs[i]) + spec_xattrs_bytes_from(xs, i + 1)
    }
}

/// The canonical encoding of inode side data.
pub open spec fn spec_inode_additional_bytes(a: InodeAdditionalView) -> Seq<u8> {
    spec_cbor_header(MAJOR_MAP, 2) + spec_cbor_key("xattrs".spec_bytes()) + spec_cbor_header(
        MAJOR_ARRAY,
        a.xattrs.len() as u64,
    ) + spec_xattrs_bytes_from(a.xattrs, 0) + spec_cbor_key("symlink_target".spec_bytes()) + (
    match a.symlink_target {
        Option::None => spec_cbor_null(),
        Option::Some(t) => spec_cbor_bytes(t),
    })
}

/// Parsing starts exactly where a canonical extended attribute was
/// written, inside any larger buffer, and yields the same attribute.
#[verifier::rlimit(100)]
#[verifier::spinoff_prover]
proof fn lemma_parse_of_xattr(x: XattrView, s: Seq<u8>, pos: int)
    requires
        x.key.len() <= u64::MAX,
        x.val.len() <= u64::MAX,
        0 <= pos,
        pos + spec_xattr_bytes(x).len() <= s.len(),
        s.subrange(pos, pos + spec_xattr_bytes(x).len()) == spec_xattr_bytes(x),
    ensures
        spec_parse_xattr(s, pos) == Some((x, pos + spec_xattr_bytes(x).len())),
{
    reveal_strlit("key");
    reveal_strlit("val");
    assert(vstd::string::is_ascii("key"));
    assert(vstd::string::is_ascii("val"));
    vstd::string::is_ascii_spec_bytes("key");
    vstd::string::is_ascii_spec_bytes("val");
    let enc = spec_xattr_bytes(x);
    let a = spec_cbor_header(MAJOR_MAP, 2);
    let k1 = spec_cbor_key("key".spec_bytes());
    let kb = spec_cbor_bytes(x.key);
    let k2 = spec_cbor_key("val".spec_bytes());
    let vb = spec_cbor_bytes(x.val);
    assert(a.len() == 1);
    assert("key".spec_bytes().len() == 3);
    assert("val".spec_bytes().len() == 3);
    assert(k1.len() == 4);
    assert(k2.len() == 4);
    let o2 = 5int;
    let o3 = o2 + kb.len() as int;
    let o4 = o3 + 4;
    assert forall|i: int| 0 <= i < enc.len() implies s[pos + i] == enc[i] by {
        assert(s.subrange(pos, pos + enc.len() as int)[i] == s[pos + i]);
    }
    assert forall|i: int| 0 <= i < 1 implies s[pos + i] == a[i] by {
        assert(enc[i] == a[i]);
    }
    assert(s.subrange(pos, pos + 1) =~= a);
    lemma_parse_of_cbor_header(MAJOR_MAP, 2, s, pos);
    assert forall|i: int| 0 <= i < 4 implies s[pos + 1 + i] == k1[i] by {
        assert(s[pos + (1 + i)] == enc[1 + i]);
        assert(enc[1 + i] == k1[i]);
    }
    assert(s.subrange(pos + 1, pos + 1 + 4) =~= k1);
    lemma_parse_of_cbor_key("key".spec_bytes(), s, pos + 1);
    assert forall|i: int| 0 <= i < kb.len() implies s[pos + o2 + i] == kb[i] by {
        assert(s[pos + (o2 + i)] == enc[o2 + i]);
        assert(enc[o2 + i] == kb[i]);
    }
    assert(s.subrange(pos + o2, pos + o2 + kb.len() as int) =~= kb);
    lemma_parse_of_cbor_bytes(x.key, s, pos + o2);
    assert forall|i: int| 0 <= i < 4 implies s[pos + o3 + i] == k2[i] by {
        assert(s[pos + (o3 + i)] == enc[o3 + i]);
        assert(enc[o3 + i] == k2[i]);
    }
    assert(s.subrange(pos + o3, pos + o3 + 4) =~= k2);
    lemma_parse_of_cbor_key("val".spec_bytes(), s, pos + o3);
    assert forall|i: int| 0 <= i < vb.len() implies s[pos + o4 + i] == vb[i] by {
        assert(s[pos + (o4 + i)] == enc[o4 + i]);
        assert(enc[o4 + i] == vb[i]);
    }
    assert(s.subrange(pos + o4, pos + o4 + vb.len() as int) =~= vb);
    lemma_parse_of_cbor_bytes(x.val, s, pos + o4);
    assert(enc.len() == o4 + vb.len());
}

/// Parsing starts exactly where the canonical encoding of the attributes
/// from index `i` on was written, and yields exactly those attributes.
#[verifier::rlimit(100)]
#[verifier::spinoff_prover]
proof fn lemma_parse_of_xattrs_from(xs: Seq<XattrView>, i: int, s: Seq<u8>, pos: int)
    requires
        forall|k: int|
            0 <= k < xs.len() ==> (#[trigger] xs[k]).key.len() <= u64::MAX && xs[k].val.len()
                <= u64::MAX,
        0 <= i <= xs.len(),
        0 <= pos,
        pos + spec_xattrs_bytes_from(xs, i).len() <= s.len(),
        s.subrange(pos, pos + spec_xattrs_bytes_from(xs, i).len()) == spec_xattrs_bytes_from(
            xs,
            i,
        ),
    ensures
        spec_parse_xattrs_n(s, pos, (xs.len() - i) as nat) == Some(
            (xs.skip(i), pos + spec_xattrs_bytes_from(xs, i).len()),
        ),
    decreases xs.len() - i,
{
    if i == xs.len() {
        assert(xs.skip(i) =~= Seq::<XattrView>::empty());
    } else {
        let whole = spec_xattrs_bytes_from(xs, i);
        let head = spec_xattr_bytes(xs[i]);
        let rest = spec_xattrs_bytes_from(xs, i + 1);
        assert(whole == head + rest);
        assert forall|j: int| 0 <= j < whole.len() implies s[pos + j] == whole[j] by {
            assert(s.subrange(pos, pos + whole.len() as int)[j] == s[pos + j]);
        }
        assert forall|j: int| 0 <= j < head.len() implies s[pos + j] == head[j] by {
            assert(whole[j] == head[j]);
        }
        assert(s.subrange(pos, pos + head.len() as int) =~= head);
        lemma_parse_of_xattr(xs[i], s, pos);
        assert forall|j: int| 0 <= j < rest.len() implies s[pos + head.len() + j] == rest[j] by {
            assert(s[pos + (head.len() + j)] == whole[head.len() + j]);
            assert(whole[head.len() + j] == rest[j]);
        }
        assert(s.subrange(pos + head.len(), pos + head.len() + rest.len() as int) =~= rest);
        lemma_parse_of_xattrs_from(xs, i + 1, s, pos + head.len() as int);
        lemma_xattrs_n_peel(s, pos, (xs.len() - i) as nat);
        assert(seq![xs[i]] + xs.skip(i + 1) =~= xs.skip(i));
    }
}

/// The component items of encoded inode side data each parse at their
/// own offset.
#[verifier::rlimit(100)]
#[verifier::spinoff_prover]
proof fn lemma_inode_additional_parts(a: InodeAdditionalView)
    requires
        forall|k: int|
            0 <= k < a.xattrs.len() ==> (#[trigger] a.xattrs[k]).key.len() <= u64::MAX
                && a.xattrs[k].val.len() <= u64::MAX,
        a.xattrs.len() <= u64::MAX,
        a.symlink_target matches Some(t) ==> t.len() <= u64::MAX,
    ensures
        ({
            let s = spec_inode_additional_bytes(a);
            let o3 = 8 + spec_cbor_header(MAJOR_ARRAY, a.xattrs.len() as u64).len() as int;
            let o4 = o3 + spec_xattrs_bytes_from(a.xattrs, 0).len() as int;
            let o5 = o4 + 15;
            &&& spec_parse_map_header(s, 0) == Some((2u64, 1int))
            &&& spec_parse_key(s, 1, "xattrs".spec_bytes()) == Some(8int)
            &&& spec_parse_array_header(s, 8) == Some((a.xattrs.len() as u64, o3))
            &&& spec_parse_xattrs_n(s, o3, a.xattrs.len()) == Some((a.xattrs, o4))
        }),
{
    reveal_strlit("xattrs");
    assert(vstd::string::is_ascii("xattrs"));
    vstd::string::is_ascii_spec_bytes("xattrs");
    let s = spec_inode_additional_bytes(a);
    let hd = spec_cbor_header(MAJOR_MAP, 2);
    let k1 = spec_cbor_key("xattrs".spec_bytes());
    let h = spec_cbor_header(MAJOR_ARRAY, a.xattrs.len() as u64);
    let body = spec_xattrs_bytes_from(a.xattrs, 0);
    assert(hd.len() == 1);
    assert("xattrs".spec_bytes().len() == 6);
    assert(k1.len() == 7);
    let o2 = 8int;
    let o3 = o2 + h.len() as int;
    assert(s.subrange(0, s.len() as int) =~= s);
    assert(s.subrange(0int, 1int) =~= hd);
    lemma_parse_of_cbor_header(MAJOR_MAP, 2, s, 0);
    assert(s.subrange(1int, 8int) =~= k1);
    lemma_parse_of_cbor_key("xattrs".spec_bytes(), s, 1);
    assert(s.subrange(o2, o2 + h.len() as int) =~= h);
    lemma_parse_of_cbor_header(MAJOR_ARRAY, a.xattrs.len() as u64, s, o2);
    assert(s.subrange(o3, o3 + body.len() as int) =~= body);
    lemma_parse_of_xattrs_from(a.xattrs, 0, s, o3);
    assert(a.xattrs.skip(0) =~= a.xattrs);
}

/// The trailing items of encoded inode side data each parse at their own
/// offset.
#[verifier::rlimit(100)]
#[verifier::spinoff_prover]
proof fn lemma_inode_additional_tail(a: InodeAdditionalView)
    requires
        forall|k: int|
            0 <= k < a.xattrs.len() ==> (#[trigger] a.xattrs[k]).key.len() <= u64::MAX
                && a.xattrs[k].val.len() <= u64::MAX,
        a.xattrs.len() <= u64::MAX,
        a.symlink_target matches Some(t) ==> t.len() <= u64::MAX,
    ensures
        ({
            let s = spec_inode_additional_bytes(a);
            let o3 = 8 + spec_cbor_header(MAJOR_ARRAY, a.xattrs.len() as u64).len() as int;
            let o4 = o3 + spec_xattrs_bytes_from(a.xattrs, 0).len() as int;
            let o5 = o4 + 15;
            &&& spec_parse_key(s, o4, "symlink_target".spec_bytes()) == Some(o5)
            &&& (match a.symlink_target {
                Option::None => spec_parse_null(s, o5) == Some(s.len() as int),
                Option::Some(t) => spec_parse_null(s, o5) is None && spec_parse_bytes(s, o5)
                    == Some((t, s.len() as int)),
            })
        }),
{
    reveal_strlit("symlink_target");
    assert(vstd::string::is_ascii("symlink_target"));
    vstd::string::is_ascii_spec_bytes("symlink_target");
    let s = spec_inode_additional_bytes(a);
    let h = spec_cbor_header(MAJOR_ARRAY, a.xattrs.len() as u64);
    let body = spec_xattrs_bytes_from(a.xattrs, 0);
    let k2 = spec_cbor_key("symlink_target".spec_bytes());
    let tail = (match a.symlink_target {
        Option::None => spec_cbor_null(),
        Option::Some(t) => spec_cbor_bytes(t),
    });
    assert("symlink_target".spec_bytes().len() == 14);
    assert(k2.len() == 15);
    let o3 = 8 + h.len() as int;
    let o4 = o3 + body.len() as int;
    let o5 = o4 + 15;
    let p4 = spec_cbor_header(MAJOR_MAP, 2) + spec_cbor_key("xattrs".spec_bytes()) + h + body;
    let p5 = p4 + k2;
    assert(s == p5 + tail);
    reveal_strlit("xattrs");
    assert(vstd::string::is_ascii("xattrs"));
    vstd::string::is_ascii_spec_bytes("xattrs");
    assert(p4.len() == o4);
    assert(p5.len() == o5);
    assert(s.subrange(0, s.len() as int) =~= s);
    assert forall|j: int| 0 <= j < 15 implies s[o4 + j] == k2[j] by {
        assert(s[o4 + j] == p5[o4 + j]);
        assert(p5[o4 + j] == k2[o4 + j - p4.len()]);
    }
    assert(s.subrange(o4, o4 + 15) =~= k2);
    lemma_parse_of_cbor_key("symlink_target".spec_bytes(), s, o4);
    assert forall|j: int| 0 <= j < tail.len() implies s[o5 + j] == tail[j] by {
        assert(s[o5 + j] == tail[o5 + j - p5.len()]);
    }
    assert(s.subrange(o5, o5 + tail.len() as int) =~= tail);
    match a.symlink_target {
        Option::None => {
            lemma_parse_of_cbor_null(s, o5);
        },
        Option::Some(t) => {
            // the first byte of a byte string is never the `null` byte
            assert(s[o5] == tail[0]);
            assert(tail[0] == spec_cbor_header(crate::cbor::MAJOR_BYTES, t.len() as u64)[0]);
            assert(spec_parse_null(s, o5) is None);
            lemma_parse_of_cbor_bytes(t, s, o5);
        },
    }
}

/// Decoding the bytes inode side data encodes yields the same side data.
#[verifier::rlimit(100)]
#[verifier::spinoff_prover]
pub proof fn lemma_inode_additional_round_trip(a: InodeAdditionalView)
    requires
        forall|k: int|
            0 <= k < a.xattrs.len() ==> (#[trigger] a.xattrs[k]).key.len() <= u64::MAX
                && a.xattrs[k].val.len() <= u64::MAX,
        a.xattrs.len() <= u64::MAX,
        a.symlink_target matches Some(t) ==> t.len() <= u64::MAX,
    ensures
        spec_parse_inode_additional(spec_inode_additional_bytes(a), 0) == Some(
            (a, spec_inode_additional_bytes(a).len() as int),
        ),
{
    lemma_inode_additional_parts(a);
    lemma_inode_additional_tail(a);
}

/// Decodes one extended attribute at `pos`.
pub fn parse_xattr(s: &[u8], pos: usize) -> (r: Result<(Xattr, usize), WireFormatError>)
    ensures
        match r {
            Ok((x, np)) => {
                &&& spec_parse_xattr(s@, pos as int) == Some((x@, np as int))
                &&& pos < np <= s@.len()
            },
            Err(e) => spec_parse_xattr(s@, pos as int) is None && is_decode_error(e),
        },
{
    let (n, p1) = match parse_cbor_map_header(s, pos) {
        Ok(h) => h,
        Err(e) => {
            return Err(WireFormatError::CBORError(e));
        },
    };
    if n != 2 {
        return Err(WireFormatError::CBORError(Error::Syntax));
    }
    let p2 = match parse_cbor_key(s, p1, "key") {
        Ok(p) => p,
        Err(e) => {
            return Err(WireFormatError::CBORError(e));
        },
    };
    let (key, p3) = match parse_cbor_bytes(s, p2) {
        Ok(h) => h,
        Err(e) => {
            return Err(WireFormatError::CBORError(e));
        },
    };
    let p4 = match parse_cbor_key(s, p3, "val") {
        Ok(p) => p,
        Err(e) => {
            return Err(WireFormatError::CBORError(e));
        },
    };
    let (val, p5) = match parse_cbor_bytes(s, p4) {
        Ok(h) => h,
        Err(e) => {
            return Err(WireFormatError::CBORError(e));
        },
    };
    Ok((Xattr { key, val }, p5))
}

/// Decodes `count` consecutive extended attributes starting at `pos`.
fn parse_xattrs_n(s: &[u8], pos: usize, count: u64) -> (r: Result<
    (Vec<Xattr>, usize),
    WireFormatError,
>)
    requires
        pos <= s@.len(),
    ensures
        match r {
            Ok((v, np)) => {
                &&& spec_parse_xattrs_n(s@, pos as int, count as nat) == Some(
                    (spec_xattr_views(v@), np as int),
                )
                &&& np <= s@.len()
                &&& pos <= np
            },
            Err(e) => spec_parse_xattrs_n(s@, pos as int, count as nat) is None && is_decode_error(e),
        },
{
    let mut v: Vec<Xattr> = Vec::new();
    let mut cur = pos;
    let mut k: u64 = 0;
    while k < count
        invariant
            k <= count,
            pos <= cur <= s@.len(),
            spec_xattr_views(v@).len() == k,
            match spec_parse_xattrs_n(s@, cur as int, (count - k) as nat) {
                Option::Some((rest, end)) => spec_parse_xattrs_n(
                    s@,
                    pos as int,
                    count as nat,
                ) == Some((spec_xattr_views(v@) + rest, end)),
                Option::None => spec_parse_xattrs_n(s@, pos as int, count as nat) is None,
            },
        decreases count - k,
    {
        proof {
            lemma_xattrs_n_peel(s@, cur as int, (count - k) as nat);
        }
        let (x, np) = match parse_xattr(s, cur) {
            Ok(h) => h,
            Err(e) => {
                return Err(e);
            },
        };
        let ghost m = (count - k) as nat;
        v.push(x);
        proof {
            let prev = v@.drop_last();
            assert(spec_xattr_views(v@) =~= spec_xattr_views(prev) + seq![x@]);
            match spec_parse_xattrs_n(s@, np as int, (m - 1) as nat) {
                Option::Some((rest, end)) => {
                    assert((spec_xattr_views(prev) + (seq![x@] + rest)) =~= (spec_xattr_views(v@)
                        + rest));
                },
                Option::None => {},
            }
        }
        cur = np;
        k = k + 1;
    }
    proof {
        assert(spec_parse_xattrs_n(s@, cur as int, 0) == Some(
            (Seq::<XattrView>::empty(), cur as int),
        ));
        assert(spec_xattr_views(v@) + Seq::<XattrView>::empty() =~= spec_xattr_views(v@));
    }
    Ok((v, cur))
}

/// Decodes inode side data at `pos`; trailing bytes after the value are
/// left alone.
pub fn parse_inode_additional(s: &[u8], pos: usize) -> (r: Result<
    (InodeAdditional, usize),
    WireFormatError,
>)
    ensures
        match r {
            Ok((a, np)) => {
                &&& spec_parse_inode_additional(s@, pos as int) == Some((a@, np as int))
                &&& np <= s@.len()
            },
            Err(e) => spec_parse_inode_additional(s@, pos as int) is None && is_decode_error(e),
        },
{
    let (n, p1) = match parse_cbor_map_header(s, pos) {
        Ok(h) => h,
        Err(e) => {
            return Err(WireFormatError::CBORError(e));
        },
    };
    if n != 2 {
        return Err(WireFormatError::CBORError(Error::Syntax));
    }
    let p2 = match parse_cbor_key(s, p1, "xattrs") {
        Ok(p) => p,
        Err(e) => {
            return Err(WireFormatError::CBORError(e));
        },
    };
    let (count, p3) = match parse_cbor_array_header(s, p2) {
        Ok(h) => h,
        Err(e) => {
            return Err(WireFormatError::CBORError(e));
        },
    };
    let (xattrs, p4) = parse_xattrs_n(s, p3, count)?;
    let p5 = match parse_cbor_key(s, p4, "symlink_target") {
        Ok(p) => p,
        Err(e) => {
            return Err(WireFormatError::CBORError(e));
        },
    };
    match parse_cbor_null(s, p5) {
        Ok(p6) => Ok((InodeAdditional { xattrs, symlink_target: None }, p6)),
        Err(_) => {
            let (t, p6) = match parse_cbor_bytes(s, p5) {
                Ok(h) => h,
                Err(e) => {
                    return Err(WireFormatError::CBORError(e));
                },
            };
            Ok((InodeAdditional { xattrs, symlink_target: Some(t) }, p6))
        },
    }
}

/// Appends the canonical encoding of one extended attribute to `out`.
pub fn encode_xattr(x: &Xattr, out: &mut Vec<u8>)
    ensures
        final(out)@ == old(out)@ + spec_xattr_bytes(x@),
{
    encode_cbor_header(out, MAJOR_MAP, 2);
    encode_cbor_key(out, "key");
    encode_cbor_bytes(out, x.key.as_slice());
    encode_cbor_key(out, "val");
    encode_cbor_bytes(out, x.val.as_slice());
    assert(final(out)@ =~= old(out)@ + spec_xattr_bytes(x@));
}

/// Appends the canonical encoding of inode side data to `out`.
#[verifier::rlimit(50)]
#[verifier::spinoff_prover]
pub fn encode_inode_additional(a: &InodeAdditional, out: &mut Vec<u8>)
    ensures
        final(out)@ == old(out)@ + spec_inode_additional_bytes(a@),
{
    encode_cbor_header(out, MAJOR_MAP, 2);
    encode_cbor_key(out, "xattrs");
    encode_cbor_header(out, MAJOR_ARRAY, a.xattrs.len() as u64);
    let ghost prefix = out@;
    let mut i: usize = 0;
    while i < a.xattrs.len()
        invariant
            i <= a.xattrs@.len(),
            out@ + spec_xattrs_bytes_from(a@.xattrs, i as int) =~= prefix + spec_xattrs_bytes_from(
                a@.xattrs,
                0,
            ),
            a@.xattrs.len() == a.xattrs@.len(),
            a@.xattrs == spec_xattr_views(a.xattrs@),
        decreases a.xattrs@.len() - i,
    {
        proof {
            assert(spec_xattrs_bytes_from(a@.xattrs, i as int) == spec_xattr_bytes(
                a@.xattrs[i as int],
            ) + spec_xattrs_bytes_from(a@.xattrs, i as int + 1));
            assert(a@.xattrs[i as int] == a.xattrs@[i as int]@);
        }
        encode_xattr(&a.xattrs[i], out);
        i += 1;
    }
    encode_cbor_key(out, "symlink_target");
    match &a.symlink_target {
        Option::None => out.push(0xf6),
        Option::Some(t) => encode_cbor_bytes(out, t.as_slice()),
    }
    assert(final(out)@ =~= old(out)@ + spec_inode_additional_bytes(a@));
}

/// The root manifest: the ordered layer stack (base layer last), reserved
/// integrity data, and the manifest version.
#[derive(Debug, PartialEq, Eq)]
pub struct Rootfs {
    pub metadatas: Vec<BlobRef>,
    pub fs_verity_data: (),
    pub manifest_version: u64,
}

/// The mathematical value of a `Rootfs`.
pub struct RootfsView {
    pub metadatas: Seq<BlobRefView>,
    pub manifest_version: u64,
}

/// The views of a sequence of blob references.
pub open spec fn spec_blob_ref_views(s: Seq<BlobRef>) -> Seq<BlobRefView> {
    Seq::new(s.len(), |i: int| s[i]@)
}

impl View for Rootfs {
    type V = RootfsView;

    open spec fn view(&self) -> RootfsView {
        RootfsView {
            metadatas: spec_blob_ref_views(self.metadatas@),
            manifest_version: self.manifest_version,
        }
    }
}

/// Reads `n` consecutive framed blob references starting at `pos`.
pub open spec fn spec_parse_blob_refs_n(s: Seq<u8>, pos: int, n: nat) -> Option<
    (Seq<BlobRefView>, int),
>
    decreases n,
{
    if n == 0 {
        Some((Seq::empty(), pos))
    } else {
        match spec_parse_blob_ref(s, pos) {
            Option::None => None,
            Option::Some((b, np)) => match spec_parse_blob_refs_n(s, np, (n - 1) as nat) {
                Option::None => None,
                Option::Some((rest, end)) => Some((seq![b] + rest, end)),
            },
        }
    }
}

/// `spec_parse_blob_refs_n` reads one reference and then the rest.
proof fn lemma_blob_refs_n_peel(s: Seq<u8>, pos: int, n: nat)
    requires
        n > 0,
    ensures
        spec_parse_blob_refs_n(s, pos, n) == (match spec_parse_blob_ref(s, pos) {
            Option::None => None::<(Seq<BlobRefView>, int)>,
            Option::Some((b, np)) => match spec_parse_blob_refs_n(s, np, (n - 1) as nat) {
                Option::None => None,
                Option::Some((rest, end)) => Some((seq![b] + rest, end)),
            },
        }),
{
}

/// Reads a root manifest at `pos`: a map of `metadatas` (an array of
/// framed blob references), `fs_verity_data` (reserved, `null`) and
/// `manifest_version` (an unsigned integer).
pub open spec fn spec_parse_rootfs(s: Seq<u8>, pos: int) -> Option<(RootfsView, int)> {
    match spec_parse_map_header(s, pos) {
        Option::None => None,
        Option::Some((n, p1)) => {
            if n != 3 {
                None
            } else {
                match spec_parse_key(s, p1, "metadatas".spec_bytes()) {
                    Option::None => None,
                    Option::Some(p2) => match spec_parse_array_header(s, p2) {
                        Option::None => None,
                        Option::Some((count, p3)) => match spec_parse_blob_refs_n(
                            s,
                            p3,
                            count as nat,
                        ) {
                            Option::None => None,
                            Option::Some((metadatas, p4)) => match spec_parse_key(
                                s,
                                p4,
                                "fs_verity_data".spec_bytes(),
                            ) {
                                Option::None => None,
                                Option::Some(p5) => match spec_parse_null(s, p5) {
                                    Option::None => None,
                                    Option::Some(p6) => match spec_parse_key(
                                        s,
                                        p6,
                                        "manifest_version".spec_bytes(),
                                    ) {
                                        Option::None => None,
                                        Option::Some(p7) => match spec_parse_uint(s, p7) {
                                            Option::None => None,
                                            Option::Some((manifest_version, p8)) => Some(
                                                (RootfsView { metadatas, manifest_version }, p8),
                                            ),
                                        },
                                    },
                                },
                            },
                        },
                    },
                }
            }
        },
    }
}

/// The canonical encoding of the blob references from index `i` on.
pub open spec fn spec_blob_refs_bytes_from(bs: Seq<BlobRefView>, i: int) -> Seq<u8>
    decreases bs.len() - i,
{
    if i < 0 || i >= bs.len() {
        Seq::empty()
    } else {
        spec_blob_ref_bytes(bs[i]) + spec_blob_refs_bytes_from(bs, i + 1)
    }
}

/// The canonical encoding of a root manifest.
pub open spec fn spec_rootfs_bytes(r: RootfsView) -> Seq<u8> {
    spec_cbor_header(MAJOR_MAP, 3) + spec_cbor_key("metadatas".spec_bytes()) + spec_cbor_header(
        MAJOR_ARRAY,
        r.metadatas.len() as u64,
    ) + spec_blob_refs_bytes_from(r.metadatas, 0) + spec_cbor_key("fs_verity_data".spec_bytes())
        + spec_cbor_null() + spec_cbor_key("manifest_version".spec_bytes()) + spec_cbor_header(
        MAJOR_UINT,
        r.manifest_version,
    )
}

/// Parsing starts exactly where the canonical encoding of the references
/// from index `i` on was written, and yields exactly those references.
#[verifier::rlimit(100)]
#[verifier::spinoff_prover]
proof fn lemma_parse_of_blob_refs_from(bs: Seq<BlobRefView>, i: int, s: Seq<u8>, pos: int)
    requires
        forall|k: int| 0 <= k < bs.len() ==> (#[trigger] bs[k]).wf(),
        0 <= i <= bs.len(),
        0 <= pos,
        pos + spec_blob_refs_bytes_from(bs, i).len() <= s.len(),
        s.subrange(pos, pos + spec_blob_refs_bytes_from(bs, i).len()) == spec_blob_refs_bytes_from(
            bs,
            i,
        ),
    ensures
        spec_parse_blob_refs_n(s, pos, (bs.len() - i) as nat) == Some(
            (bs.skip(i), pos + spec_blob_refs_bytes_from(bs, i).len()),
        ),
    decreases bs.len() - i,
{
    if i == bs.len() {
        assert(bs.skip(i) =~= Seq::<BlobRefView>::empty());
    } else {
        let whole = spec_blob_refs_bytes_from(bs, i);
        let head = spec_blob_ref_bytes(bs[i]);
        let rest = spec_blob_refs_bytes_from(bs, i + 1);
        assert(whole == head + rest);
        assert forall|j: int| 0 <= j < whole.len() implies s[pos + j] == whole[j] by {
            assert(s.subrange(pos, pos + whole.len() as int)[j] == s[pos + j]);
        }
        assert forall|j: int| 0 <= j < head.len() implies s[pos + j] == head[j] by {
            assert(whole[j] == head[j]);
        }
        assert(s.subrange(pos, pos + head.len() as int) =~= head);
        crate::types::lemma_parse_of_blob_ref(bs[i], s, pos);
        assert forall|j: int| 0 <= j < rest.len() implies s[pos + head.len() + j] == rest[j] by {
            assert(s[pos + (head.len() + j)] == whole[head.len() + j]);
            assert(whole[head.len() + j] == rest[j]);
        }
        assert(s.subrange(pos + head.len(), pos + head.len() + rest.len() as int) =~= rest);
        lemma_parse_of_blob_refs_from(bs, i + 1, s, pos + head.len() as int);
        lemma_blob_refs_n_peel(s, pos, (bs.len() - i) as nat);
        assert(seq![bs[i]] + bs.skip(i + 1) =~= bs.skip(i));
    }
}

/// The leading items of an encoded root manifest each parse at their own
/// offset.
#[verifier::rlimit(100)]
#[verifier::spinoff_prover]
proof fn lemma_rootfs_head(r: RootfsView)
    requires
        forall|k: int| 0 <= k < r.metadatas.len() ==> (#[trigger] r.metadatas[k]).wf(),
        r.metadatas.len() <= u64::MAX,
    ensures
        ({
            let s = spec_rootfs_bytes(r);
            let o3 = 11 + spec_cbor_header(MAJOR_ARRAY, r.metadatas.len() as u64).len() as int;
            let o4 = o3 + spec_blob_refs_bytes_from(r.metadatas, 0).len() as int;
            &&& spec_parse_map_header(s, 0) == Some((3u64, 1int))
            &&& spec_parse_key(s, 1, "metadatas".spec_bytes()) == Some(11int)
            &&& spec_parse_array_header(s, 11) == Some((r.metadatas.len() as u64, o3))
            &&& spec_parse_blob_refs_n(s, o3, r.metadatas.len()) == Some((r.metadatas, o4))
        }),
{
    reveal_strlit("metadatas");
    assert(vstd::string::is_ascii("metadatas"));
    vstd::string::is_ascii_spec_bytes("metadatas");
    let s = spec_rootfs_bytes(r);
    let hd = spec_cbor_header(MAJOR_MAP, 3);
    let k1 = spec_cbor_key("metadatas".spec_bytes());
    let h = spec_cbor_header(MAJOR_ARRAY, r.metadatas.len() as u64);
    let body = spec_blob_refs_bytes_from(r.metadatas, 0);
    assert(hd.len() == 1);
    assert("metadatas".spec_bytes().len() == 9);
    assert(k1.len() == 10);
    let o3 = 11 + h.len() as int;
    assert(s.subrange(0, s.len() as int) =~= s);
    assert(s.subrange(0int, 1int) =~= hd);
    lemma_parse_of_cbor_header(MAJOR_MAP, 3, s, 0);
    assert(s.subrange(1int, 11int) =~= k1);
    lemma_parse_of_cbor_key("metadatas".spec_bytes(), s, 1);
    assert(s.subrange(11int, o3) =~= h);
    lemma_parse_of_cbor_header(MAJOR_ARRAY, r.metadatas.len() as u64, s, 11);
    assert(s.subrange(o3, o3 + body.len() as int) =~= body);
    lemma_parse_of_blob_refs_from(r.metadatas, 0, s, o3);
    assert(r.metadatas.skip(0) =~= r.metadatas);
}

/// The trailing items of an encoded root manifest each parse at their
/// own offset.
#[verifier::rlimit(100)]
#[verifier::spinoff_prover]
proof fn lemma_rootfs_tail(r: RootfsView)
    requires
        forall|k: int| 0 <= k < r.metadatas.len() ==> (#[trigger] r.metadatas[k]).wf(),
        r.metadatas.len() <= u64::MAX,
    ensures
        ({
            let s = spec_rootfs_bytes(r);
            let o3 = 11 + spec_cbor_header(MAJOR_ARRAY, r.metadatas.len() as u64).len() as int;
            let o4 = o3 + spec_blob_refs_bytes_from(r.metadatas, 0).len() as int;
            let o6 = o4 + 16;
            let o7 = o6 + 17;
            &&& spec_parse_key(s, o4, "fs_verity_data".spec_bytes()) == Some(o4 + 15)
            &&& spec_parse_null(s, o4 + 15) == Some(o6)
            &&& spec_parse_key(s, o6, "manifest_version".spec_bytes()) == Some(o7)
            &&& spec_parse_uint(s, o7) == Some((r.manifest_version, s.len() as int))
        }),
{
    reveal_strlit("metadatas");
    reveal_strlit("fs_verity_data");
    reveal_strlit("manifest_version");
    assert(vstd::string::is_ascii("metadatas"));
    assert(vstd::string::is_ascii("fs_verity_data"));
    assert(vstd::string::is_ascii("manifest_version"));
    vstd::string::is_ascii_spec_bytes("metadatas");
    vstd::string::is_ascii_spec_bytes("fs_verity_data");
    vstd::string::is_ascii_spec_bytes("manifest_version");
    let s = spec_rootfs_bytes(r);
    let h = spec_cbor_header(MAJOR_ARRAY, r.metadatas.len() as u64);
    let body = spec_blob_refs_bytes_from(r.metadatas, 0);
    let k2 = spec_cbor_key("fs_verity_data".spec_bytes());
    let nl = spec_cbor_null();
    let k3 = spec_cbor_key("manifest_version".spec_bytes());
    let e = spec_cbor_header(MAJOR_UINT, r.manifest_version);
    assert("fs_verity_data".spec_bytes().len() == 14);
    assert("manifest_version".spec_bytes().len() == 16);
    assert(k2.len() == 15);
    assert(k3.len() == 17);
    let o3 = 11 + h.len() as int;
    let o4 = o3 + body.len() as int;
    let o5 = o4 + 15;
    let o6 = o5 + 1;
    let o7 = o6 + 17;
    let p3 = spec_cbor_header(MAJOR_MAP, 3) + spec_cbor_key("metadatas".spec_bytes()) + h + body;
    let p4 = p3 + k2;
    let p5 = p4 + nl;
    let p6 = p5 + k3;
    assert(s == p6 + e);
    assert(p3.len() == o4);
    assert(p4.len() == o5);
    assert(p5.len() == o6);
    assert(p6.len() == o7);
    assert(s.subrange(0, s.len() as int) =~= s);
    assert forall|j: int| 0 <= j < 15 implies s[o4 + j] == k2[j] by {
        assert(s[o4 + j] == p6[o4 + j]);
        assert(p6[o4 + j] == p5[o4 + j]);
        assert(p5[o4 + j] == p4[o4 + j]);
        assert(p4[o4 + j] == k2[o4 + j - p3.len()]);
    }
    assert(s.subrange(o4, o4 + 15) =~= k2);
    lemma_parse_of_cbor_key("fs_verity_data".spec_bytes(), s, o4);
    assert forall|j: int| 0 <= j < 1 implies s[o5 + j] == nl[j] by {
        assert(s[o5 + j] == p6[o5 + j]);
        assert(p6[o5 + j] == p5[o5 + j]);
        assert(p5[o5 + j] == nl[o5 + j - p4.len()]);
    }
    assert(s.subrange(o5, o5 + 1) =~= nl);
    lemma_parse_of_cbor_null(s, o5);
    assert forall|j: int| 0 <= j < 17 implies s[o6 + j] == k3[j] by {
        assert(s[o6 + j] == p6[o6 + j]);
        assert(p6[o6 + j] == k3[o6 + j - p5.len()]);
    }
    assert(s.subrange(o6, o6 + 17) =~= k3);
    lemma_parse_of_cbor_key("manifest_version".spec_bytes(), s, o6);
    assert forall|j: int| 0 <= j < e.len() implies s[o7 + j] == e[j] by {
        assert(s[o7 + j] == e[o7 + j - p6.len()]);
    }
    assert(s.subrange(o7, o7 + e.len() as int) =~= e);
    lemma_parse_of_cbor_header(MAJOR_UINT, r.manifest_version, s, o7);
}

/// Decoding the bytes a root manifest encodes yields the same manifest.
#[verifier::rlimit(100)]
#[verifier::spinoff_prover]
pub proof fn lemma_rootfs_round_trip(r: RootfsView)
    requires
        forall|k: int| 0 <= k < r.metadatas.len() ==> (#[trigger] r.metadatas[k]).wf(),
        r.metadatas.len() <= u64::MAX,
    ensures
        spec_parse_rootfs(spec_rootfs_bytes(r), 0) == Some((r, spec_rootfs_bytes(r).len() as int)),
{
    lemma_rootfs_head(r);
    lemma_rootfs_tail(r);
}

/// Decodes `count` consecutive framed blob references starting at `pos`.
fn parse_blob_refs_n(s: &[u8], pos: usize, count: u64) -> (r: Result<
    (Vec<BlobRef>, usize),
    WireFormatError,
>)
    requires
        pos <= s@.len(),
    ensures
        match r {
            Ok((v, np)) => {
                &&& spec_parse_blob_refs_n(s@, pos as int, count as nat) == Some(
                    (spec_blob_ref_views(v@), np as int),
                )
                &&& np <= s@.len()
                &&& pos <= np
            },
            Err(e) => spec_parse_blob_refs_n(s@, pos as int, count as nat) is None && is_decode_error(
                e,
            ),
        },
{
    let mut v: Vec<BlobRef> = Vec::new();
    let mut cur = pos;
    let mut k: u64 = 0;
    while k < count
        invariant
            k <= count,
            pos <= cur <= s@.len(),
            spec_blob_ref_views(v@).len() == k,
            match spec_parse_blob_refs_n(s@, cur as int, (count - k) as nat) {
                Option::Some((rest, end)) => spec_parse_blob_refs_n(
                    s@,
                    pos as int,
                    count as nat,
                ) == Some((spec_blob_ref_views(v@) + rest, end)),
                Option::None => spec_parse_blob_refs_n(s@, pos as int, count as nat) is None,
            },
        decreases count - k,
    {
        proof {
            lemma_blob_refs_n_peel(s@, cur as int, (count - k) as nat);
        }
        let (b, np) = match BlobRef::deserialize(s, cur) {
            Ok(h) => h,
            Err(e) => {
                return Err(e);
            },
        };
        let ghost m = (count - k) as nat;
        v.push(b);
        proof {
            let prev = v@.drop_last();
            assert(spec_blob_ref_views(v@) =~= spec_blob_ref_views(prev) + seq![b@]);
            match spec_parse_blob_refs_n(s@, np as int, (m - 1) as nat) {
                Option::Some((rest, end)) => {
                    assert((spec_blob_ref_views(prev) + (seq![b@] + rest)) =~= (spec_blob_ref_views(
                        v@,
                    ) + rest));
                },
                Option::None => {},
            }
        }
        cur = np;
        k = k + 1;
    }
    proof {
        assert(spec_parse_blob_refs_n(s@, cur as int, 0) == Some(
            (Seq::<BlobRefView>::empty(), cur as int),
        ));
        assert(spec_blob_ref_views(v@) + Seq::<BlobRefView>::empty() =~= spec_blob_ref_views(v@));
    }
    Ok((v, cur))
}

/// Decodes a root manifest at `pos`; trailing bytes after the value are
/// left alone.
pub fn parse_rootfs(s: &[u8], pos: usize) -> (r: Result<(Rootfs, usize), WireFormatError>)
    ensures
        match r {
            Ok((rf, np)) => {
                &&& spec_parse_rootfs(s@, pos as int) == Some((rf@, np as int))
                &&& np <= s@.len()
            },
            Err(e) => spec_parse_rootfs(s@, pos as int) is None && is_decode_error(e),
        },
{
    let (n, p1) = match parse_cbor_map_header(s, pos) {
        Ok(h) => h,
        Err(e) => {
            return Err(WireFormatError::CBORError(e));
        },
    };
    if n != 3 {
        return Err(WireFormatError::CBORError(Error::Syntax));
    }
    let p2 = match parse_cbor_key(s, p1, "metadatas") {
        Ok(p) => p,
        Err(e) => {
            return Err(WireFormatError::CBORError(e));
        },
    };
    let (count, p3) = match parse_cbor_array_header(s, p2) {
        Ok(h) => h,
        Err(e) => {
            return Err(WireFormatError::CBORError(e));
        },
    };
    let (metadatas, p4) = parse_blob_refs_n(s, p3, count)?;
    let p5 = match parse_cbor_key(s, p4, "fs_verity_data") {
        Ok(p) => p,
        Err(e) => {
            return Err(WireFormatError::CBORError(e));
        },
    };
    let p6 = match parse_cbor_null(s, p5) {
        Ok(p) => p,
        Err(_) => {
            return Err(WireFormatError::InvalidFsVerityData);
        },
    };
    let p7 = match parse_cbor_key(s, p6, "manifest_version") {
        Ok(p) => p,
        Err(e) => {
            return Err(WireFormatError::CBORError(e));
        },
    };
    let (manifest_version, p8) = match parse_cbor_uint(s, p7) {
        Ok(h) => h,
        Err(e) => {
            return Err(WireFormatError::CBORError(e));
        },
    };
    Ok((Rootfs { metadatas, fs_verity_data: (), manifest_version }, p8))
}

impl Rootfs {
    /// Parses a root manifest from the full contents of its blob.
    pub fn open(data: &[u8]) -> (r: Result<Rootfs, WireFormatError>)
        ensures
            match r {
                Ok(rf) => exists|end: int| spec_parse_rootfs(data@, 0) == Some((rf@, end)),
                Err(e) => {
                    &&& spec_parse_rootfs(data@, 0) is None
                    &&& is_decode_error(e)
                    &&& data@.len() == 0 ==> e == WireFormatError::ValueMissing
                },
            },
    {
        if data.len() == 0 {
            // the decoder expected a manifest and found no value at all
            return Err(WireFormatError::ValueMissing);
        }
        let (rf, _) = parse_rootfs(data, 0)?;
        Ok(rf)
    }
}

/// Appends the canonical encoding of a root manifest to `out`.
#[verifier::rlimit(50)]
#[verifier::spinoff_prover]
pub fn encode_rootfs(r: &Rootfs, out: &mut Vec<u8>)
    ensures
        final(out)@ == old(out)@ + spec_rootfs_bytes(r@),
{
    encode_cbor_header(out, MAJOR_MAP, 3);
    encode_cbor_key(out, "metadatas");
    encode_cbor_header(out, MAJOR_ARRAY, r.metadatas.len() as u64);
    let ghost prefix = out@;
    let mut i: usize = 0;
    while i < r.metadatas.len()
        invariant
            i <= r.metadatas@.len(),
            out@ + spec_blob_refs_bytes_from(r@.metadatas, i as int) =~= prefix
                + spec_blob_refs_bytes_from(r@.metadatas, 0),
            r@.metadatas.len() == r.metadatas@.len(),
            r@.metadatas == spec_blob_ref_views(r.metadatas@),
        decreases r.metadatas@.len() - i,
    {
        proof {
            assert(spec_blob_refs_bytes_from(r@.metadatas, i as int) == spec_blob_ref_bytes(
                r@.metadatas[i as int],
            ) + spec_blob_refs_bytes_from(r@.metadatas, i as int + 1));
            assert(r@.metadatas[i as int] == r.metadatas@[i as int]@);
        }
        r.metadatas[i].serialize(out);
        i += 1;
    }
    encode_cbor_key(out, "fs_verity_data");
    out.push(0xf6);
    encode_cbor_key(out, "manifest_version");
    encode_cbor_header(out, MAJOR_UINT, r.manifest_version);
    assert(final(out)@ =~= old(out)@ + spec_rootfs_bytes(r@));
}

} // verus!
