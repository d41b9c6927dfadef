//! The layered resolver and the file reader.
//!
//! A `PuzzleFS` holds an opened image and an ordered stack of metadata
//! blobs, top layer first.  Resolving an inode number walks the stack and
//! takes the first layer that has the number; a whiteout record there
//! means the inode was deleted in that layer, and the lookup reports
//! not-found even when a lower layer still has it.  A resolved regular
//! file carries its chunk list, and reading a byte range walks the chunks
//! in order, fetching each from the blob store.

use vstd::prelude::*;
use vstd::seq_lib::group_to_multiset_ensures;
use vstd::multiset::Multiset;
use crate::error::{WireFormatError, is_decode_error};
use crate::types;
use crate::types::Ino;
use crate::metadata::MetadataBlob;
use crate::oci::Image;
use crate::records::{FileChunk, FileChunkView, InodeAdditional, DirListView};
use crate::types::BlobRefKindView;

verus! {

broadcast use group_to_multiset_ensures;

/// Strict lexicographic order on byte strings; a proper prefix sorts
/// first.
pub open spec fn lex_lt(a: Seq<u8>, b: Seq<u8>) -> bool
    decreases a.len(),
{
    if b.len() == 0 {
        false
    } else if a.len() == 0 {
        true
    } else if a[0] < b[0] {
        true
    } else if a[0] > b[0] {
        false
    } else {
        lex_lt(a.drop_first(), b.drop_first())
    }
}

/// When two strings agree on their first `i` bytes, their order is the
/// order of their tails.
proof fn lemma_lex_skip(a: Seq<u8>, b: Seq<u8>, i: int)
    requires
        0 <= i <= a.len(),
        i <= b.len(),
        forall|j: int| 0 <= j < i ==> a[j] == b[j],
    ensures
        lex_lt(a, b) == lex_lt(a.skip(i), b.skip(i)),
    decreases i,
{
    if i > 0 {
        lemma_lex_skip(a, b, i - 1);
        assert(a.skip(i - 1)[0] == a[i - 1]);
        assert(b.skip(i - 1)[0] == b[i - 1]);
        assert(a.skip(i - 1).drop_first() =~= a.skip(i));
        assert(b.skip(i - 1).drop_first() =~= b.skip(i));
    } else {
        assert(a.skip(0) =~= a);
        assert(b.skip(0) =~= b);
    }
}

/// Nothing sorts before itself.
proof fn lemma_lex_irrefl(a: Seq<u8>)
    ensures
        !lex_lt(a, a),
    decreases a.len(),
{
    if a.len() > 0 {
        lemma_lex_irrefl(a.drop_first());
    }
}

/// The order is transitive.
proof fn lemma_lex_trans(a: Seq<u8>, b: Seq<u8>, c: Seq<u8>)
    requires
        lex_lt(a, b),
        lex_lt(b, c),
    ensures
        lex_lt(a, c),
    decreases a.len() + b.len() + c.len(),
{
    if a.len() > 0 && b.len() > 0 && c.len() > 0 {
        if a[0] == b[0] && b[0] == c[0] {
            lemma_lex_trans(a.drop_first(), b.drop_first(), c.drop_first());
        }
    }
}

/// Compares two names byte-wise.
fn name_lt(a: &Vec<u8>, b: &Vec<u8>) -> (r: bool)
    ensures
        r == lex_lt(a@, b@),
{
    let alen = a.len();
    let blen = b.len();
    let mut i: usize = 0;
    while i < alen && i < blen
        invariant
            alen == a@.len(),
            blen == b@.len(),
            i <= alen,
            i <= blen,
            forall|j: int| 0 <= j < i ==> a@[j] == b@[j],
        decreases alen - i,
    {
        if a[i] < b[i] {
            proof {
                lemma_lex_skip(a@, b@, i as int);
                assert(a@.skip(i as int)[0] == a@[i as int]);
                assert(b@.skip(i as int)[0] == b@[i as int]);
            }
            return true;
        }
        if a[i] > b[i] {
            proof {
                lemma_lex_skip(a@, b@, i as int);
                assert(a@.skip(i as int)[0] == a@[i as int]);
                assert(b@.skip(i as int)[0] == b@[i as int]);
            }
            return false;
        }
        i += 1;
    }
    proof {
        lemma_lex_skip(a@, b@, i as int);
        if i == alen {
            assert(a@.skip(i as int).len() == 0);
        } else {
            assert(b@.skip(i as int).len() == 0);
            assert(a@.skip(i as int).len() > 0);
        }
    }
    alen < blen
}

/// The views of resolved directory entries: each name with its inode
/// number.
pub open spec fn entry_views(s: Seq<(Vec<u8>, Ino)>) -> Seq<(Seq<u8>, Ino)> {
    Seq::new(s.len(), |i: int| (s[i].0@, s[i].1))
}

/// The entries are in ascending name order (no inversions).
pub open spec fn entries_sorted(s: Seq<(Seq<u8>, Ino)>) -> bool {
    forall|i: int, j: int|
        #![trigger s[i], s[j]]
        0 <= i < j < s.len() ==> !lex_lt(s[j].0, s[i].0)
}

/// Sorts directory entries by name, keeping exactly the same entries.
fn sort_entries(v: Vec<(Vec<u8>, Ino)>) -> (r: Vec<(Vec<u8>, Ino)>)
    ensures
        entries_sorted(entry_views(r@)),
        entry_views(r@).to_multiset() == entry_views(v@).to_multiset(),
{
    let ghost orig = entry_views(v@).to_multiset();
    let mut rem = v;
    let mut res: Vec<(Vec<u8>, Ino)> = Vec::new();
    proof {
        assert(entry_views(res@).to_multiset().add(entry_views(rem@).to_multiset()) =~= orig);
    }
    while rem.len() > 0
        invariant
            entries_sorted(entry_views(res@)),
            entry_views(res@).to_multiset().add(entry_views(rem@).to_multiset()) == orig,
            forall|i: int, j: int|
                #![trigger entry_views(res@)[i], entry_views(rem@)[j]]
                0 <= i < res@.len() && 0 <= j < rem@.len() ==> !lex_lt(
                    entry_views(rem@)[j].0,
                    entry_views(res@)[i].0,
                ),
        decreases rem@.len(),
    {
        let mut m: usize = 0;
        let mut t: usize = 1;
        proof {
            lemma_lex_irrefl(entry_views(rem@)[0].0);
        }
        while t < rem.len()
            invariant
                rem@.len() > 0,
                m < t,
                t <= rem@.len(),
                forall|j: int|
                    0 <= j < t ==> !lex_lt(
                        #[trigger] entry_views(rem@)[j].0,
                        entry_views(rem@)[m as int].0,
                    ),
            decreases rem@.len() - t,
        {
            if name_lt(&rem[t].0, &rem[m].0) {
                proof {
                    assert forall|j: int| 0 <= j < t implies !lex_lt(
                        #[trigger] entry_views(rem@)[j].0,
                        entry_views(rem@)[t as int].0,
                    ) by {
                        if lex_lt(entry_views(rem@)[j].0, entry_views(rem@)[t as int].0) {
                            lemma_lex_trans(
                                entry_views(rem@)[j].0,
                                entry_views(rem@)[t as int].0,
                                entry_views(rem@)[m as int].0,
                            );
                        }
                    }
                }
                proof {
                    lemma_lex_irrefl(entry_views(rem@)[t as int].0);
                }
                m = t;
            }
            t += 1;
        }
        let ghost old_rem = rem@;
        let ghost old_res = res@;
        let ghost e_v = entry_views(rem@)[m as int];
        let e = rem.remove(m);
        proof {
            assert(e.0@ == e_v.0 && e.1 == e_v.1);
        }
        res.push(e);
        proof {
            assert(entry_views(res@) =~= entry_views(old_res).push(e_v));
            assert(entry_views(rem@) =~= entry_views(old_rem).remove(m as int));
            assert(entry_views(old_rem)[m as int] == e_v);
            // multisets: one entry moved from the remainder to the result
            assert(entry_views(res@).to_multiset() =~= entry_views(old_res).to_multiset().insert(
                e_v,
            ));
            assert(entry_views(rem@).to_multiset() =~= entry_views(old_rem).to_multiset().remove(
                e_v,
            ));
            assert(entry_views(old_rem).to_multiset().count(e_v) > 0) by {
                assert(entry_views(old_rem).contains(e_v));
            }
            assert(entry_views(res@).to_multiset().add(entry_views(rem@).to_multiset()) =~= orig);
            // the minimum sorts after everything already placed, and
            // before everything left
            assert forall|i: int, j: int|
                0 <= i < res@.len() && 0 <= j < rem@.len() implies !lex_lt(
                #[trigger] entry_views(rem@)[j].0,
                #[trigger] entry_views(res@)[i].0,
            ) by {
                let x = entry_views(rem@)[j];
                assert(x == if j < m {
                    entry_views(old_rem)[j]
                } else {
                    entry_views(old_rem)[j + 1]
                });
                if i < old_res.len() {
                    assert(entry_views(res@)[i] == entry_views(old_res)[i]);
                } else {
                    assert(entry_views(res@)[i] == e_v);
                    if lex_lt(x.0, e_v.0) {
                        assert(false);
                    }
                }
            }
            assert(entries_sorted(entry_views(res@))) by {
                assert forall|i: int, j: int|
                    0 <= i < j < res@.len() implies !lex_lt(
                    #[trigger] entry_views(res@)[j].0,
                    #[trigger] entry_views(res@)[i].0,
                ) by {
                    if j + 1 == res@.len() {
                        assert(entry_views(res@)[j] == e_v);
                        assert(entry_views(res@)[i] == entry_views(old_res)[i]);
                    } else {
                        assert(entry_views(res@)[i] == entry_views(old_res)[i]);
                        assert(entry_views(res@)[j] == entry_views(old_res)[j]);
                    }
                }
            }
        }
    }
    proof {
        assert(entry_views(rem@).to_multiset() =~= Multiset::<(Seq<u8>, Ino)>::empty()) by {
            assert(entry_views(rem@).len() == 0);
            assert(entry_views(rem@) =~= Seq::<(Seq<u8>, Ino)>::empty());
        }
        assert(entry_views(res@).to_multiset() =~= orig);
    }
    res
}

/// What a resolved inode carries: a regular file's chunk list, a
/// directory's entries sorted by name, or nothing for the other kinds.
#[derive(Debug)]
pub enum InodeMode {
    File { chunks: Vec<FileChunk> },
    Dir { entries: Vec<(Vec<u8>, Ino)> },
    Other,
}

/// A resolved inode: the fixed record together with its decoded side
/// data.
#[derive(Debug)]
pub struct Inode {
    pub inode: types::Inode,
    pub mode: InodeMode,
    pub additional: Option<InodeAdditional>,
}

/// The (name, inode number) pairs of a decoded directory listing.
pub open spec fn dir_entry_pairs(dl: DirListView) -> Seq<(Seq<u8>, Ino)> {
    Seq::new(dl.entries.len(), |i: int| (dl.entries[i].name, dl.entries[i].ino))
}

/// How a resolved inode relates to the layer it was resolved against:
/// the record is kept as is; a regular file's chunk list is the one
/// decoded at the record's offset; a directory's entries are exactly the
/// decoded ones, sorted by name; side data is decoded from the record's
/// `Local` reference.
pub open spec fn resolved_matches(buf: Seq<u8>, iv: types::InodeView, ri: Inode) -> bool {
    &&& ri.inode@ == iv
    &&& match iv.mode {
        types::InodeMode::Reg { offset } => (crate::records::spec_parse_file_chunk_list(
            buf,
            offset as int,
        ) matches Some((cs, _)) && (ri.mode matches InodeMode::File { chunks }
            && crate::records::spec_chunk_views(chunks@) == cs)),
        types::InodeMode::Dir { offset } => (crate::records::spec_parse_dir_list(
            buf,
            offset as int,
        ) matches Some((dl, _)) && (ri.mode matches InodeMode::Dir { entries } && entries_sorted(
            entry_views(entries@),
        ) && entry_views(entries@).to_multiset() == dir_entry_pairs(dl).to_multiset())),
        _ => ri.mode is Other,
    }
    &&& match iv.additional {
        Option::None => ri.additional is None,
        Option::Some(br) => br.kind is Local && (crate::records::spec_parse_inode_additional(
            buf,
            br.offset as int,
        ) matches Some((av, _)) && (ri.additional matches Some(a) && a@ == av)),
    }
}

/// Whether a record's side data can be resolved against a layer: its
/// offsets decode, and its extra data, if any, lies in the same blob.
pub open spec fn resolvable(buf: Seq<u8>, iv: types::InodeView) -> bool {
    &&& match iv.mode {
        types::InodeMode::Reg { offset } => crate::records::spec_parse_file_chunk_list(
            buf,
            offset as int,
        ) is Some,
        types::InodeMode::Dir { offset } => crate::records::spec_parse_dir_list(
            buf,
            offset as int,
        ) is Some,
        _ => true,
    }
    &&& match iv.additional {
        Option::Some(br) => br.kind is Local && crate::records::spec_parse_inode_additional(
            buf,
            br.offset as int,
        ) is Some,
        Option::None => true,
    }
}

impl Inode {
    /// Resolves a fixed record against the layer it came from, decoding
    /// its side data.
    pub fn new(layer: &MetadataBlob, inode: types::Inode) -> (r: Result<Inode, WireFormatError>)
        ensures
            match r {
                Ok(ri) => resolved_matches(layer.buf(), inode@, ri),
                Err(e) => {
                    &&& !resolvable(layer.buf(), inode@)
                    &&& (is_decode_error(e) || e == WireFormatError::SeekOtherError)
                },
            },
    {
        let mode = match inode.mode {
            types::InodeMode::Reg { offset } => {
                let chunks = layer.read_file_chunks(offset)?;
                InodeMode::File { chunks }
            },
            types::InodeMode::Dir { offset } => {
                let dl = layer.read_dir_list(offset)?;
                let ghost dlv = dl@;
                let ents = dl.entries;
                let mut entries: Vec<(Vec<u8>, Ino)> = Vec::new();
                let n = ents.len();
                let mut i: usize = 0;
                while i < n
                    invariant
                        i <= n,
                        n == ents@.len(),
                        dlv.entries == crate::records::spec_dir_ent_views(ents@),
                        entry_views(entries@) =~= dir_entry_pairs(dlv).subrange(0, i as int),
                    decreases n - i,
                {
                    let name = vstd::slice::slice_to_vec(ents[i].name.as_slice());
                    let ino = ents[i].ino;
                    let ghost name_v = name@;
                    let ghost pre = entries@;
                    entries.push((name, ino));
                    proof {
                        assert(name_v == ents@[i as int].name@);
                        assert(entry_views(pre).len() == pre.len());
                        assert(entry_views(pre) == dir_entry_pairs(dlv).subrange(0, i as int));
                        assert(pre.len() == i as int);
                        assert(entries@.len() == i + 1);
                        assert(entries@[i as int].0@ == name_v);
                        assert(entries@[i as int].1 == ino);
                        assert(dlv.entries[i as int] == crate::records::spec_dir_ent_views(
                            ents@,
                        )[i as int]);
                        assert(dir_entry_pairs(dlv)[i as int] == (
                            ents@[i as int].name@,
                            ents@[i as int].ino,
                        ));
                        assert(entry_views(entries@)[i as int] == (
                            ents@[i as int].name@,
                            ents@[i as int].ino,
                        ));
                        assert(entry_views(entries@) =~= dir_entry_pairs(dlv).subrange(
                            0,
                            i + 1 as int,
                        ));
                    }
                    i += 1;
                }
                proof {
                    assert(dir_entry_pairs(dlv).subrange(0, n as int) =~= dir_entry_pairs(dlv));
                }
                let sorted = sort_entries(entries);
                InodeMode::Dir { entries: sorted }
            },
            _ => InodeMode::Other,
        };
        let additional = match inode.additional {
            Option::Some(br) => Some(layer.read_inode_additional(&br)?),
            Option::None => None,
        };
        Ok(Inode { inode, mode, additional })
    }
}

/// The smaller of two integers.
pub open spec fn spec_min(a: int, b: int) -> int {
    if a <= b {
        a
    } else {
        b
    }
}

/// The body of one chunk: the referenced byte range of the blob the
/// store holds for it.
pub open spec fn chunk_body(oci: Image, c: FileChunkView) -> Seq<u8> {
    match c.blob.kind {
        BlobRefKindView::Other { digest } => match oci.spec_lookup(digest) {
            Option::Some(blob) => blob.subrange(
                c.blob.offset as int,
                c.blob.offset as int + c.len as int,
            ),
            Option::None => Seq::empty(),
        },
        BlobRefKindView::Local => Seq::empty(),
    }
}

/// The store fully backs this chunk: it names another blob by digest,
/// the store holds that blob, and the referenced range lies inside it.
pub open spec fn chunk_in_store(oci: Image, c: FileChunkView) -> bool {
    c.blob.kind matches BlobRefKindView::Other { digest } && (oci.spec_lookup(digest) matches Some(
        blob,
    ) && c.blob.offset as int + c.len as int <= blob.len())
}

/// The number of file bytes contributed by the chunks before index `k`.
pub open spec fn pre_len(cs: Seq<FileChunkView>, k: int) -> int
    decreases k,
{
    if k <= 0 {
        0
    } else {
        pre_len(cs, k - 1) + cs[k - 1].len
    }
}

/// The store fully backs every chunk, and the file length fits in a
/// `usize`.
pub open spec fn chunks_wf(oci: Image, cs: Seq<FileChunkView>) -> bool {
    &&& forall|k: int| 0 <= k < cs.len() ==> chunk_in_store(oci, #[trigger] cs[k])
    &&& pre_len(cs, cs.len() as int) <= usize::MAX
}

/// A file's contents: the concatenation of its chunk bodies, in order.
pub open spec fn file_contents(oci: Image, cs: Seq<FileChunkView>) -> Seq<u8>
    decreases cs.len(),
{
    if cs.len() == 0 {
        Seq::empty()
    } else {
        chunk_body(oci, cs[0]) + file_contents(oci, cs.drop_first())
    }
}

/// Whether the walk for a read starting at `offset` reaches chunk `k`
/// and asks the store for it: every chunk that does not end strictly
/// before `offset` is reached.  That includes chunks at or past the
/// requested end — the walk asks them for zero bytes, but a compressed
/// one still fails, exactly as a chunk starting at the requested end
/// does.
pub open spec fn chunk_touched(cs: Seq<FileChunkView>, offset: int, k: int) -> bool {
    pre_len(cs, k) + cs[k].len >= offset
}

/// How many bytes a read of `buflen` bytes at `offset` yields from a file
/// of `total` bytes.
pub open spec fn spec_file_read_len(total: int, offset: int, buflen: int) -> int {
    if offset >= total {
        0
    } else {
        spec_min(buflen, total - offset)
    }
}

/// Prefix lengths never go negative.
proof fn lemma_pre_len_nonneg(cs: Seq<FileChunkView>, k: int)
    requires
        0 <= k,
    ensures
        0 <= pre_len(cs, k),
    decreases k,
{
    if k > 0 {
        lemma_pre_len_nonneg(cs, k - 1);
    }
}

/// Prefix lengths never shrink.
proof fn lemma_pre_len_le(cs: Seq<FileChunkView>, a: int, b: int)
    requires
        0 <= a <= b,
    ensures
        0 <= pre_len(cs, a) <= pre_len(cs, b),
    decreases b - a,
{
    lemma_pre_len_nonneg(cs, a);
    if a < b {
        lemma_pre_len_le(cs, a, b - 1);
    }
}

/// Peeling the first chunk off a prefix length.
proof fn lemma_pre_len_drop(cs: Seq<FileChunkView>, k: int)
    requires
        1 <= k <= cs.len(),
    ensures
        pre_len(cs, k) == cs[0].len + pre_len(cs.drop_first(), k - 1),
    decreases k,
{
    if k == 1 {
        assert(pre_len(cs, 0) == 0);
        assert(pre_len(cs.drop_first(), 0) == 0);
    } else {
        lemma_pre_len_drop(cs, k - 1);
        assert(cs.drop_first()[k - 2] == cs[k - 1]);
    }
}

/// A fully backed file is as long as its chunks claim.
proof fn lemma_contents_len(oci: Image, cs: Seq<FileChunkView>)
    requires
        forall|k: int| 0 <= k < cs.len() ==> chunk_in_store(oci, #[trigger] cs[k]),
    ensures
        file_contents(oci, cs).len() == pre_len(cs, cs.len() as int),
    decreases cs.len(),
{
    if cs.len() > 0 {
        assert(chunk_in_store(oci, cs[0]));
        assert(forall|k: int|
            0 <= k < cs.drop_first().len() ==> cs.drop_first()[k] == cs[k + 1]);
        lemma_contents_len(oci, cs.drop_first());
        lemma_pre_len_drop(cs, cs.len() as int);
    }
}

/// The byte at position `pre_len(cs, k) + t` of the file is byte `t` of
/// chunk `k`'s body.
proof fn lemma_contents_index(oci: Image, cs: Seq<FileChunkView>, k: int, t: int)
    requires
        forall|j: int| 0 <= j < cs.len() ==> chunk_in_store(oci, #[trigger] cs[j]),
        0 <= k < cs.len(),
        0 <= t < cs[k].len,
    ensures
        file_contents(oci, cs)[pre_len(cs, k) + t] == chunk_body(oci, cs[k])[t],
    decreases k,
{
    assert(chunk_in_store(oci, cs[0]));
    assert(chunk_body(oci, cs[0]).len() == cs[0].len);
    let rest = file_contents(oci, cs.drop_first());
    assert(file_contents(oci, cs) == chunk_body(oci, cs[0]) + rest);
    if k == 0 {
        assert(pre_len(cs, 0) == 0);
        assert(file_contents(oci, cs)[t] == chunk_body(oci, cs[0])[t]);
    } else {
        assert(forall|j: int|
            0 <= j < cs.drop_first().len() ==> cs.drop_first()[j] == cs[j + 1]);
        lemma_pre_len_drop(cs, k);
        lemma_pre_len_le(cs.drop_first(), 0, k - 1);
        lemma_contents_index(oci, cs.drop_first(), k - 1, t);
        assert(cs.drop_first()[k - 1] == cs[k]);
        assert(pre_len(cs, k) + t >= cs[0].len);
        lemma_contents_len(oci, cs.drop_first());
        assert(pre_len(cs.drop_first(), k) == pre_len(cs.drop_first(), k - 1) + cs[k].len);
        lemma_pre_len_le(cs.drop_first(), k, cs.drop_first().len() as int);
        assert(pre_len(cs.drop_first(), k - 1) + t < rest.len());
        assert((chunk_body(oci, cs[0]) + rest)[pre_len(cs, k) + t] == rest[pre_len(
            cs.drop_first(),
            k - 1,
        ) + t]);
        assert(file_contents(oci, cs)[pre_len(cs, k) + t] == rest[pre_len(cs.drop_first(), k - 1)
            + t]);
    }
}

/// The first chunk the walk for a read at `offset` reaches that is
/// compressed, or the chunk count when it reaches none.
pub open spec fn spec_first_blocked_from(cs: Seq<FileChunkView>, offset: int, i: int) -> int
    decreases cs.len() - i,
{
    if i < 0 || i >= cs.len() {
        cs.len() as int
    } else if chunk_touched(cs, offset, i) && cs[i].blob.compressed {
        i
    } else {
        spec_first_blocked_from(cs, offset, i + 1)
    }
}

/// When the chunks before `ci` are all reachable-and-uncompressed and
/// chunk `ci` is reached and compressed, `ci` is the first blocked chunk.
proof fn lemma_first_blocked_at(cs: Seq<FileChunkView>, offset: int, j: int, ci: int)
    requires
        0 <= j <= ci < cs.len(),
        chunk_touched(cs, offset, ci) && cs[ci].blob.compressed,
        forall|k: int|
            j <= k < ci ==> !(chunk_touched(cs, offset, k) && (#[trigger] cs[k]).blob.compressed),
    ensures
        spec_first_blocked_from(cs, offset, j) == ci,
    decreases ci - j,
{
    if j < ci {
        lemma_first_blocked_at(cs, offset, j + 1, ci);
    }
}

/// Reads up to `data.len()` bytes of a resolved regular file, starting at
/// logical byte `offset`, into the front of `data`; the number of bytes
/// read comes back.  On a store that fully backs the file's chunks the
/// read returns exactly the requested range of the file's contents,
/// clipped at the file's end, unless the walk meets a compressed chunk,
/// which is unsupported; in that case the buffer holds at most the
/// contents that precede the compressed chunk, and the rest of it is
/// untouched.  An inode that is not a regular file has the wrong type,
/// and leaves the buffer alone.
#[verifier::rlimit(100)]
#[verifier::spinoff_prover]
pub fn file_read(oci: &Image, inode: &Inode, offset: usize, data: &mut Vec<u8>) -> (r: Result<
    usize,
    WireFormatError,
>)
    requires
        offset + old(data)@.len() <= usize::MAX,
    ensures
        final(data)@.len() == old(data)@.len(),
        !(inode.mode is File) <==> r == Err::<usize, WireFormatError>(WireFormatError::WrongType),
        !(inode.mode is File) ==> final(data)@ == old(data)@,
        (match r {
            Ok(n) => n <= old(data)@.len(),
            Err(_) => true,
        }),
        (inode.mode matches InodeMode::File { chunks } ==> {
            let cs = crate::records::spec_chunk_views(chunks@);
            &&& (chunks_wf(*oci, cs) && (forall|k: int|
                0 <= k < cs.len() && chunk_touched(cs, offset as int, k) ==> !(
                #[trigger] cs[k]).blob.compressed)) ==> (r matches Ok(n) && n
                == spec_file_read_len(
                pre_len(cs, cs.len() as int),
                offset as int,
                old(data)@.len() as int,
            ) && (forall|j: int|
                0 <= j < n ==> #[trigger] final(data)@[j] == file_contents(*oci, cs)[offset + j])
                && (forall|j: int|
                n <= j < old(data)@.len() ==> #[trigger] final(data)@[j] == old(data)@[j]))
            &&& (chunks_wf(*oci, cs) && (exists|k: int|
                0 <= k < cs.len() && chunk_touched(cs, offset as int, k) && (
                #[trigger] cs[k]).blob.compressed)) ==> ({
                let kb = spec_first_blocked_from(cs, offset as int, 0);
                let m = if pre_len(cs, kb) <= offset {
                    0int
                } else {
                    spec_min(pre_len(cs, kb) - offset, old(data)@.len() as int)
                };
                &&& r == Err::<usize, WireFormatError>(WireFormatError::Unsupported)
                &&& forall|j: int|
                    0 <= j < m ==> #[trigger] final(data)@[j] == file_contents(*oci, cs)[offset
                        + j]
                &&& forall|j: int|
                    m <= j < old(data)@.len() ==> #[trigger] final(data)@[j] == old(data)@[j]
            })
        }),
{
    let chunks = match &inode.mode {
        InodeMode::File { chunks } => chunks,
        _ => {
            return Err(WireFormatError::WrongType);
        },
    };
    let ghost cs = crate::records::spec_chunk_views(chunks@);
    let ghost w = chunks_wf(*oci, cs);
    let dlen = data.len();
    let end = offset + dlen;
    let nchunks = chunks.len();
    let mut file_offset: usize = 0;
    let mut buf_offset: usize = 0;
    let mut ci: usize = 0;
    proof {
        if w {
            lemma_contents_len(*oci, cs);
        }
    }
    while ci < nchunks
        invariant
            ci <= nchunks,
            nchunks == cs.len(),
            inode.mode matches InodeMode::File { chunks: cc } && cc@ == chunks@,
            cs == crate::records::spec_chunk_views(chunks@),
            w == chunks_wf(*oci, cs),
            dlen == data@.len(),
            data@.len() == old(data)@.len(),
            end == offset + dlen,
            buf_offset <= dlen,
            file_offset <= offset + buf_offset,
            forall|j: int| buf_offset <= j < dlen ==> #[trigger] data@[j] == old(data)@[j],
            w ==> (forall|k: int|
                0 <= k < ci && chunk_touched(cs, offset as int, k) ==> !(
                #[trigger] cs[k]).blob.compressed),
            w ==> file_offset as int == spec_min(pre_len(cs, ci as int), end as int),
            w ==> buf_offset as int == (if pre_len(cs, ci as int) <= offset {
                0int
            } else {
                spec_min(pre_len(cs, ci as int), end as int) - offset
            }),
            w ==> (forall|j: int|
                0 <= j < buf_offset ==> #[trigger] data@[j] == file_contents(*oci, cs)[offset + j]),
        decreases nchunks - ci,
    {
        let chunk = chunks[ci];
        proof {
            assert(cs[ci as int] == chunk@);
            if w {
                assert(chunk_in_store(*oci, cs[ci as int]));
                lemma_pre_len_le(cs, 0, ci as int);
                lemma_pre_len_le(cs, ci as int + 1, cs.len() as int);
                assert(pre_len(cs, ci as int + 1) == pre_len(cs, ci as int) + cs[ci as int].len);
            }
        }
        // have we read enough?
        if file_offset > end {
            return Ok(buf_offset);
        }
        let clen = if chunk.len <= usize::MAX as u64 {
            chunk.len as usize
        } else {
            proof {
                if w {
                    assert(cs[ci as int].len <= pre_len(cs, cs.len() as int));
                    assert(false);
                }
            }
            return Err(WireFormatError::InvalidSerializedData);
        };
        // should we skip this chunk?
        let fo_plus = match file_offset.checked_add(clen) {
            Some(x) => x,
            None => {
                proof {
                    if w {
                        assert(file_offset as int <= pre_len(cs, ci as int));
                        assert(file_offset + clen <= pre_len(cs, cs.len() as int));
                        assert(false);
                    }
                }
                return Err(WireFormatError::InvalidSerializedData);
            },
        };
        if fo_plus < offset {
            proof {
                if w {
                    // nothing the walk skips was wanted: the chunk ends
                    // before the requested range begins
                    assert(file_offset as int == pre_len(cs, ci as int));
                    assert(!chunk_touched(cs, offset as int, ci as int));
                    assert(fo_plus as int == spec_min(pre_len(cs, ci as int + 1), end as int));
                    assert(pre_len(cs, ci as int + 1) <= offset);
                }
            }
            file_offset = fo_plus;
            ci += 1;
            continue;
        }
        let addl = if offset > file_offset {
            offset - file_offset
        } else {
            0
        };
        // how much of this chunk do we need?
        let left_in_buf = dlen - buf_offset;
        let chunk_avail = clen - addl;
        let to_read = if left_in_buf < chunk_avail {
            left_in_buf
        } else {
            chunk_avail
        };
        let start = buf_offset;
        file_offset = file_offset + addl;
        proof {
            if w {
                // this chunk is reached by the walk
                assert(chunk_touched(cs, offset as int, ci as int));
            }
        }
        let n = match oci.fill_from_chunk(chunk.blob, addl as u64, data, start, to_read) {
            Ok(n) => n,
            Err(e) => {
                proof {
                    if w {
                        // the store backs the chunk, so the only failure
                        // left is an unsupported compressed chunk; it is
                        // the first the walk reaches, and nothing of it
                        // was written
                        assert(cs[ci as int].blob.kind is Other);
                        assert(cs[ci as int].blob.compressed);
                        assert(e == WireFormatError::Unsupported);
                        lemma_first_blocked_at(cs, offset as int, 0, ci as int);
                        assert(spec_first_blocked_from(cs, offset as int, 0) == ci as int);
                    }
                }
                return Err(e);
            },
        };
        proof {
            if w {
                let p = pre_len(cs, ci as int);
                let p2 = pre_len(cs, ci as int + 1);
                let body = chunk_body(*oci, cs[ci as int]);
                assert(body.len() == cs[ci as int].len);
                assert(n == to_read);
                assert forall|j: int| start <= j < start + n implies #[trigger] data@[j]
                    == file_contents(*oci, cs)[offset + j] by {
                    let t = j - start;
                    lemma_contents_index(*oci, cs, ci as int, addl + t);
                    assert(data@[start + t] == body[addl + t]);
                    assert(p + addl + t == offset + j);
                    assert(file_contents(*oci, cs)[offset + j] == body[addl + t]);
                }
                // the cursor and the write mark both land on the minimum
                // of the next chunk boundary and the requested end
                assert((file_offset + n) as int == spec_min(p2, end as int));
                assert((buf_offset + n) as int == (if p2 <= offset {
                    0int
                } else {
                    spec_min(p2, end as int) - offset
                }));
            }
        }
        file_offset = file_offset + n;
        buf_offset = buf_offset + n;
        ci += 1;
    }
    proof {
        if w {
            if exists|k: int|
                0 <= k < cs.len() && chunk_touched(cs, offset as int, k) && (
                #[trigger] cs[k]).blob.compressed {
                let k = choose|k: int|
                    0 <= k < cs.len() && chunk_touched(cs, offset as int, k) && (
                    #[trigger] cs[k]).blob.compressed;
                assert(!cs[k].blob.compressed);
            }
        }
    }
    Ok(buf_offset)
}

/// The record a single table stores under `ino` (meaningful when the
/// table contains `ino`).
pub open spec fn spec_layer_inode(mb: MetadataBlob, ino: Ino) -> types::InodeView {
    let k = choose|k: int|
        0 <= k < mb.count() && ((#[trigger] crate::metadata::spec_inode_at(
            mb.buf(),
            mb.count(),
            k,
        )) matches Some(i) && i.ino == ino);
    crate::metadata::spec_inode_at(mb.buf(), mb.count(), k).unwrap()
}

/// The first layer that stores `ino` wins: its blob and its record.
pub open spec fn spec_resolve(layers: Seq<MetadataBlob>, ino: Ino) -> Option<
    (MetadataBlob, types::InodeView),
>
    decreases layers.len(),
{
    if layers.len() == 0 {
        None
    } else if crate::metadata::table_contains_ino(layers[0].buf(), layers[0].count(), ino) {
        Some((layers[0], spec_layer_inode(layers[0], ino)))
    } else {
        spec_resolve(layers.drop_first(), ino)
    }
}

/// Every layer's inode table is well formed.
pub open spec fn layers_wf(layers: Seq<MetadataBlob>) -> bool {
    forall|i: int| 0 <= i < layers.len() ==> (#[trigger] layers[i]).wf()
}

/// On a well-formed table, only one slot can store a given inode number.
proof fn lemma_table_unique(mb: MetadataBlob, ino: Ino, k1: int, k2: int)
    requires
        mb.wf(),
        0 <= k1 < mb.count(),
        0 <= k2 < mb.count(),
        crate::metadata::spec_inode_at(mb.buf(), mb.count(), k1) matches Some(i1) && i1.ino == ino,
        crate::metadata::spec_inode_at(mb.buf(), mb.count(), k2) matches Some(i2) && i2.ino == ino,
    ensures
        k1 == k2,
{
    if k1 < k2 {
        assert(crate::metadata::spec_ino_at(mb.buf(), mb.count(), k1) < crate::metadata::spec_ino_at(
            mb.buf(),
            mb.count(),
            k2,
        ));
    }
    if k2 < k1 {
        assert(crate::metadata::spec_ino_at(mb.buf(), mb.count(), k2) < crate::metadata::spec_ino_at(
            mb.buf(),
            mb.count(),
            k1,
        ));
    }
}

/// Whether an image and a hex digest string name an openable stack: the
/// digest parses, the manifest blob is present and parses, and every
/// layer it names is a present, parsable metadata blob.
pub open spec fn layer_openable(oci: Image, br: types::BlobRefView) -> bool {
    br.kind matches types::BlobRefKindView::Other { digest } && (oci.spec_lookup(digest) matches
    Some(b) && (crate::cbor::spec_parse_array_header(b, 0) matches Some((c, _)) && c
        <= usize::MAX))
}

/// The error opening the layer a manifest entry names reports: a `Local`
/// entry names no digest, a missing blob is not found, and a blob whose
/// leading array header cannot be used surfaces its decode error.
pub open spec fn spec_layer_open_err(oci: Image, br: types::BlobRefView) -> WireFormatError {
    match br.kind {
        types::BlobRefKindView::Local => WireFormatError::LocalRefError,
        types::BlobRefKindView::Other { digest } => match oci.spec_lookup(digest) {
            Option::None => WireFormatError::NotFound,
            Option::Some(b) => crate::metadata::spec_metadata_new_err(b),
        },
    }
}

/// The first manifest entry whose layer cannot be opened, or the entry
/// count when all of them can.
pub open spec fn spec_first_bad_layer_from(oci: Image, ms: Seq<types::BlobRefView>, i: int) -> int
    decreases ms.len() - i,
{
    if i < 0 || i >= ms.len() {
        ms.len() as int
    } else if !layer_openable(oci, ms[i]) {
        i
    } else {
        spec_first_bad_layer_from(oci, ms, i + 1)
    }
}

/// When the entries before `i` all open and entry `i` does not, `i` is
/// the first bad entry.
proof fn lemma_first_bad_layer_at(oci: Image, ms: Seq<types::BlobRefView>, j: int, i: int)
    requires
        0 <= j <= i < ms.len(),
        !layer_openable(oci, ms[i]),
        forall|k: int| j <= k < i ==> layer_openable(oci, #[trigger] ms[k]),
    ensures
        spec_first_bad_layer_from(oci, ms, j) == i,
    decreases i - j,
{
    if j < i {
        lemma_first_bad_layer_at(oci, ms, j + 1, i);
    }
}

/// A layer that matches its manifest entry could be opened from it.
proof fn lemma_matches_openable(oci: Image, br: types::BlobRefView, mb: MetadataBlob)
    requires
        layer_matches(oci, br, mb),
    ensures
        layer_openable(oci, br),
{
}

/// An opened layer agrees with the manifest entry that named it.
pub open spec fn layer_matches(oci: Image, br: types::BlobRefView, mb: MetadataBlob) -> bool {
    br.kind matches types::BlobRefKindView::Other { digest } && (oci.spec_lookup(digest) == Some(
        mb.buf(),
    ) && (crate::cbor::spec_parse_array_header(mb.buf(), 0) matches Some((c, _)) && c
        == mb.inode_count as u64))
}

/// The whole stack named by `path` can be opened from `oci`.
pub open spec fn fs_openable(oci: Image, path: Seq<char>) -> bool {
    crate::digest::spec_from_hex(path) matches Some(dg) && (oci.spec_lookup(dg) matches Some(b) && (
    crate::records::spec_parse_rootfs(b, 0) matches Some((rv, _)) && (forall|i: int|
        0 <= i < rv.metadatas.len() ==> layer_openable(oci, #[trigger] rv.metadatas[i]))))
}

/// A mounted image: the blob store and the ordered layer stack, top
/// first.
#[derive(Debug)]
pub struct PuzzleFS {
    pub oci: Image,
    layers: Vec<MetadataBlob>,
}

impl PuzzleFS {
    /// The layer stack, top first.
    pub closed spec fn spec_layers(&self) -> Seq<MetadataBlob> {
        self.layers@
    }

    /// The blob store this stack reads from.
    pub closed spec fn spec_oci(&self) -> Image {
        self.oci
    }

    /// Every layer's inode table is well formed.
    pub open spec fn wf(&self) -> bool {
        layers_wf(self.spec_layers())
    }

    /// Opens the stack the root manifest names: parses the manifest under
    /// the hex digest `rootfs_path` and opens each metadata blob it
    /// lists, in manifest order.
    pub fn open(oci: Image, rootfs_path: &str) -> (r: Result<PuzzleFS, WireFormatError>)
        ensures
            match r {
                Ok(fs) => {
                    &&& fs.spec_oci() == oci
                    &&& (crate::digest::spec_from_hex(rootfs_path@) matches Some(dg) && (
                    oci.spec_lookup(dg) matches Some(b) && (crate::records::spec_parse_rootfs(
                        b,
                        0,
                    ) matches Some((rv, _)) && fs.spec_layers().len() == rv.metadatas.len() && (
                    forall|i: int|
                        0 <= i < rv.metadatas.len() ==> layer_matches(
                            oci,
                            #[trigger] rv.metadatas[i],
                            fs.spec_layers()[i],
                        )))))
                },
                Err(e) => {
                    &&& !fs_openable(oci, rootfs_path@)
                    &&& match crate::digest::spec_from_hex(rootfs_path@) {
                        Option::None => e == WireFormatError::HexError,
                        Option::Some(dg) => match oci.spec_lookup(dg) {
                            Option::None => e == WireFormatError::NotFound,
                            Option::Some(b) => match crate::records::spec_parse_rootfs(b, 0) {
                                Option::None => is_decode_error(e) && (b.len() == 0 ==> e
                                    == WireFormatError::ValueMissing),
                                Option::Some((rv, _)) => ({
                                    let i = spec_first_bad_layer_from(oci, rv.metadatas, 0);
                                    &&& i < rv.metadatas.len()
                                    &&& e == spec_layer_open_err(oci, rv.metadatas[i])
                                }),
                            },
                        },
                    }
                },
            },
    {
        let rootfs = oci.open_rootfs_blob(rootfs_path)?;
        let n = rootfs.metadatas.len();
        let mut layers: Vec<MetadataBlob> = Vec::new();
        let mut i: usize = 0;
        while i < n
            invariant
                i <= n,
                n == rootfs.metadatas@.len(),
                layers@.len() == i,
                crate::digest::spec_from_hex(rootfs_path@) matches Some(dg) && (oci.spec_lookup(
                    dg,
                ) matches Some(b) && (crate::records::spec_parse_rootfs(b, 0) matches Some(
                    (rv, _),
                ) && rv == rootfs@)),
                rootfs@.metadatas.len() == rootfs.metadatas@.len(),
                forall|j: int|
                    0 <= j < i ==> layer_matches(oci, #[trigger] rootfs@.metadatas[j], layers@[j]),
            decreases n - i,
        {
            let md = rootfs.metadatas[i];
            proof {
                assert(rootfs@.metadatas[i as int] == md@);
            }
            let digest = match crate::digest::Digest::from_blob_ref(&md) {
                Ok(d) => d,
                Err(e) => {
                    proof {
                        assert(!layer_openable(oci, rootfs@.metadatas[i as int]));
                        assert forall|j: int| 0 <= j < i implies layer_openable(
                            oci,
                            #[trigger] rootfs@.metadatas[j],
                        ) by {
                            lemma_matches_openable(oci, rootfs@.metadatas[j], layers@[j]);
                        }
                        lemma_first_bad_layer_at(oci, rootfs@.metadatas, 0, i as int);
                    }
                    return Err(e);
                },
            };
            let mb = match oci.open_metadata_blob(&digest) {
                Ok(mb) => mb,
                Err(e) => {
                    proof {
                        assert(!layer_openable(oci, rootfs@.metadatas[i as int]));
                        assert forall|j: int| 0 <= j < i implies layer_openable(
                            oci,
                            #[trigger] rootfs@.metadatas[j],
                        ) by {
                            lemma_matches_openable(oci, rootfs@.metadatas[j], layers@[j]);
                        }
                        lemma_first_bad_layer_at(oci, rootfs@.metadatas, 0, i as int);
                        assert(e == spec_layer_open_err(oci, rootfs@.metadatas[i as int]));
                    }
                    return Err(e);
                },
            };
            layers.push(mb);
            i += 1;
        }
        Ok(PuzzleFS { oci, layers })
    }

    /// Decides whether every layer's inode table is well formed.  Lookups
    /// on a stack that passes this check are exact.
    pub fn check_layers(&self) -> (r: bool)
        ensures
            r == self.wf(),
    {
        let n = self.layers.len();
        let mut i: usize = 0;
        while i < n
            invariant
                i <= n,
                n == self.spec_layers().len(),
                forall|j: int| 0 <= j < i ==> (#[trigger] self.spec_layers()[j]).wf(),
            decreases n - i,
        {
            if !self.layers[i].check_inode_table() {
                return false;
            }
            i += 1;
        }
        true
    }

    /// Resolves an inode number through the layer stack.  The first layer
    /// that stores the number wins; a whiteout record there, or a number
    /// no layer stores, is not found.  The winning record comes back
    /// resolved against its own layer.
    pub fn find_inode(&self, ino: u64) -> (r: Result<Inode, WireFormatError>)
        ensures
            self.wf() ==> match spec_resolve(self.spec_layers(), ino) {
                Option::None => r == Err::<Inode, WireFormatError>(WireFormatError::NotFound),
                Option::Some((mb, iv)) => {
                    if iv.mode is Wht {
                        r == Err::<Inode, WireFormatError>(WireFormatError::NotFound)
                    } else {
                        &&& (match r {
                            Ok(ri) => resolved_matches(mb.buf(), iv, ri) && ri.inode@.ino == ino,
                            Err(e) => {
                                &&& !resolvable(mb.buf(), iv)
                                &&& (is_decode_error(e) || e == WireFormatError::SeekOtherError)
                            },
                        })
                        &&& (resolvable(mb.buf(), iv) ==> r matches Ok(_))
                    }
                },
            },
    {
        let n = self.layers.len();
        let mut i: usize = 0;
        proof {
            assert(self.spec_layers().skip(0) =~= self.spec_layers());
        }
        while i < n
            invariant
                i <= n,
                n == self.spec_layers().len(),
                self.wf() ==> spec_resolve(self.spec_layers(), ino) == spec_resolve(
                    self.spec_layers().skip(i as int),
                    ino,
                ),
            decreases n - i,
        {
            let layer = &self.layers[i];
            proof {
                assert(self.spec_layers().skip(i as int)[0] == self.spec_layers()[i as int]);
            }
            let found = match layer.find_inode(ino) {
                Ok(f) => f,
                Err(e) => {
                    proof {
                        if self.wf() {
                            assert(self.spec_layers()[i as int].wf());
                            assert(false);
                        }
                    }
                    return Err(e);
                },
            };
            match found {
                Some(inode) => {
                    proof {
                        if self.wf() {
                            let lay = self.spec_layers()[i as int];
                            assert(lay.wf());
                            let k0 = choose|k: int|
                                0 <= k < lay.count() && crate::metadata::spec_inode_at(
                                    lay.buf(),
                                    lay.count(),
                                    k,
                                ) == Some(inode@) && inode@.ino == ino;
                            assert(crate::metadata::table_contains_ino(
                                lay.buf(),
                                lay.count(),
                                ino,
                            ));
                            let k1 = choose|k: int|
                                0 <= k < lay.count() && ((
                                #[trigger] crate::metadata::spec_inode_at(
                                    lay.buf(),
                                    lay.count(),
                                    k,
                                )) matches Some(j) && j.ino == ino);
                            lemma_table_unique(lay, ino, k0, k1);
                            assert(spec_layer_inode(lay, ino) == inode@);
                            assert(spec_resolve(self.spec_layers().skip(i as int), ino) == Some(
                                (lay, inode@),
                            ));
                        }
                    }
                    match inode.mode {
                        types::InodeMode::Wht => {
                            return Err(WireFormatError::NotFound);
                        },
                        _ => {
                            return Inode::new(layer, inode);
                        },
                    }
                },
                None => {
                    proof {
                        if self.wf() {
                            assert(self.spec_layers().skip(i as int).drop_first()
                                =~= self.spec_layers().skip(i as int + 1));
                        }
                    }
                    i += 1;
                },
            }
        }
        proof {
            assert(self.spec_layers().skip(n as int) =~= Seq::<MetadataBlob>::empty());
        }
        Err(WireFormatError::NotFound)
    }
}

} // verus!
