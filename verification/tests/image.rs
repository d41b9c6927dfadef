//! End-to-end scenarios: a blob store, a layered stack, and file reads.

use puzzlefs::cbor::{encode_cbor_header, MAJOR_ARRAY};
use puzzlefs::digest::Digest;
use puzzlefs::error::{WireFormatError, EINVAL, ENOENT, ENOTDIR, ENOTSUPP, ESPIPE};
use puzzlefs::inode::{file_read, InodeMode as ResolvedMode, PuzzleFS};
use puzzlefs::oci::{blob_path, blob_path_relative, Image};
use puzzlefs::records::{encode_dir_list, encode_file_chunk_list, encode_inode_additional, DirEnt,
    DirList, FileChunk, FileChunkList, InodeAdditional, Rootfs, Xattr, encode_rootfs};
use puzzlefs::types::{BlobRef, BlobRefKind, Inode, InodeMode, INODE_WIRE_SIZE};

fn other_ref(digest: [u8; 32], offset: u64, compressed: bool) -> BlobRef {
    BlobRef { offset, kind: BlobRefKind::Other { digest }, compressed }
}

/// Builds a metadata blob from fixed records and an already laid out
/// variable region that starts right after the table.
fn metadata_blob(inodes: &[Inode], side: &[u8]) -> Vec<u8> {
    let mut out = Vec::new();
    encode_cbor_header(&mut out, MAJOR_ARRAY, inodes.len() as u64);
    for i in inodes {
        i.serialize(&mut out);
    }
    out.extend_from_slice(side);
    out
}

/// The byte offset where the variable region of a table of `n` inodes
/// begins.
fn side_base(n: usize) -> u64 {
    (puzzlefs::cbor::cbor_size_of_list_header(n) + n * INODE_WIRE_SIZE) as u64
}

/// An image with one layer holding one regular file of the given chunks,
/// stored as inode 1, plus the chunk bodies under their digests.
fn one_file_image(chunks: Vec<FileChunk>, bodies: Vec<([u8; 32], Vec<u8>)>) -> Image {
    let mut side = Vec::new();
    encode_file_chunk_list(&FileChunkList { chunks }, &mut side);
    let ino = Inode {
        ino: 1,
        mode: InodeMode::Reg { offset: side_base(1) },
        uid: 0,
        gid: 0,
        permissions: 0o644,
        additional: None,
    };
    let meta = metadata_blob(&[ino], &side);
    let rootfs = Rootfs {
        metadatas: vec![other_ref([0xCC; 32], 0, false)],
        fs_verity_data: (),
        manifest_version: 2,
    };
    let mut man = Vec::new();
    encode_rootfs(&rootfs, &mut man);
    let mut image = Image::open();
    image.add_blob(Digest::new([0xAA; 32]), man);
    image.add_blob(Digest::new([0xCC; 32]), meta);
    for (d, body) in bodies {
        image.add_blob(Digest::new(d), body);
    }
    image
}

#[test]
fn one_layer_one_file_one_chunk() {
    let image = one_file_image(
        vec![FileChunk { blob: other_ref([0xBB; 32], 0, false), len: 5 }],
        vec![([0xBB; 32], b"hello".to_vec())],
    );
    let fs = PuzzleFS::open(image, &"aa".repeat(32)).unwrap();
    assert!(fs.check_layers());
    let inode = fs.find_inode(1).unwrap();
    assert_eq!(inode.inode.ino, 1);
    assert_eq!(inode.inode.permissions, 0o644);
    let mut buf = vec![0u8; 5];
    assert_eq!(file_read(&fs.oci, &inode, 0, &mut buf).unwrap(), 5);
    assert_eq!(&buf, b"hello");
    let mut buf3 = vec![0u8; 3];
    assert_eq!(file_read(&fs.oci, &inode, 2, &mut buf3).unwrap(), 3);
    assert_eq!(&buf3, b"llo");
}

#[test]
fn two_chunk_file_spanning_boundary() {
    let image = one_file_image(
        vec![
            FileChunk { blob: other_ref([0xB1; 32], 0, false), len: 4 },
            FileChunk { blob: other_ref([0xB2; 32], 0, false), len: 4 },
        ],
        vec![([0xB1; 32], b"abcd".to_vec()), ([0xB2; 32], b"efgh".to_vec())],
    );
    let fs = PuzzleFS::open(image, &"aa".repeat(32)).unwrap();
    let inode = fs.find_inode(1).unwrap();
    let mut buf = vec![0u8; 3];
    assert_eq!(file_read(&fs.oci, &inode, 3, &mut buf).unwrap(), 3);
    assert_eq!(&buf, b"def");
}

#[test]
fn read_ending_on_chunk_boundary_is_exact() {
    let image = one_file_image(
        vec![
            FileChunk { blob: other_ref([0xB1; 32], 0, false), len: 4 },
            FileChunk { blob: other_ref([0xB2; 32], 0, false), len: 4 },
        ],
        vec![([0xB1; 32], b"abcd".to_vec()), ([0xB2; 32], b"efgh".to_vec())],
    );
    let fs = PuzzleFS::open(image, &"aa".repeat(32)).unwrap();
    let inode = fs.find_inode(1).unwrap();
    let mut buf = vec![0u8; 4];
    assert_eq!(file_read(&fs.oci, &inode, 0, &mut buf).unwrap(), 4);
    assert_eq!(&buf, b"abcd");
    assert_eq!(file_read(&fs.oci, &inode, 4, &mut buf).unwrap(), 4);
    assert_eq!(&buf, b"efgh");
}

#[test]
fn read_past_end_returns_zero() {
    let image = one_file_image(
        vec![FileChunk { blob: other_ref([0xBB; 32], 0, false), len: 5 }],
        vec![([0xBB; 32], b"hello".to_vec())],
    );
    let fs = PuzzleFS::open(image, &"aa".repeat(32)).unwrap();
    let inode = fs.find_inode(1).unwrap();
    let mut buf = vec![0u8; 4];
    assert_eq!(file_read(&fs.oci, &inode, 5, &mut buf).unwrap(), 0);
    assert_eq!(file_read(&fs.oci, &inode, 100, &mut buf).unwrap(), 0);
}

#[test]
fn short_buffer_clips_the_read() {
    let image = one_file_image(
        vec![FileChunk { blob: other_ref([0xBB; 32], 0, false), len: 5 }],
        vec![([0xBB; 32], b"hello".to_vec())],
    );
    let fs = PuzzleFS::open(image, &"aa".repeat(32)).unwrap();
    let inode = fs.find_inode(1).unwrap();
    let mut buf = vec![0u8; 2];
    assert_eq!(file_read(&fs.oci, &inode, 1, &mut buf).unwrap(), 2);
    assert_eq!(&buf, b"el");
}

#[test]
fn compressed_chunk_is_unsupported() {
    let image = one_file_image(
        vec![FileChunk { blob: other_ref([0xBB; 32], 0, true), len: 5 }],
        vec![([0xBB; 32], b"hello".to_vec())],
    );
    let fs = PuzzleFS::open(image, &"aa".repeat(32)).unwrap();
    let inode = fs.find_inode(1).unwrap();
    let mut buf = vec![0u8; 5];
    assert_eq!(
        file_read(&fs.oci, &inode, 0, &mut buf),
        Err(WireFormatError::Unsupported)
    );
}

#[test]
fn compressed_second_chunk_leaves_the_rest_untouched() {
    // the clean first chunk may be delivered; nothing of the compressed
    // one is written
    let image = one_file_image(
        vec![
            FileChunk { blob: other_ref([0xB1; 32], 0, false), len: 4 },
            FileChunk { blob: other_ref([0xB2; 32], 0, true), len: 4 },
        ],
        vec![([0xB1; 32], b"abcd".to_vec()), ([0xB2; 32], b"efgh".to_vec())],
    );
    let fs = PuzzleFS::open(image, &"aa".repeat(32)).unwrap();
    let inode = fs.find_inode(1).unwrap();
    let mut buf = vec![0xFFu8; 8];
    assert_eq!(
        file_read(&fs.oci, &inode, 0, &mut buf),
        Err(WireFormatError::Unsupported)
    );
    assert_eq!(&buf[..4], b"abcd");
    assert_eq!(&buf[4..], &[0xFF; 4]);
}

#[test]
fn whiteout_shadows_lower_layer() {
    // upper layer deletes inode 7; the lower layer still stores it
    let upper = metadata_blob(
        &[Inode {
            ino: 7,
            mode: InodeMode::Wht,
            uid: 0,
            gid: 0,
            permissions: 0,
            additional: None,
        }],
        &[],
    );
    let mut lower_side = Vec::new();
    encode_file_chunk_list(
        &FileChunkList {
            chunks: vec![FileChunk { blob: other_ref([0xBB; 32], 0, false), len: 5 }],
        },
        &mut lower_side,
    );
    let lower = metadata_blob(
        &[Inode {
            ino: 7,
            mode: InodeMode::Reg { offset: side_base(1) },
            uid: 0,
            gid: 0,
            permissions: 0o644,
            additional: None,
        }],
        &lower_side,
    );
    let rootfs = Rootfs {
        metadatas: vec![other_ref([0xC1; 32], 0, false), other_ref([0xC2; 32], 0, false)],
        fs_verity_data: (),
        manifest_version: 2,
    };
    let mut man = Vec::new();
    encode_rootfs(&rootfs, &mut man);
    let mut image = Image::open();
    image.add_blob(Digest::new([0xAA; 32]), man);
    image.add_blob(Digest::new([0xC1; 32]), upper);
    image.add_blob(Digest::new([0xC2; 32]), lower);
    image.add_blob(Digest::new([0xBB; 32]), b"hello".to_vec());
    let fs = PuzzleFS::open(image, &"aa".repeat(32)).unwrap();
    assert_eq!(fs.find_inode(7).unwrap_err(), WireFormatError::NotFound);
    assert_eq!(fs.find_inode(8).unwrap_err(), WireFormatError::NotFound);
}

#[test]
fn directory_entries_come_back_sorted() {
    let mut side = Vec::new();
    encode_dir_list(
        &DirList {
            look_below: false,
            entries: vec![
                DirEnt { ino: 3, name: b"zeta".to_vec() },
                DirEnt { ino: 2, name: b"alpha".to_vec() },
                DirEnt { ino: 4, name: b"beta".to_vec() },
            ],
        },
        &mut side,
    );
    let ino = Inode {
        ino: 1,
        mode: InodeMode::Dir { offset: side_base(1) },
        uid: 0,
        gid: 0,
        permissions: 0o755,
        additional: None,
    };
    let meta = metadata_blob(&[ino], &side);
    let rootfs = Rootfs {
        metadatas: vec![other_ref([0xCC; 32], 0, false)],
        fs_verity_data: (),
        manifest_version: 2,
    };
    let mut man = Vec::new();
    encode_rootfs(&rootfs, &mut man);
    let mut image = Image::open();
    image.add_blob(Digest::new([0xAA; 32]), man);
    image.add_blob(Digest::new([0xCC; 32]), meta);
    let fs = PuzzleFS::open(image, &"aa".repeat(32)).unwrap();
    let inode = fs.find_inode(1).unwrap();
    match &inode.mode {
        ResolvedMode::Dir { entries } => {
            let names: Vec<&[u8]> = entries.iter().map(|e| e.0.as_slice()).collect();
            assert_eq!(names, vec![&b"alpha"[..], &b"beta"[..], &b"zeta"[..]]);
            assert_eq!(entries[0].1, 2);
            assert_eq!(entries[1].1, 4);
            assert_eq!(entries[2].1, 3);
        },
        _ => panic!("expected a directory"),
    }
}

#[test]
fn symlink_side_data_is_resolved() {
    let mut side = Vec::new();
    encode_inode_additional(
        &InodeAdditional {
            xattrs: vec![Xattr { key: b"user.k".to_vec(), val: b"v".to_vec() }],
            symlink_target: Some(b"/the/target".to_vec()),
        },
        &mut side,
    );
    let ino = Inode {
        ino: 1,
        mode: InodeMode::Lnk,
        uid: 0,
        gid: 0,
        permissions: 0o777,
        additional: Some(BlobRef {
            offset: side_base(1),
            kind: BlobRefKind::Local,
            compressed: false,
        }),
    };
    let meta = metadata_blob(&[ino], &side);
    let rootfs = Rootfs {
        metadatas: vec![other_ref([0xCC; 32], 0, false)],
        fs_verity_data: (),
        manifest_version: 2,
    };
    let mut man = Vec::new();
    encode_rootfs(&rootfs, &mut man);
    let mut image = Image::open();
    image.add_blob(Digest::new([0xAA; 32]), man);
    image.add_blob(Digest::new([0xCC; 32]), meta);
    let fs = PuzzleFS::open(image, &"aa".repeat(32)).unwrap();
    let inode = fs.find_inode(1).unwrap();
    let additional = inode.additional.as_ref().expect("side data expected");
    assert_eq!(additional.symlink_target.as_deref(), Some(&b"/the/target"[..]));
    assert_eq!(additional.xattrs.len(), 1);
    assert_eq!(additional.xattrs[0].key, b"user.k".to_vec());
    // a symlink is not a regular file, and the buffer stays untouched
    let mut buf = vec![0x5Au8; 3];
    assert_eq!(
        file_read(&fs.oci, &inode, 0, &mut buf),
        Err(WireFormatError::WrongType)
    );
    assert_eq!(&buf, &[0x5A; 3]);
}

#[test]
fn missing_blob_is_not_found() {
    let image = Image::open();
    assert_eq!(
        image.open_raw_blob(&Digest::new([1u8; 32])).unwrap_err(),
        WireFormatError::NotFound
    );
}

#[test]
fn fill_from_chunk_rules() {
    let mut image = Image::open();
    image.add_blob(Digest::new([0xBB; 32]), b"abcdef".to_vec());
    let mut buf = vec![0u8; 4];
    // plain read with an extra offset into the chunk
    let chunk = other_ref([0xBB; 32], 1, false);
    assert_eq!(image.fill_from_chunk(chunk, 1, &mut buf, 0, 4), Ok(4));
    assert_eq!(&buf, b"cdef");
    // a local chunk names no blob
    let local = BlobRef { offset: 0, kind: BlobRefKind::Local, compressed: false };
    assert_eq!(
        image.fill_from_chunk(local, 0, &mut buf, 0, 4),
        Err(WireFormatError::LocalRefError)
    );
    // a compressed chunk is unsupported
    let compressed = other_ref([0xBB; 32], 0, true);
    assert_eq!(
        image.fill_from_chunk(compressed, 0, &mut buf, 0, 4),
        Err(WireFormatError::Unsupported)
    );
    // a seek past the blob's end reads nothing
    let far = other_ref([0xBB; 32], 100, false);
    assert_eq!(image.fill_from_chunk(far, 0, &mut buf, 0, 4), Ok(0));
}

#[test]
fn blob_paths_are_derived_from_the_digest() {
    assert_eq!(blob_path_relative(), "blobs/sha256");
    let d = Digest::new([0xAB; 32]);
    assert_eq!(blob_path(&d), format!("blobs/sha256/{}", "ab".repeat(32)));
}

#[test]
fn open_rejects_bad_manifest_names() {
    let image = Image::open();
    assert_eq!(
        PuzzleFS::open(image, "nonsense").unwrap_err(),
        WireFormatError::HexError
    );
    let image = Image::open();
    assert_eq!(
        PuzzleFS::open(image, &"aa".repeat(32)).unwrap_err(),
        WireFormatError::NotFound
    );
}

#[test]
fn open_rejects_empty_manifest_blob() {
    // the manifest blob exists but holds no value at all
    let mut image = Image::open();
    image.add_blob(Digest::new([0xAA; 32]), Vec::new());
    assert_eq!(
        PuzzleFS::open(image, &"aa".repeat(32)).unwrap_err(),
        WireFormatError::ValueMissing
    );
}

#[test]
fn open_rejects_local_layer_references() {
    let rootfs = Rootfs {
        metadatas: vec![BlobRef { offset: 0, kind: BlobRefKind::Local, compressed: false }],
        fs_verity_data: (),
        manifest_version: 2,
    };
    let mut man = Vec::new();
    encode_rootfs(&rootfs, &mut man);
    let mut image = Image::open();
    image.add_blob(Digest::new([0xAA; 32]), man);
    assert_eq!(
        PuzzleFS::open(image, &"aa".repeat(32)).unwrap_err(),
        WireFormatError::LocalRefError
    );
}

#[test]
fn digest_from_blob_ref() {
    let other = other_ref([0x42; 32], 9, false);
    assert_eq!(Digest::from_blob_ref(&other).unwrap(), Digest::new([0x42; 32]));
    let local = BlobRef { offset: 9, kind: BlobRefKind::Local, compressed: false };
    assert_eq!(
        Digest::from_blob_ref(&local).unwrap_err(),
        WireFormatError::LocalRefError
    );
}

#[test]
fn error_descriptions() {
    assert_eq!(
        WireFormatError::LocalRefError.describe(),
        "cannot turn local ref into a digest"
    );
    assert_eq!(WireFormatError::SeekOtherError.describe(), "cannot seek to other blob");
    assert_eq!(WireFormatError::ValueMissing.describe(), "no value present");
    assert_eq!(WireFormatError::Unsupported.describe(), "operation not supported");
}

#[test]
fn errno_mapping() {
    assert_eq!(WireFormatError::LocalRefError.to_errno(), EINVAL);
    assert_eq!(WireFormatError::SeekOtherError.to_errno(), ESPIPE);
    assert_eq!(WireFormatError::ValueMissing.to_errno(), ENOENT);
    assert_eq!(WireFormatError::InvalidSerializedData.to_errno(), EINVAL);
    assert_eq!(WireFormatError::NotFound.to_errno(), ENOENT);
    assert_eq!(WireFormatError::WrongType.to_errno(), ENOTDIR);
    assert_eq!(WireFormatError::Unsupported.to_errno(), ENOTSUPP);
    assert_eq!(
        WireFormatError::CBORError(puzzlefs::error::Error::Eof).to_errno(),
        EINVAL
    );
}
