//! Round trips and error cases of the wire codec.

use puzzlefs::cbor::{cbor_size_of_list_header, encode_cbor_header, parse_cbor_header, MAJOR_ARRAY,
    MAJOR_UINT};
use puzzlefs::digest::Digest;
use puzzlefs::error::WireFormatError;
use puzzlefs::records::{encode_dir_ent, encode_dir_list, encode_file_chunk, encode_file_chunk_list,
    encode_inode_additional, encode_rootfs, encode_xattr, parse_dir_list, parse_file_chunk_list,
    parse_inode_additional, parse_rootfs, DirEnt, DirList, FileChunk, FileChunkList,
    InodeAdditional, Rootfs, Xattr};
use puzzlefs::types::{BlobRef, BlobRefKind, Inode, InodeMode, BLOB_REF_SIZE, INODE_SIZE,
    INODE_WIRE_SIZE};

fn other_ref(byte: u8, offset: u64, compressed: bool) -> BlobRef {
    BlobRef {
        offset,
        kind: BlobRefKind::Other { digest: [byte; 32] },
        compressed,
    }
}

#[test]
fn cbor_header_sizes() {
    assert_eq!(cbor_size_of_list_header(0), 1);
    assert_eq!(cbor_size_of_list_header(23), 1);
    assert_eq!(cbor_size_of_list_header(24), 2);
    assert_eq!(cbor_size_of_list_header(255), 2);
    assert_eq!(cbor_size_of_list_header(256), 3);
    assert_eq!(cbor_size_of_list_header(65535), 3);
    assert_eq!(cbor_size_of_list_header(65536), 5);
    assert_eq!(cbor_size_of_list_header(4294967295), 5);
    assert_eq!(cbor_size_of_list_header(4294967296), 9);
}

#[test]
fn cbor_header_round_trip() {
    for &n in &[0u64, 23, 24, 255, 256, 65535, 65536, 4294967295, 4294967296, u64::MAX] {
        let mut out = Vec::new();
        encode_cbor_header(&mut out, MAJOR_ARRAY, n);
        let (major, value, next) = parse_cbor_header(&out, 0).unwrap();
        assert_eq!(major, MAJOR_ARRAY);
        assert_eq!(value, n);
        assert_eq!(next, out.len());
    }
}

#[test]
fn cbor_header_accepts_long_forms() {
    // 5 written with one additional byte instead of immediately
    let bytes = [0x18u8, 0x05];
    let (major, value, next) = parse_cbor_header(&bytes, 0).unwrap();
    assert_eq!((major, value, next), (MAJOR_UINT, 5, 2));
}

#[test]
fn blob_ref_round_trip_other() {
    let b = other_ref(0x5A, 12345, false);
    let mut out = Vec::new();
    b.fixed_length_serialize(&mut out);
    assert_eq!(out.len(), BLOB_REF_SIZE);
    let back = BlobRef::fixed_length_deserialize(&out).unwrap();
    assert_eq!(back, b);
}

#[test]
fn blob_ref_round_trip_local_compressed() {
    let b = BlobRef { offset: u64::MAX, kind: BlobRefKind::Local, compressed: true };
    let mut out = Vec::new();
    b.serialize(&mut out);
    assert_eq!(out.len(), BLOB_REF_SIZE + 2);
    let (back, next) = BlobRef::deserialize(&out, 0).unwrap();
    assert_eq!(back, b);
    assert_eq!(next, out.len());
}

#[test]
fn blob_ref_bad_kind_is_invalid() {
    let b = other_ref(1, 7, false);
    let mut out = Vec::new();
    b.fixed_length_serialize(&mut out);
    out[8] = 2; // unknown kind bits
    assert_eq!(
        BlobRef::fixed_length_deserialize(&out),
        Err(WireFormatError::InvalidSerializedData)
    );
}

#[test]
fn blob_ref_wrong_length_is_invalid() {
    // a byte string of 40 bytes where a 41-byte record is expected
    let mut out = Vec::new();
    encode_cbor_header(&mut out, 2, 40);
    out.extend_from_slice(&[0u8; 40]);
    assert_eq!(
        BlobRef::deserialize(&out, 0).unwrap_err(),
        WireFormatError::InvalidSerializedData
    );
}

fn sample_inodes() -> Vec<Inode> {
    vec![
        Inode {
            ino: 1,
            mode: InodeMode::Unknown,
            uid: 0,
            gid: 0,
            permissions: 0,
            additional: None,
        },
        Inode {
            ino: 2,
            mode: InodeMode::Fifo,
            uid: 1,
            gid: 2,
            permissions: 0o644,
            additional: None,
        },
        Inode {
            ino: 3,
            mode: InodeMode::Chr { major: 10, minor: 125 },
            uid: 3,
            gid: 4,
            permissions: 0o600,
            additional: None,
        },
        Inode {
            ino: 4,
            mode: InodeMode::Dir { offset: 4096 },
            uid: 5,
            gid: 6,
            permissions: 0o755,
            additional: None,
        },
        Inode {
            ino: 5,
            mode: InodeMode::Blk { major: 1, minor: 1 },
            uid: 7,
            gid: 8,
            permissions: 0o660,
            additional: None,
        },
        Inode {
            ino: 6,
            mode: InodeMode::Reg { offset: 98765 },
            uid: 9,
            gid: 10,
            permissions: 0o644,
            additional: Some(BlobRef {
                offset: 555,
                kind: BlobRefKind::Local,
                compressed: false,
            }),
        },
        Inode {
            ino: 7,
            mode: InodeMode::Lnk,
            uid: 11,
            gid: 12,
            permissions: 0o777,
            additional: None,
        },
        Inode {
            ino: 8,
            mode: InodeMode::Sock,
            uid: 13,
            gid: 14,
            permissions: 0o700,
            additional: None,
        },
        Inode {
            ino: 9,
            mode: InodeMode::Wht,
            uid: 0,
            gid: 0,
            permissions: 0,
            additional: None,
        },
    ]
}

#[test]
fn inode_round_trip_every_mode() {
    for i in sample_inodes() {
        let mut out = Vec::new();
        i.serialize(&mut out);
        assert_eq!(out.len(), INODE_WIRE_SIZE);
        let (back, next) = Inode::deserialize(&out, 0).unwrap();
        assert_eq!(back, i);
        assert_eq!(next, INODE_WIRE_SIZE);
    }
}

#[test]
fn inode_payload_round_trip() {
    let i = &sample_inodes()[5];
    let mut out = Vec::new();
    i.fixed_length_serialize(&mut out);
    assert_eq!(out.len(), INODE_SIZE);
    let back = Inode::fixed_length_deserialize(&out).unwrap();
    assert_eq!(&back, i);
}

#[test]
fn inode_bad_mode_tag_is_invalid() {
    let i = &sample_inodes()[1];
    let mut out = Vec::new();
    i.fixed_length_serialize(&mut out);
    out[8] = 3; // no such mode tag
    assert_eq!(
        Inode::fixed_length_deserialize(&out),
        Err(WireFormatError::InvalidSerializedData)
    );
}

#[test]
fn digest_hex_round_trip() {
    let mut raw = [0u8; 32];
    for (i, b) in raw.iter_mut().enumerate() {
        *b = (i as u8).wrapping_mul(7).wrapping_add(3);
    }
    let d = Digest::new(raw);
    let s = d.to_hex();
    assert_eq!(s.len(), 64);
    assert_eq!(Digest::from_hex(&s).unwrap(), d);
    assert_eq!(Digest::from_hex(&s.to_uppercase()).unwrap(), d);
}

#[test]
fn digest_hex_display_value() {
    let d = Digest::new([0xAB; 32]);
    assert_eq!(d.to_hex(), "ab".repeat(32));
    assert_eq!(d.underlying(), [0xAB; 32]);
}

#[test]
fn digest_bad_hex_rejected() {
    assert_eq!(Digest::from_hex("abcd"), Err(WireFormatError::HexError));
    let bad = format!("{}zz", "ab".repeat(31));
    assert_eq!(Digest::from_hex(&bad), Err(WireFormatError::HexError));
}

#[test]
fn file_chunk_list_round_trip() {
    let cl = FileChunkList {
        chunks: vec![
            FileChunk { blob: other_ref(0xBB, 0, false), len: 4 },
            FileChunk { blob: other_ref(0xCD, 100, true), len: 7 },
        ],
    };
    let mut out = Vec::new();
    encode_file_chunk_list(&cl, &mut out);
    // trailing bytes after the value must be tolerated
    out.push(0xFF);
    let (back, next) = parse_file_chunk_list(&out, 0).unwrap();
    assert_eq!(back, cl);
    assert_eq!(next, out.len() - 1);
}

#[test]
fn file_chunk_encode_is_consumed_by_list_parser() {
    // a single chunk is not a whole list
    let c = FileChunk { blob: other_ref(0x11, 5, false), len: 9 };
    let mut out = Vec::new();
    encode_file_chunk(&c, &mut out);
    assert!(parse_file_chunk_list(&out, 0).is_err());
}

#[test]
fn dir_list_round_trip() {
    let dl = DirList {
        look_below: true,
        entries: vec![
            DirEnt { ino: 2, name: b"beta".to_vec() },
            DirEnt { ino: 3, name: b"alpha".to_vec() },
        ],
    };
    let mut out = Vec::new();
    encode_dir_list(&dl, &mut out);
    let (back, next) = parse_dir_list(&out, 0).unwrap();
    assert_eq!(back, dl);
    assert_eq!(next, out.len());
}

#[test]
fn dir_ent_alone_is_not_a_list() {
    let d = DirEnt { ino: 9, name: b"x".to_vec() };
    let mut out = Vec::new();
    encode_dir_ent(&d, &mut out);
    assert!(parse_dir_list(&out, 0).is_err());
}

#[test]
fn inode_additional_round_trip() {
    let a = InodeAdditional {
        xattrs: vec![
            Xattr { key: b"user.a".to_vec(), val: b"1".to_vec() },
            Xattr { key: b"user.b".to_vec(), val: Vec::new() },
        ],
        symlink_target: Some(b"../target".to_vec()),
    };
    let mut out = Vec::new();
    encode_inode_additional(&a, &mut out);
    let (back, next) = parse_inode_additional(&out, 0).unwrap();
    assert_eq!(back, a);
    assert_eq!(next, out.len());
}

#[test]
fn inode_additional_absent_target() {
    let a = InodeAdditional { xattrs: Vec::new(), symlink_target: None };
    let mut out = Vec::new();
    encode_inode_additional(&a, &mut out);
    let (back, _) = parse_inode_additional(&out, 0).unwrap();
    assert_eq!(back, a);
}

#[test]
fn xattr_alone_is_not_additional_data() {
    let x = Xattr { key: b"k".to_vec(), val: b"v".to_vec() };
    let mut out = Vec::new();
    encode_xattr(&x, &mut out);
    assert!(parse_inode_additional(&out, 0).is_err());
}

#[test]
fn rootfs_round_trip() {
    let rf = Rootfs {
        metadatas: vec![other_ref(0xCC, 0, false), other_ref(0xDD, 0, false)],
        fs_verity_data: (),
        manifest_version: 2,
    };
    let mut out = Vec::new();
    encode_rootfs(&rf, &mut out);
    let (back, next) = parse_rootfs(&out, 0).unwrap();
    assert_eq!(back, rf);
    assert_eq!(next, out.len());
    assert_eq!(Rootfs::open(&out).unwrap(), rf);
}

#[test]
fn rootfs_empty_input_is_value_missing() {
    // a decoder that expected a manifest and got no bytes at all
    assert_eq!(Rootfs::open(&[]), Err(WireFormatError::ValueMissing));
}

#[test]
fn rootfs_truncated_is_rejected() {
    let rf = Rootfs { metadatas: vec![other_ref(0xCC, 0, false)], fs_verity_data: (), manifest_version: 2 };
    let mut out = Vec::new();
    encode_rootfs(&rf, &mut out);
    out.truncate(out.len() - 1);
    assert!(Rootfs::open(&out).is_err());
}
