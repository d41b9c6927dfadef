//! Binary search over the fixed-stride inode table.

use puzzlefs::cbor::{cbor_size_of_list_header, encode_cbor_header, MAJOR_ARRAY};
use puzzlefs::error::WireFormatError;
use puzzlefs::metadata::MetadataBlob;
use puzzlefs::records::{encode_dir_list, encode_file_chunk_list, encode_inode_additional, DirEnt,
    DirList, FileChunk, FileChunkList, InodeAdditional};
use puzzlefs::types::{BlobRef, BlobRefKind, Inode, InodeMode, INODE_WIRE_SIZE};

fn plain_inode(ino: u64) -> Inode {
    Inode {
        ino,
        mode: InodeMode::Fifo,
        uid: 0,
        gid: 0,
        permissions: 0o644,
        additional: None,
    }
}

fn build_table(inodes: &[Inode]) -> MetadataBlob {
    let mut out = Vec::new();
    encode_cbor_header(&mut out, MAJOR_ARRAY, inodes.len() as u64);
    for i in inodes {
        i.serialize(&mut out);
    }
    MetadataBlob::new(out).unwrap()
}

#[test]
fn find_inode_single_record() {
    let mb = build_table(&[plain_inode(1)]);
    assert_eq!(mb.inode_count, 1);
    let found = mb.find_inode(1).unwrap().unwrap();
    assert_eq!(found, plain_inode(1));
    assert_eq!(mb.find_inode(2).unwrap(), None);
}

#[test]
fn find_inode_empty_table_is_not_found() {
    let mb = build_table(&[]);
    assert_eq!(mb.find_inode(0).unwrap(), None);
    assert_eq!(mb.find_inode(7).unwrap(), None);
}

#[test]
fn find_inode_below_first_record_stops_at_guard() {
    // target smaller than every stored number: the search must stop at
    // slot 0 instead of running below it
    let mb = build_table(&[plain_inode(10), plain_inode(20)]);
    assert_eq!(mb.find_inode(1).unwrap(), None);
    assert_eq!(mb.find_inode(15).unwrap(), None);
    assert_eq!(mb.find_inode(21).unwrap(), None);
}

#[test]
fn find_inode_thousand_records() {
    // inode numbers 2, 4, 6, ..., 2000
    let inodes: Vec<Inode> = (1..=1000).map(|k| plain_inode(2 * k)).collect();
    let mb = build_table(&inodes);
    let found = mb.find_inode(1000).unwrap().unwrap();
    assert_eq!(found, plain_inode(1000));
    assert_eq!(mb.find_inode(1001).unwrap(), None);
    assert_eq!(mb.find_inode(1).unwrap(), None);
    for k in 1..=1000u64 {
        assert_eq!(mb.find_inode(2 * k).unwrap().unwrap().ino, 2 * k);
    }
}

#[test]
fn find_inode_bad_mode_tag_is_invalid_data() {
    let mut out = Vec::new();
    encode_cbor_header(&mut out, MAJOR_ARRAY, 1);
    plain_inode(1).serialize(&mut out);
    let header = cbor_size_of_list_header(1);
    // the mode tag sits after the record's own two-byte string header
    // and the eight-byte inode number
    out[header + 2 + 8] = 3;
    let mb = MetadataBlob::new(out).unwrap();
    assert_eq!(mb.find_inode(1), Err(WireFormatError::InvalidSerializedData));
}

#[test]
fn find_inode_truncated_table_is_an_error() {
    let mut out = Vec::new();
    encode_cbor_header(&mut out, MAJOR_ARRAY, 2);
    plain_inode(1).serialize(&mut out);
    // the second record the header promises is missing
    let mb = MetadataBlob::new(out).unwrap();
    assert!(mb.find_inode(5).is_err());
}

#[test]
fn metadata_blob_new_rejects_garbage() {
    assert!(MetadataBlob::new(vec![0xF6]).is_err());
    assert!(MetadataBlob::new(Vec::new()).is_err());
}

#[test]
fn record_stride_is_fixed() {
    let mb = build_table(&[plain_inode(3), plain_inode(8)]);
    let header = cbor_size_of_list_header(mb.inode_count);
    assert_eq!(mb.mmapped_region.len(), header + 2 * INODE_WIRE_SIZE);
}

#[test]
fn table_check_accepts_sorted_tables() {
    assert!(build_table(&[]).check_inode_table());
    assert!(build_table(&[plain_inode(5)]).check_inode_table());
    assert!(build_table(&[plain_inode(1), plain_inode(2), plain_inode(9)]).check_inode_table());
}

#[test]
fn table_check_rejects_disorder_and_damage() {
    // out of order
    assert!(!build_table(&[plain_inode(2), plain_inode(1)]).check_inode_table());
    // duplicate inode numbers
    assert!(!build_table(&[plain_inode(3), plain_inode(3)]).check_inode_table());
    // a corrupted mode tag
    let mut out = Vec::new();
    encode_cbor_header(&mut out, MAJOR_ARRAY, 1);
    plain_inode(1).serialize(&mut out);
    out[cbor_size_of_list_header(1) + 2 + 8] = 3;
    assert!(!MetadataBlob::new(out).unwrap().check_inode_table());
}

#[test]
fn side_data_is_read_back_by_offset() {
    // an empty table followed by three variable-length records
    let mut out = Vec::new();
    encode_cbor_header(&mut out, MAJOR_ARRAY, 0);
    let chunks_off = out.len() as u64;
    let chunks = vec![FileChunk {
        blob: BlobRef {
            offset: 0,
            kind: BlobRefKind::Other { digest: [7u8; 32] },
            compressed: false,
        },
        len: 11,
    }];
    encode_file_chunk_list(&FileChunkList { chunks: chunks.clone() }, &mut out);
    let dir_off = out.len() as u64;
    let dl = DirList { look_below: false, entries: vec![DirEnt { ino: 4, name: b"d".to_vec() }] };
    encode_dir_list(&dl, &mut out);
    let addl_off = out.len() as u64;
    let addl = InodeAdditional { xattrs: Vec::new(), symlink_target: Some(b"t".to_vec()) };
    encode_inode_additional(&addl, &mut out);
    let mb = MetadataBlob::new(out).unwrap();
    assert_eq!(mb.read_file_chunks(chunks_off).unwrap(), chunks);
    assert_eq!(mb.read_dir_list(dir_off).unwrap(), dl);
    let local = BlobRef { offset: addl_off, kind: BlobRefKind::Local, compressed: false };
    assert_eq!(mb.read_inode_additional(&local).unwrap(), addl);
    // offsets past the buffer mean there is no value to decode at all
    assert_eq!(mb.read_file_chunks(1 << 40), Err(WireFormatError::ValueMissing));
    assert_eq!(mb.read_dir_list(1 << 40), Err(WireFormatError::ValueMissing));
    let far = BlobRef { offset: 1 << 40, kind: BlobRefKind::Local, compressed: false };
    assert_eq!(mb.read_inode_additional(&far), Err(WireFormatError::ValueMissing));
}

#[test]
fn find_inode_huge_count_is_invalid_data() {
    // an array header announcing far more records than the address space
    // holds: the search must fail cleanly, not wrap its offsets
    let mut out = Vec::new();
    encode_cbor_header(&mut out, MAJOR_ARRAY, 1u64 << 61);
    let mb = MetadataBlob::new(out).unwrap();
    assert_eq!(mb.find_inode(5), Err(WireFormatError::InvalidSerializedData));
}

#[test]
fn seek_ref_follows_local_only() {
    let mb = build_table(&[]);
    let local = BlobRef { offset: 42, kind: BlobRefKind::Local, compressed: false };
    assert_eq!(mb.seek_ref(&local), Ok(42));
    let other = BlobRef {
        offset: 42,
        kind: BlobRefKind::Other { digest: [0u8; 32] },
        compressed: false,
    };
    assert_eq!(mb.seek_ref(&other), Err(WireFormatError::SeekOtherError));
}
