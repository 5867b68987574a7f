use flate2::write::ZlibEncoder;
use flate2::Compression;
use gitrw::compression::{decimal_digits, pack_file, preamble_bytes, Decompression};
use gitrw::error::GitError;
use gitrw::idx_reader::IdxError;
use gitrw::object_hash::ObjectHash;
use gitrw::objs::GitObject;
use gitrw::pack_diff::{read_base_offset, PackDiff};
use gitrw::packreader::{collect_ofs_chain, get_offset, object_from_bytes, PackObject, PackReader};
use std::io::Write;

fn zlib(data: &[u8]) -> Vec<u8> {
    let mut encoder = ZlibEncoder::new(Vec::new(), Compression::default());
    encoder.write_all(data).unwrap();
    encoder.finish().unwrap()
}

fn entry_header(kind: u8, size: usize) -> Vec<u8> {
    let mut first = (kind << 4) | (size & 0x0f) as u8;
    let mut rest = size >> 4;
    let mut header = Vec::new();
    if rest > 0 {
        first |= 0x80;
    }
    header.push(first);
    while rest > 0 {
        let mut byte = (rest & 0x7f) as u8;
        rest >>= 7;
        if rest > 0 {
            byte |= 0x80;
        }
        header.push(byte);
    }
    header
}

fn back_offset(offset: usize) -> Vec<u8> {
    let mut bytes = vec![(offset & 0x7f) as u8];
    let mut rest = offset >> 7;
    while rest > 0 {
        rest -= 1;
        bytes.push(0x80 | (rest & 0x7f) as u8);
        rest >>= 7;
    }
    bytes.reverse();
    bytes
}

fn index_for(entries: &[([u8; 20], u32)]) -> Vec<u8> {
    let mut idx = vec![255u8, b't', b'O', b'c', 0, 0, 0, 2];
    let count = entries.len() as u32;
    for slot in 0..256u32 {
        let below = if slot == 255 { count } else { 0 };
        idx.extend_from_slice(&below.to_be_bytes());
    }
    for (hash, _) in entries {
        idx.extend_from_slice(hash);
    }
    for _ in entries {
        idx.extend_from_slice(&[0u8; 4]);
    }
    for (_, offset) in entries {
        idx.extend_from_slice(&offset.to_be_bytes());
    }
    idx
}

const COMMIT: &[u8] = b"tree 1111111111111111111111111111111111111111\nauthor A <a@x> 1 +0000\ncommitter A <a@x> 1 +0000\n\nfirst\n";

struct Sample {
    pack: Vec<u8>,
    idx: Vec<u8>,
    plain: usize,
    delta: usize,
    second_delta: usize,
    ref_delta: usize,
    odd: usize,
}

const LONGER: &[u8] = b"tree 1111111111111111111111111111111111111111\nauthor A <a@x> 1 +0000\ncommitter A <a@x> 1 +0000\n\nfirst and second\n";

fn sample() -> Sample {
    let mut pack = b"PACK\0\0\0\x02\0\0\0\x05".to_vec();
    let plain = pack.len();
    pack.extend_from_slice(&entry_header(1, COMMIT.len()));
    pack.extend_from_slice(&zlib(COMMIT));
    // the commit with its message replaced: copy all but "first\n", add the new end
    let keep = COMMIT.len() - 6;
    let mut delta = vec![COMMIT.len() as u8, (keep + 7) as u8];
    delta.extend_from_slice(&[0b1001_0000, keep as u8]);
    delta.extend_from_slice(&[7]);
    delta.extend_from_slice(b"second\n");
    let delta_at = pack.len();
    pack.extend_from_slice(&entry_header(6, delta.len()));
    pack.extend_from_slice(&back_offset(delta_at - plain));
    pack.extend_from_slice(&zlib(&delta));
    // against that: copy all but "second\n", add "first and second\n"
    let mut second = vec![(keep + 7) as u8, LONGER.len() as u8];
    second.extend_from_slice(&[0b1001_0000, keep as u8]);
    second.extend_from_slice(&[17]);
    second.extend_from_slice(b"first and second\n");
    let second_at = pack.len();
    pack.extend_from_slice(&entry_header(6, second.len()));
    pack.extend_from_slice(&back_offset(second_at - delta_at));
    pack.extend_from_slice(&zlib(&second));
    // a reference delta against the first delta's object: keep the first 5 bytes
    let third = vec![(keep + 7) as u8, 5, 0b1001_0000, 5];
    let ref_at = pack.len();
    pack.extend_from_slice(&entry_header(7, third.len()));
    pack.extend_from_slice(&[0xd1; 20]);
    pack.extend_from_slice(&zlib(&third));
    let odd = pack.len();
    pack.extend_from_slice(&entry_header(5, 0));
    pack.extend_from_slice(&zlib(b""));
    let idx = index_for(&[
        ([0xc0; 20], plain as u32),
        ([0xd1; 20], delta_at as u32),
        ([0xd2; 20], second_at as u32),
        ([0xd3; 20], ref_at as u32),
        ([0xee; 20], odd as u32),
        ([0xef; 20], 100_000),
    ]);
    Sample { pack, idx, plain, delta: delta_at, second_delta: second_at, ref_delta: ref_at, odd }
}

#[test]
fn entry_headers_are_read() {
    let sample = sample();
    let plain = PackObject::create(&sample.pack, sample.plain).unwrap();
    assert_eq!(plain.object_type, 1);
    assert_eq!(plain.offset, sample.plain);
    assert_eq!(plain.header_len, 2);
    assert_eq!(plain.data_size, COMMIT.len());
    let big = entry_header(3, 1_000_000);
    let header = PackObject::create(&big, 0).unwrap();
    assert_eq!((header.object_type, header.header_len, header.data_size), (3, 4, 1_000_000));
    let small = PackObject::create(&[0x2f], 0).unwrap();
    assert_eq!((small.object_type, small.header_len, small.data_size), (2, 1, 15));
    assert_eq!(PackObject::create(&[0x9f], 0).err(), Some(GitError::TruncatedPackOrIndex));
    assert_eq!(PackObject::create(&[0x1f], 1).err(), Some(GitError::TruncatedPackOrIndex));
}

#[test]
fn base_offsets_add_one_per_byte() {
    let entry = PackObject { object_type: 6, offset: 0, header_len: 1, data_size: 0 };
    assert_eq!(read_base_offset(&[0x60, 0x05], &entry), Ok((5, 1)));
    assert_eq!(read_base_offset(&[0x60, 0x80, 0x00], &entry), Ok((128, 2)));
    assert_eq!(read_base_offset(&[0x60, 0x81, 0x7f], &entry), Ok((128 + 128 + 127, 2)));
    assert_eq!(read_base_offset(&[0x60, 0x81], &entry), Err(GitError::TruncatedPackOrIndex));
    for offset in [1usize, 127, 128, 300, 16511, 16512, 2_113_663, 2_113_664] {
        let mut bytes = vec![0x60u8];
        bytes.extend_from_slice(&back_offset(offset));
        assert_eq!(read_base_offset(&bytes, &entry), Ok((offset, bytes.len() - 1)));
    }
}

#[test]
fn plain_entries_are_inflated() {
    let sample = sample();
    let mut inflater = Decompression::default();
    let plain = PackObject::create(&sample.pack, sample.plain).unwrap();
    assert_eq!(inflater.unpack(&sample.pack, &plain, 0).unwrap(), COMMIT.to_vec());
    let wrong_size = PackObject { data_size: COMMIT.len() + 1, ..plain };
    assert_eq!(
        inflater.unpack(&sample.pack, &wrong_size, 0).err(),
        Some(GitError::MalformedObject)
    );
    let short = PackObject { data_size: COMMIT.len() - 1, ..plain };
    assert_eq!(inflater.unpack(&sample.pack, &short, 0).err(), Some(GitError::MalformedObject));
    let beyond = PackObject { offset: sample.pack.len(), ..plain };
    assert_eq!(
        inflater.unpack(&sample.pack, &beyond, 0).err(),
        Some(GitError::TruncatedPackOrIndex)
    );
}

#[test]
fn loose_files_round_trip() {
    let file = pack_file(b"commit", COMMIT);
    assert_ne!(file, COMMIT.to_vec());
    let mut inflater = Decompression::default();
    let mut expected = format!("commit {}\0", COMMIT.len()).into_bytes();
    expected.extend_from_slice(COMMIT);
    assert_eq!(inflater.unpack_file(&file).unwrap(), expected);
    assert_eq!(inflater.unpack_file(&zlib(b"tag 0\0")).unwrap(), b"tag 0\0".to_vec());
    assert_eq!(inflater.unpack_file(&[0x78]).err(), Some(GitError::TruncatedPackOrIndex));
    assert_eq!(
        inflater.unpack_file(&[0x78, 0x9c, 0xff, 0xff, 0xff]).err(),
        Some(GitError::MalformedObject)
    );
}

#[test]
fn preamble_holds_kind_and_decimal_length() {
    assert_eq!(decimal_digits(0), b"0".to_vec());
    assert_eq!(decimal_digits(7), b"7".to_vec());
    assert_eq!(decimal_digits(10), b"10".to_vec());
    assert_eq!(decimal_digits(1234567890), b"1234567890".to_vec());
    assert_eq!(preamble_bytes(b"tree", 305), b"tree 305\0".to_vec());
}

#[test]
fn offset_delta_chain_is_folded_and_applied() {
    let sample = sample();
    let mut inflater = Decompression::default();
    let entry = PackObject::create(&sample.pack, sample.second_delta).unwrap();
    assert_eq!(entry.object_type, 6);
    let diff = PackDiff::create(&mut inflater, &sample.pack, &entry).unwrap();
    assert_eq!(diff.negative_offset, sample.second_delta - sample.delta);
    assert_eq!(diff.target_len, LONGER.len());
    let (folded, last) = collect_ofs_chain(&mut inflater, &sample.pack, entry).unwrap();
    assert_eq!(last.offset, sample.plain);
    assert_eq!(last.object_type, 1);
    assert_eq!(folded.target_len, LONGER.len());
    assert_eq!(folded.apply(COMMIT).unwrap(), LONGER.to_vec());
}

#[test]
fn objects_are_read_from_packs() {
    let sample = sample();
    let reader = PackReader::create(&vec![(&sample.pack[..], &sample.idx[..])]).unwrap();
    let mut inflater = Decompression::default();
    let (bytes, kind) = reader
        .read_git_object_bytes(&mut inflater, &ObjectHash::new([0xc0; 20]))
        .unwrap()
        .unwrap();
    assert_eq!(bytes, COMMIT.to_vec());
    assert_eq!(kind.object_type, 1);
    let (bytes, kind) = reader
        .read_git_object_bytes(&mut inflater, &ObjectHash::new([0xd2; 20]))
        .unwrap()
        .unwrap();
    assert_eq!(bytes, LONGER.to_vec());
    assert_eq!((kind.object_type, kind.offset), (1, sample.plain));
    let (bytes, kind) = reader
        .read_git_object_bytes(&mut inflater, &ObjectHash::new([0xd3; 20]))
        .unwrap()
        .unwrap();
    assert_eq!(bytes, b"tree ".to_vec());
    assert_eq!(kind.object_type, 1);
    assert_eq!(kind.offset, sample.plain);
    assert!(reader
        .read_git_object_bytes(&mut inflater, &ObjectHash::new([0x01; 20]))
        .unwrap()
        .is_none());
    assert_eq!(
        reader.read_git_object_bytes(&mut inflater, &ObjectHash::new([0xee; 20])).err(),
        Some(GitError::UnknownObjectType)
    );
    assert_eq!(
        reader.read_git_object_bytes(&mut inflater, &ObjectHash::new([0xef; 20])).err(),
        Some(GitError::TruncatedPackOrIndex)
    );
    assert_eq!(get_offset(&reader, &ObjectHash::new([0xd1; 20])), Some((0, sample.delta as u64)));
    assert_eq!(get_offset(&reader, &ObjectHash::new([0x02; 20])), None);
    assert_eq!(sample.ref_delta > sample.second_delta, true);
    assert_eq!(sample.odd > sample.ref_delta, true);
}

#[test]
fn commits_are_parsed_from_packs() {
    let sample = sample();
    let mut reader = PackReader::new();
    reader.add_pack(&sample.pack, &sample.idx).unwrap();
    let mut inflater = Decompression::default();
    let hash = ObjectHash::new([0xd1; 20]);
    match reader.read_git_object(&mut inflater, hash).unwrap() {
        Some(GitObject::Commit(commit)) => {
            assert_eq!(commit.hash().0, hash);
            assert_eq!(commit.author(), b"A <a@x>");
            assert!(commit.payload_bytes().ends_with(b"\n\nsecond\n"));
        }
        other => panic!("expected a commit, got {:?}", other),
    }
    assert!(reader.read_git_object(&mut inflater, ObjectHash::new([0x03; 20])).unwrap().is_none());
    assert_eq!(
        reader.read_git_object(&mut inflater, ObjectHash::new([0xd3; 20])).err(),
        Some(GitError::MalformedObject)
    );
    assert_eq!(
        object_from_bytes(hash, b"anything".to_vec(), 3).err(),
        Some(GitError::UnknownObjectType)
    );
}

#[test]
fn missing_delta_base_is_reported() {
    let delta = vec![5u8, 1, 0b1001_0000, 1];
    let mut pack = b"PACK\0\0\0\x02\0\0\0\x01".to_vec();
    let at = pack.len();
    pack.extend_from_slice(&entry_header(7, delta.len()));
    pack.extend_from_slice(&[0x77; 20]);
    pack.extend_from_slice(&zlib(&delta));
    let own = at;
    let idx = index_for(&[([0x55; 20], own as u32)]);
    let reader = PackReader::create(&vec![(&pack[..], &idx[..])]).unwrap();
    let mut inflater = Decompression::default();
    assert_eq!(
        reader.read_git_object_bytes(&mut inflater, &ObjectHash::new([0x55; 20])).err(),
        Some(GitError::MissingBase)
    );
    // a reference delta that names itself never ends: it counts as missing
    let mut cyclic = b"PACK\0\0\0\x02\0\0\0\x01".to_vec();
    cyclic.extend_from_slice(&entry_header(7, delta.len()));
    cyclic.extend_from_slice(&[0x55; 20]);
    cyclic.extend_from_slice(&zlib(&delta));
    let reader = PackReader::create(&vec![(&cyclic[..], &idx[..])]).unwrap();
    assert_eq!(
        reader.read_git_object_bytes(&mut inflater, &ObjectHash::new([0x55; 20])).err(),
        Some(GitError::MissingBase)
    );
}

#[test]
fn first_pack_that_holds_an_object_wins() {
    let mut first = b"PACK\0\0\0\x02\0\0\0\x01".to_vec();
    let at = first.len();
    first.extend_from_slice(&entry_header(3, 3));
    first.extend_from_slice(&zlib(b"one"));
    let mut second = b"PACK\0\0\0\x02\0\0\0\x01".to_vec();
    second.extend_from_slice(&entry_header(3, 3));
    second.extend_from_slice(&zlib(b"two"));
    let idx = index_for(&[([0x10; 20], at as u32)]);
    let other = index_for(&[([0x10; 20], at as u32), ([0x20; 20], at as u32)]);
    let reader =
        PackReader::create(&vec![(&first[..], &idx[..]), (&second[..], &other[..])]).unwrap();
    let mut inflater = Decompression::default();
    let (bytes, kind) =
        reader.read_git_object_bytes(&mut inflater, &ObjectHash::new([0x10; 20])).unwrap().unwrap();
    assert_eq!((bytes, kind.object_type), (b"one".to_vec(), 3));
    let (bytes, _) =
        reader.read_git_object_bytes(&mut inflater, &ObjectHash::new([0x20; 20])).unwrap().unwrap();
    assert_eq!(bytes, b"two".to_vec());
    assert_eq!(get_offset(&reader, &ObjectHash::new([0x20; 20])), Some((1, at as u64)));
}

#[test]
fn unreadable_index_fails_the_reader() {
    let pack = b"PACK".to_vec();
    let idx = vec![0u8; 2000];
    assert_eq!(
        PackReader::create(&vec![(&pack[..], &idx[..])]).err(),
        Some(IdxError::InvalidHeader)
    );
    let mut reader = PackReader::new();
    assert_eq!(reader.add_pack(&pack, &idx[..10]), Err(IdxError::TruncatedIndex));
    assert_eq!(reader.packs.len(), 0);
    assert_eq!(GitError::from_idx(IdxError::InvalidHeader), GitError::InvalidIndexHeader);
    assert_eq!(GitError::from_idx(IdxError::TruncatedIndex), GitError::TruncatedPackOrIndex);
}
