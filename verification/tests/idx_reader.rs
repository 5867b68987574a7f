use gitrw::idx_reader::{get_pack_offsets, verify_header, IdxError};

#[test]
pub fn header_test() {
    let buf = [0u8; 1024];

    let r = verify_header(&buf);
    assert!(r.is_err());
}

fn index_with(hashes: &[[u8; 20]], slots: &[[u8; 4]], large: &[[u8; 8]]) -> Vec<u8> {
    let mut idx = vec![255u8, b't', b'O', b'c', 0, 0, 0, 2];
    let count = hashes.len() as u32;
    for slot in 0..256u32 {
        let below = if slot == 255 { count } else { 0 };
        idx.extend_from_slice(&below.to_be_bytes());
    }
    for hash in hashes {
        idx.extend_from_slice(hash);
    }
    for _ in hashes {
        idx.extend_from_slice(&[0u8; 4]);
    }
    for slot in slots {
        idx.extend_from_slice(slot);
    }
    for offset in large {
        idx.extend_from_slice(offset);
    }
    idx
}

#[test]
fn header_accepts_version_two() {
    let buf = [255u8, b't', b'O', b'c', 0, 0, 0, 2, 9, 9];
    assert_eq!(verify_header(&buf), Ok(()));
}

#[test]
fn header_rejects_other_version() {
    let buf = [255u8, b't', b'O', b'c', 0, 0, 0, 3];
    assert_eq!(verify_header(&buf), Err(IdxError::InvalidHeader));
}

#[test]
fn header_too_short_is_truncated() {
    let buf = [255u8, b't', b'O'];
    assert_eq!(verify_header(&buf), Err(IdxError::TruncatedIndex));
}

#[test]
fn index_without_objects_is_empty() {
    let mut idx = index_with(&[], &[], &[]);
    idx.extend_from_slice(&[1, 2, 3]);
    let offsets = get_pack_offsets(&idx).unwrap();
    assert!(offsets.is_empty());
}

#[test]
fn index_lists_small_then_large_offsets() {
    let a = [0x11u8; 20];
    let b = [0x22u8; 20];
    let c = [0x33u8; 20];
    let idx = index_with(
        &[a, b, c],
        &[[0, 0, 0, 12], [0x80, 0, 0, 0], [0, 0, 1, 2]],
        &[[0, 0, 0, 1, 0, 0, 0, 5]],
    );
    let offsets = get_pack_offsets(&idx).unwrap();
    assert_eq!(offsets.len(), 3);
    assert_eq!(offsets[0].hash.bytes, a);
    assert_eq!(offsets[0].offset, 12);
    assert_eq!(offsets[1].hash.bytes, c);
    assert_eq!(offsets[1].offset, 258);
    assert_eq!(offsets[2].hash.bytes, b);
    assert_eq!(offsets[2].offset, 4294967301);
}

#[test]
fn index_cut_short_is_truncated() {
    let a = [0x11u8; 20];
    let idx = index_with(&[a], &[[0, 0, 0, 12]], &[]);
    let cut = &idx[..idx.len() - 1];
    assert_eq!(get_pack_offsets(cut).err(), Some(IdxError::TruncatedIndex));
    let large = index_with(&[a], &[[0x80, 0, 0, 0]], &[]);
    assert_eq!(get_pack_offsets(&large).err(), Some(IdxError::TruncatedIndex));
    assert_eq!(get_pack_offsets(&idx[..100]).err(), Some(IdxError::TruncatedIndex));
}

#[test]
fn index_with_wrong_magic_is_invalid() {
    let mut idx = index_with(&[], &[], &[]);
    idx[1] = b'x';
    assert_eq!(get_pack_offsets(&idx).err(), Some(IdxError::InvalidHeader));
    assert_eq!(IdxError::InvalidHeader.message(), "IDX file has invalid header.");
}
