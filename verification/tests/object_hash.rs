use gitrw::error::GitError;
use gitrw::object_hash::{CommitHash, ObjectHash, TreeHash};

const HEX: &[u8] = b"53dd2e51161a4eebd8baacd17383c9af35a8283e";

#[test]
fn hex_text_round_trip() {
    let hash = ObjectHash::try_from_bstr(HEX).unwrap();
    assert_eq!(hash.bytes[0], 0x53);
    assert_eq!(hash.bytes[1], 0xdd);
    assert_eq!(hash.bytes[19], 0x3e);
    assert_eq!(hash.to_hex(), HEX.to_vec());
    assert_eq!(hash.to_string(), "53dd2e51161a4eebd8baacd17383c9af35a8283e");
    let again = ObjectHash::try_from_bstr(&hash.to_hex()).unwrap();
    assert!(hash.same(&again));
    assert_eq!(hash, again);
}

#[test]
fn hex_of_all_digits() {
    let bytes: [u8; 20] = [
        0x01, 0x23, 0x45, 0x67, 0x89, 0xab, 0xcd, 0xef, 0x00, 0xff, 0x10, 0x0f, 0xa0, 0x0a, 0x9f,
        0xf9, 0x7e, 0xe7, 0x5c, 0xc5,
    ];
    let hash = ObjectHash::new(bytes);
    assert_eq!(hash.to_string(), "0123456789abcdef00ff100fa00a9ff97ee75cc5");
    assert_eq!(hash.to_hex(), b"0123456789abcdef00ff100fa00a9ff97ee75cc5".to_vec());
    assert_eq!(ObjectHash::try_from_bstr(&hash.to_hex()).unwrap().bytes, bytes);
}

#[test]
fn hex_text_of_wrong_shape_is_refused() {
    assert_eq!(ObjectHash::try_from_bstr(&HEX[..39]).err(), Some(GitError::MalformedRef));
    assert_eq!(ObjectHash::try_from_bstr(b"").err(), Some(GitError::MalformedRef));
    let upper = b"53DD2E51161A4EEBD8BAACD17383C9AF35A8283E";
    assert_eq!(ObjectHash::try_from_bstr(upper).err(), Some(GitError::MalformedRef));
    let odd = b"53dd2e51161a4eebd8baacd17383c9af35a8283g";
    assert_eq!(ObjectHash::try_from_bstr(odd).err(), Some(GitError::MalformedRef));
}

#[test]
fn raw_bytes_must_be_twenty() {
    let raw = [7u8; 20];
    assert_eq!(ObjectHash::try_from(&raw[..]).unwrap().bytes, raw);
    assert_eq!(
        ObjectHash::try_from(&raw[..19]).err(),
        Some(GitError::UnsupportedHashAlgorithm)
    );
    assert_eq!(TreeHash::try_from(&[0u8; 32][..]).err(), Some(GitError::UnsupportedHashAlgorithm));
    assert_eq!(CommitHash::try_from(&raw[..]).unwrap().0.bytes, raw);
}

#[test]
fn typed_hashes_convert_to_raw() {
    let hash = ObjectHash::from([9u8; 20]);
    let commit = CommitHash::from(hash);
    let tree = TreeHash::from(hash);
    assert_eq!(ObjectHash::from(commit), hash);
    assert_eq!(ObjectHash::from(tree), hash);
    assert_eq!(commit.to_string(), "0909090909090909090909090909090909090909");
    assert_eq!(tree.to_hex(), commit.to_hex());
    assert!(commit.same(&CommitHash::try_from_bstr(&commit.to_hex()).unwrap()));
    assert!(!tree.same(&TreeHash::try_from_bstr(HEX).unwrap()));
}
