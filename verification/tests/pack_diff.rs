use gitrw::error::GitError;
use gitrw::pack_diff::{
    build_delta_instructions, read_varint, AddInstruction, CopyInstruction, DiffInstruction,
    PackDiff,
};

#[test]
pub fn patch_diff() {
    let base = Vec::from("hello world");
    let add_text = Vec::from(", this is a test");

    let base_diff = PackDiff {
        negative_offset: 1000,
        target_len: base.len() + add_text.len(),
        instructions: vec![
            DiffInstruction::Copy(CopyInstruction::new(0, base.len()).unwrap()),
            DiffInstruction::Add(AddInstruction { bytes: add_text.into() }),
        ],
    };

    // hello world, this is a test
    // huhu world, is a test good?
    let target_text = Vec::from("huhu world, is a test good?");
    let huhu_text = Vec::from("huhu");
    let q_text = Vec::from("is a test good?");

    let next_diff = PackDiff {
        negative_offset: 50,
        target_len: target_text.len(),
        instructions: vec![
            DiffInstruction::Add(AddInstruction { bytes: huhu_text.into() }),
            DiffInstruction::Copy(CopyInstruction::new(5, 8).unwrap()),
            DiffInstruction::Add(AddInstruction { bytes: q_text.into() }),
        ],
    };

    let diff = next_diff.combine(&base_diff);
    let bytes = diff.apply(&base).unwrap();

    assert_eq!(target_text.len(), diff.target_len);
    assert_eq!(*bytes, target_text);
}

#[test]
fn combined_delta_equals_stepwise() {
    let base = b"0123456789abcdef".to_vec();
    let inner = PackDiff {
        negative_offset: 7,
        target_len: 14,
        instructions: vec![
            DiffInstruction::Copy(CopyInstruction::new(10, 6).unwrap()),
            DiffInstruction::Add(AddInstruction { bytes: b"XY".to_vec() }),
            DiffInstruction::Copy(CopyInstruction::new(0, 6).unwrap()),
        ],
    };
    let outer = || PackDiff {
        negative_offset: 3,
        target_len: 11,
        instructions: vec![
            DiffInstruction::Copy(CopyInstruction::new(4, 6).unwrap()),
            DiffInstruction::Add(AddInstruction { bytes: b"-".to_vec() }),
            DiffInstruction::Copy(CopyInstruction::new(0, 4).unwrap()),
        ],
    };
    let middle = inner.apply(&base).unwrap();
    assert_eq!(middle, b"abcdefXY012345".to_vec());
    let stepwise = outer().apply(&middle).unwrap();
    assert_eq!(stepwise, b"efXY01-abcd".to_vec());
    let folded = outer().combine(&inner);
    assert_eq!(folded.negative_offset, 7);
    assert_eq!(folded.target_len, 11);
    assert_eq!(folded.apply(&base).unwrap(), stepwise);
    assert_eq!(folded.instructions.len(), 5);
}

#[test]
fn copy_length_zero_means_65536() {
    let data = [0b1000_0001u8, 7];
    let mut at = 0usize;
    let copy = CopyInstruction::create(&data, &mut at).unwrap();
    assert_eq!(copy.offset(), 7);
    assert_eq!(copy.len(), 65536);
    assert_eq!(at, 2);
}

#[test]
fn copy_reads_offset_and_length_bytes() {
    let data = [0xffu8, 0b1011_0101, 0x01, 0x02, 0x03, 0x04, 0x05];
    let mut at = 1usize;
    let copy = CopyInstruction::create(&data, &mut at).unwrap();
    assert_eq!(copy.offset(), 0x01 + (0x02 << 16));
    assert_eq!(copy.len(), 0x03 + (0x04 << 8));
    assert_eq!(at, 6);
}

#[test]
fn copy_cut_short_is_truncated() {
    let data = [0b1001_0001u8, 7];
    let mut at = 0usize;
    let failed = CopyInstruction::create(&data, &mut at);
    assert_eq!(failed.err(), Some(GitError::TruncatedPackOrIndex));
    assert_eq!(at, 0);
}

#[test]
fn copy_beyond_what_can_be_addressed_is_refused() {
    assert_eq!(CopyInstruction::new(usize::MAX, 1).err(), Some(GitError::MalformedObject));
    assert!(CopyInstruction::new(usize::MAX - 1, 1).is_ok());
}

#[test]
fn add_reads_its_bytes() {
    let data = [3u8, b'a', b'b', b'c', 9];
    let mut at = 0usize;
    let add = AddInstruction::create(&data, &mut at).unwrap();
    assert_eq!(add.bytes, b"abc".to_vec());
    assert_eq!(at, 4);
    let mut late = 4usize;
    assert_eq!(
        AddInstruction::create(&data, &mut late).err(),
        Some(GitError::TruncatedPackOrIndex)
    );
    assert_eq!(late, 4);
}

#[test]
fn varint_low_bits_first() {
    assert_eq!(read_varint(&[0x05], 0), Ok((5, 1)));
    assert_eq!(read_varint(&[0x00, 0x85, 0x01], 1), Ok((0x85 - 0x80 + 128, 3)));
    assert_eq!(read_varint(&[0xff, 0xff, 0x03], 0), Ok((0x7f + (0x7f << 7) + (3 << 14), 3)));
    assert_eq!(read_varint(&[0x80], 0), Err(GitError::TruncatedPackOrIndex));
    assert_eq!(read_varint(&[], 0), Err(GitError::TruncatedPackOrIndex));
    let huge = [0xffu8, 0xff, 0xff, 0xff, 0xff, 0xff, 0xff, 0xff, 0xff, 0xff, 0x7f];
    assert_eq!(read_varint(&huge, 0), Err(GitError::MalformedObject));
}

#[test]
fn delta_from_bytes_and_apply() {
    // base length 11, target length 9: copy 5 from 6, add "!", copy 3 from 0
    let delta = [11u8, 9, 0b1001_0001, 6, 5, 1, b'!', 0b1001_0000, 3];
    let diff = PackDiff::from_delta_bytes(&delta, 42).unwrap();
    assert_eq!(diff.target_len, 9);
    assert_eq!(diff.negative_offset, 42);
    assert_eq!(diff.instructions.len(), 3);
    assert_eq!(diff.instructions[0].len(), 5);
    assert_eq!(diff.apply(b"hello world").unwrap(), b"world!hel".to_vec());
    assert_eq!(diff.apply(b"hello").err(), Some(GitError::MalformedObject));
    let instructions = build_delta_instructions(&delta, 2).unwrap();
    assert_eq!(instructions.len(), 3);
    assert_eq!(
        build_delta_instructions(&delta[..8], 2).err(),
        Some(GitError::TruncatedPackOrIndex)
    );
}

#[test]
fn apply_checks_target_length() {
    let diff = PackDiff {
        negative_offset: 0,
        target_len: 4,
        instructions: vec![DiffInstruction::Add(AddInstruction { bytes: b"abc".to_vec() })],
    };
    assert_eq!(diff.apply(b"").err(), Some(GitError::MalformedObject));
    let longer = PackDiff {
        negative_offset: 0,
        target_len: 2,
        instructions: vec![DiffInstruction::Add(AddInstruction { bytes: b"abc".to_vec() })],
    };
    assert_eq!(longer.apply(b"").err(), Some(GitError::MalformedObject));
}
