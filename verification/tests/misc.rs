use gitrw::bytes::{find_byte, has_prefix, has_suffix, last_index_of, same_bytes, split_lines};
use gitrw::calculate_hash;
use gitrw::error::GitError;
use gitrw::object_hash::{CommitHash, ObjectHash};
use gitrw::objs::{CommitBase, CommitEditable};
use gitrw::ordering::ReorderBuffer;
use gitrw::repository::{loose_path, should_write, write_rewritten_commits_file};
use gitrw::shared::{RefSlice, SliceIndexes};
use gitrw::WriteObject;
use std::io::Read;

#[test]
fn regions_cover_their_part_of_a_buffer() {
    let data = b"hello world";
    let region = SliceIndexes::new(6, 5);
    assert_eq!(region.get(&data[..]), b"world");
    let from_line = SliceIndexes::from_slice(0, 5, 2);
    assert_eq!((from_line.position, from_line.len), (2, 3));
    assert_eq!(from_line.get(&data[..]), b"llo");
    let referenced: RefSlice<u8> = RefSlice::new(0, 5);
    assert_eq!(referenced.get(&data[..]), b"hello");
    let owned = RefSlice::from(b"own".to_vec());
    assert_eq!(owned.get(&data[..]), b"own");
    let tail: RefSlice<u8> = RefSlice::from_slice(6, 5, 1);
    assert_eq!(tail.get(&data[..]), b"orld");
}

#[test]
fn bytes_are_searched() {
    assert_eq!(find_byte(b"a\nb\n", 0, b'\n'), 1);
    assert_eq!(find_byte(b"a\nb\n", 2, b'\n'), 3);
    assert_eq!(find_byte(b"a\nb\n", 4, b'\n'), 4);
    assert_eq!(find_byte(b"abc", 0, b'x'), 3);
    assert_eq!(last_index_of(b"/a/b", b'/'), Some(2));
    assert_eq!(last_index_of(b"abc", b'/'), None);
    assert!(has_prefix(b"commit 12", b"commit "));
    assert!(!has_prefix(b"comm", b"commit "));
    assert!(has_suffix(b"/a/target/", b"target/"));
    assert!(!has_suffix(b"x", b"xx"));
    assert!(same_bytes(b"", b""));
    assert!(!same_bytes(b"a", b"b"));
}

#[test]
fn lines_end_at_line_feeds() {
    assert_eq!(
        split_lines(b"a = b\r\nc = d\n\nlast"),
        vec![b"a = b".to_vec(), b"c = d".to_vec(), b"".to_vec(), b"last".to_vec()]
    );
    assert_eq!(split_lines(b"one\n"), vec![b"one".to_vec()]);
    assert_eq!(split_lines(b"\r\n\rx\r"), vec![b"".to_vec(), b"\rx\r".to_vec()]);
    assert!(split_lines(b"").is_empty());
}

#[test]
fn items_are_handed_on_in_order() {
    let mut buffer: ReorderBuffer<&str> = ReorderBuffer::new();
    assert!(buffer.offer(2, "c").is_empty());
    assert!(buffer.offer(1, "b").is_empty());
    assert!(buffer.offer(4, "e").is_empty());
    assert_eq!(buffer.offer(0, "a"), vec!["a", "b", "c"]);
    assert!(buffer.offer(1, "late").is_empty());
    assert!(buffer.offer(4, "twice").is_empty());
    assert!(buffer.offer(usize::MAX, "never").is_empty());
    assert_eq!(buffer.offer(3, "d"), vec!["d", "e"]);
    assert_eq!(buffer.offer(5, "f"), vec!["f"]);
}

const COMMIT: &[u8] = b"tree 1111111111111111111111111111111111111111\nauthor A <a@x> 1 +0000\ncommitter A <a@x> 1 +0000\n\nfirst\n";

#[test]
fn loose_file_lies_where_the_identifier_says() {
    let hash = calculate_hash(COMMIT, b"commit");
    let (directory, name) = loose_path(&hash);
    let text = hash.to_string();
    assert_eq!(directory, text.as_bytes()[..2].to_vec());
    assert_eq!(name, text.as_bytes()[2..].to_vec());
    let commit = CommitBase::create(CommitHash(hash), COMMIT.to_vec(), false).unwrap();
    let object = WriteObject::from_commit(CommitEditable::create(commit));
    let file = gitrw::repository::write(&object);
    assert_eq!(file.directory, directory);
    assert_eq!(file.name, name);
    let mut content = Vec::new();
    flate2::read::ZlibDecoder::new(&file.content[..]).read_to_end(&mut content).unwrap();
    let mut expected = format!("commit {}\0", COMMIT.len()).into_bytes();
    expected.extend_from_slice(COMMIT);
    assert_eq!(content, expected);
}

#[test]
fn objects_are_written_once_and_not_in_a_dry_run() {
    assert!(should_write(false, false));
    assert!(!should_write(false, true));
    assert!(!should_write(true, false));
    assert!(!should_write(true, true));
}

#[test]
fn rewritten_commits_are_listed_old_then_new() {
    let old = CommitHash(ObjectHash::new([0x0a; 20]));
    let new = CommitHash(ObjectHash::new([0xb0; 20]));
    assert_eq!(
        write_rewritten_commits_file(&old, &new),
        b"0a0a0a0a0a0a0a0a0a0a0a0a0a0a0a0a0a0a0a0a b0b0b0b0b0b0b0b0b0b0b0b0b0b0b0b0b0b0b0b0\n".to_vec()
    );
}

#[test]
fn failures_have_messages() {
    let all = [
        GitError::InvalidIndexHeader,
        GitError::TruncatedPackOrIndex,
        GitError::UnknownObjectType,
        GitError::MissingBase,
        GitError::MalformedObject,
        GitError::MalformedMapping,
        GitError::UnsupportedTagChain,
        GitError::MalformedRef,
        GitError::UnsupportedHashAlgorithm,
        GitError::Io,
        GitError::InvalidPattern,
    ];
    for (i, error) in all.iter().enumerate() {
        assert!(!error.message().is_empty());
        for other in &all[i + 1..] {
            assert_ne!(error.message(), other.message());
        }
    }
    assert_eq!(GitError::InvalidIndexHeader.message(), "IDX file has invalid header.");
    assert_eq!(GitError::MalformedMapping.message(), "Line is malformed. Pattern: old = new");
    assert_eq!(GitError::Io.message(), "File system operation failed.");
}
