use gitrw::calculate_hash;
use gitrw::error::GitError;
use gitrw::object_hash::{CommitHash, ObjectHash, TreeHash};
use gitrw::objs::{CommitBase, GitObject, Tag, Tree};
use gitrw::refs::{dedup_by_name, get_loose_ref, get_packed_refs, remap, GitRef, SimpleRef};
use rustc_hash::FxHashMap;

const A: &str = "1111111111111111111111111111111111111111";
const B: &str = "2222222222222222222222222222222222222222";
const C: &str = "3333333333333333333333333333333333333333";

fn simple(name: &str, hash: &str) -> GitRef {
    GitRef::Simple(SimpleRef { name: name.as_bytes().to_vec(), hash: hash.as_bytes().to_vec() })
}

fn shape(r: &GitRef) -> (String, String, Option<String>) {
    let text = |bytes: &Vec<u8>| String::from_utf8(bytes.clone()).unwrap();
    match r {
        GitRef::Simple(simple) => (text(&simple.name), text(&simple.hash), None),
        GitRef::Tag(tag) => (text(&tag.name), text(&tag.hash), Some(text(&tag.obj_hash))),
    }
}

#[test]
fn read_packed_refs() {
    // what the packed-refs file of a `.git` directory holds
    let packed = format!("# pack-refs with: peeled fully-peeled sorted \n{A} refs/heads/main\n");
    let test = GitRef::read_all(Vec::new(), Some(packed.as_bytes())).expect("Cannot read file");
    assert_eq!(test.len(), 1);
}

#[test]
fn packed_refs_with_comment_and_peeled_tag() {
    let content = format!(
        "# pack-refs with: peeled fully-peeled sorted \n{A} refs/heads/main\n{B} refs/tags/v1\n^{C}\n{C} refs/tags/v2\r\n"
    );
    let refs = get_packed_refs(content.as_bytes()).unwrap();
    assert_eq!(refs.len(), 3);
    assert_eq!(shape(&refs[0]), ("refs/heads/main".into(), A.into(), None));
    assert_eq!(shape(&refs[1]), ("refs/tags/v1".into(), B.into(), Some(C.into())));
    assert_eq!(shape(&refs[2]), ("refs/tags/v2".into(), C.into(), None));
    assert_eq!(refs[1].get_name(), b"refs/tags/v1");
    assert_eq!(refs[1].get_target(), B.as_bytes());
}

#[test]
fn packed_refs_edge_cases() {
    assert!(get_packed_refs(b"").unwrap().is_empty());
    assert!(get_packed_refs(b"# only a comment").unwrap().is_empty());
    let last_unterminated = format!("{A} refs/heads/a\n{B} refs/heads/b");
    assert_eq!(get_packed_refs(last_unterminated.as_bytes()).unwrap().len(), 2);
    let comment_between = format!("{A} refs/heads/a\n# note\n{B} refs/heads/b\n");
    let refs = get_packed_refs(comment_between.as_bytes()).unwrap();
    assert_eq!(shape(&refs[0]).0, "refs/heads/a");
    assert_eq!(shape(&refs[1]).0, "refs/heads/b");
}

#[test]
fn malformed_packed_refs_are_refused() {
    let cases = vec![
        format!("^{C}\n"),
        format!("{A} refs/heads/a\n^{C}\n^{B}\n"),
        format!("{A} refs/heads/a\n^123\n"),
        format!("{}\n", &A[..39]),
        format!("{A}\n"),
        format!("{A} \n"),
        format!("{A}_refs/heads/a\n"),
        format!("{A} refs/heads/a\n\n"),
        format!("# comment\n^{C}\n"),
    ];
    for case in cases {
        assert_eq!(get_packed_refs(case.as_bytes()).err(), Some(GitError::MalformedRef), "{case:?}");
    }
}

#[test]
fn loose_ref_content_is_trimmed() {
    let read = get_loose_ref(b"refs/heads/main".to_vec(), format!("{A}\n").as_bytes()).unwrap();
    assert_eq!(shape(&read.unwrap()), ("refs/heads/main".into(), A.into(), None));
    let read = get_loose_ref(b"refs/x".to_vec(), format!("{B} \t\r\n\n").as_bytes()).unwrap();
    assert_eq!(shape(&read.unwrap()).1, B);
    assert!(get_loose_ref(b"HEAD".to_vec(), b"ref: refs/heads/main\n").unwrap().is_none());
    for bad in [&b""[..], b"123", b"ref:refs/heads/main", b" \n", A[..39].as_bytes()] {
        assert_eq!(get_loose_ref(b"x".to_vec(), bad).err(), Some(GitError::MalformedRef));
    }
}

#[test]
fn loose_refs_come_before_packed_ones_of_the_same_name() {
    let loose = vec![simple("refs/heads/main", A), simple("refs/heads/dev", B)];
    let packed = format!("{C} refs/heads/main\n{C} refs/tags/v1\n{B} refs/heads/dev\n");
    let all = GitRef::read_all(loose, Some(packed.as_bytes())).unwrap();
    let shapes: Vec<_> = all.iter().map(shape).collect();
    assert_eq!(
        shapes,
        vec![
            ("refs/heads/main".to_string(), A.to_string(), None),
            ("refs/heads/dev".to_string(), B.to_string(), None),
            ("refs/tags/v1".to_string(), C.to_string(), None),
        ]
    );
}

#[test]
fn without_packed_refs_the_loose_ones_are_all() {
    let loose = vec![simple("refs/heads/main", A), simple("refs/heads/main", B)];
    let all = GitRef::read_all(loose, None).unwrap();
    assert_eq!(all.len(), 2);
    assert!(GitRef::read_all(Vec::new(), None).unwrap().is_empty());
    let failed = GitRef::read_all(vec![simple("a", A)], Some(b"junk\n"));
    assert_eq!(failed.err(), Some(GitError::MalformedRef));
}

#[test]
fn first_reference_of_each_name_is_kept() {
    let refs = vec![simple("a", A), simple("b", B), simple("a", C), simple("c", C), simple("b", A)];
    let kept: Vec<_> = dedup_by_name(refs).iter().map(shape).collect();
    assert_eq!(
        kept,
        vec![
            ("a".to_string(), A.to_string(), None),
            ("b".to_string(), B.to_string(), None),
            ("c".to_string(), C.to_string(), None),
        ]
    );
}

const COMMIT: &[u8] = b"tree 1111111111111111111111111111111111111111\nauthor A <a@x> 1 +0000\ncommitter A <a@x> 1 +0000\n\nfirst\n";

#[test]
fn reference_to_a_commit_follows_the_rewrite() {
    let old = calculate_hash(COMMIT, b"commit");
    let new = ObjectHash::new([0x9a; 20]);
    let mut rewritten = FxHashMap::default();
    assert_eq!(remap(&rewritten, &old), old);
    let commit = || GitObject::Commit(CommitBase::create(CommitHash(old), COMMIT.to_vec(), false).unwrap());
    let same = GitRef::rewrite_ref(commit(), &old.to_hex(), &rewritten).unwrap();
    assert_eq!(same.target, old);
    assert_eq!(same.ref_target, old.to_hex());
    assert!(same.new_tag.is_none());
    rewritten.insert(old, new);
    assert_eq!(remap(&rewritten, &old), new);
    let moved = GitRef::rewrite_ref(commit(), &old.to_hex(), &rewritten).unwrap();
    assert_eq!(moved.target, new);
    assert_eq!(moved.ref_target, new.to_hex());
    assert!(moved.new_tag.is_none());
}

#[test]
fn reference_to_a_tree_stays() {
    let hash = TreeHash(ObjectHash::new([0x42; 20]));
    let tree = GitObject::Tree(Tree::create(hash, Vec::new(), false).unwrap());
    let update = GitRef::rewrite_ref(tree, &hash.to_hex(), &FxHashMap::default()).unwrap();
    assert_eq!(update.target, hash.0);
    assert_eq!(update.ref_target, hash.to_hex());
    assert!(update.new_tag.is_none());
}

#[test]
fn annotated_tag_is_rewritten_to_the_new_commit() {
    let old = calculate_hash(COMMIT, b"commit");
    let new = ObjectHash::new([0x9a; 20]);
    let mut rewritten = FxHashMap::default();
    rewritten.insert(old, new);
    let payload = format!("object {}\ntype commit\ntag v1\ntagger T <t@x> 1 +0000\n\nmsg\n", old.to_string());
    let tag = Tag::create(None, payload.into_bytes(), false).unwrap();
    let update = GitRef::rewrite_ref(GitObject::Tag(tag), &[], &rewritten).unwrap();
    let expected = format!("object {}\ntype commit\ntag v1\ntagger T <t@x> 1 +0000\n\nmsg\n", new.to_string());
    assert_eq!(update.new_tag, Some(expected.clone().into_bytes()));
    assert_eq!(update.target, calculate_hash(expected.as_bytes(), b"tag"));
    assert_eq!(update.ref_target, update.target.to_hex());
}

#[test]
fn annotated_tag_of_a_tree_stays_and_of_a_tag_fails() {
    let payload = format!("object {A}\ntype tree\ntag t\n");
    let tag = Tag::create(None, payload.clone().into_bytes(), false).unwrap();
    let hash = *tag.hash();
    let update = GitRef::rewrite_ref(GitObject::Tag(tag), &[], &FxHashMap::default()).unwrap();
    assert_eq!(update.target, hash);
    assert_eq!(update.ref_target, hash.to_hex());
    assert!(update.new_tag.is_none());
    let chained = format!("object {A}\ntype tag\ntag t\n");
    let tag = Tag::create(None, chained.into_bytes(), false).unwrap();
    let failed = GitRef::rewrite_ref(GitObject::Tag(tag), &[], &FxHashMap::default());
    assert_eq!(failed.err(), Some(GitError::UnsupportedTagChain));
}
