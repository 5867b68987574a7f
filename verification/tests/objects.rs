use gitrw::calculate_hash;
use gitrw::error::GitError;
use gitrw::object_hash::{CommitHash, ObjectHash, TreeHash};
use gitrw::objs::commit::time_index;
use gitrw::objs::{CommitBase, CommitEditable, Tag, TagTargetType, Tree, TreeLine};
use gitrw::WriteObject;

const BYTES: &[u8] = b"tree 31aa860596f003d69b896943677e9fe5ff208233\nparent 5eec99927bb6058c8180e5dac871c89c7d01b0ab\nauthor Tim Heinrich <2929650+TimHeinrich@users.noreply.github.com> 1688207675 +0200\ncommitter Tim Heinrich <2929650+TimHeinrich@users.noreply.github.com> 1688209149 +0200\n\nChanging of commit data\n";

fn commit_hash() -> CommitHash {
    CommitHash::try_from_bstr(b"53dd2e51161a4eebd8baacd17383c9af35a8283e").unwrap()
}

#[test]
fn object_identifier_is_sha1_of_preamble_and_payload() {
    assert_eq!(calculate_hash(BYTES, b"commit"), commit_hash().0);
    assert_eq!(
        calculate_hash(b"", b"tree").to_string(),
        "4b825dc642cb6eb9a060e54bf8d69288fbee4904"
    );
    assert_eq!(
        calculate_hash(b"", b"blob").to_string(),
        "e69de29bb2d1d6434b8b29ae775ad8c2e48c5391"
    );
}

#[test]
fn commit_fields_are_read() {
    let commit = CommitBase::create(commit_hash(), BYTES.to_vec(), false).unwrap();
    assert_eq!(commit.hash(), &commit_hash());
    assert_eq!(commit.tree().to_string(), "31aa860596f003d69b896943677e9fe5ff208233");
    let parents = commit.parents();
    assert_eq!(parents.len(), 1);
    assert_eq!(commit.parent_count(), 1);
    assert_eq!(parents[0].to_string(), "5eec99927bb6058c8180e5dac871c89c7d01b0ab");
    assert_eq!(
        commit.author(),
        &b"Tim Heinrich <2929650+TimHeinrich@users.noreply.github.com>"[..]
    );
    assert_eq!(
        commit.committer(),
        &b"Tim Heinrich <2929650+TimHeinrich@users.noreply.github.com>"[..]
    );
    assert_eq!(commit.payload_bytes(), BYTES);
}

#[test]
fn miri_commit() {
    let object_hash: CommitHash =
        CommitHash::try_from_bstr(b"53dd2e51161a4eebd8baacd17383c9af35a8283e").unwrap();

    let mut commit =
        CommitEditable::create(CommitBase::create(object_hash, BYTES.into(), false).unwrap());

    let author = commit.author_bytes().to_owned();
    commit.set_author(b"Test user".to_vec());

    let (sender, receiver) = std::sync::mpsc::channel();
    sender.send(commit).unwrap();
    drop(sender);

    for mut commit in receiver {
        assert_eq!(b"Test user", commit.author_bytes());
        commit.set_author(author.clone());
        let b = commit.to_bytes();
        assert_eq!(BYTES.to_vec(), b.payload().to_vec());
    }
}

#[test]
fn commit_author_set_and_restored() {
    let mut commit =
        CommitEditable::create(CommitBase::create(commit_hash(), BYTES.to_vec(), false).unwrap());
    assert!(!commit.has_changes());
    let author = commit.author_bytes().to_vec();
    commit.set_author(b"Test user".to_vec());
    assert!(commit.has_changes());
    assert_eq!(commit.author_bytes(), b"Test user");
    commit.set_author(author);
    let written = commit.to_bytes();
    assert_eq!(written.payload(), BYTES);
}

#[test]
fn commit_without_changes_writes_its_payload() {
    let mut with_preamble = format!("commit {}\0", BYTES.len()).into_bytes();
    with_preamble.extend_from_slice(BYTES);
    let commit = CommitBase::create(commit_hash(), with_preamble, true).unwrap();
    assert_eq!(commit.payload_bytes(), BYTES);
    let editable = CommitEditable::create(commit);
    assert_eq!(editable.base_hash(), &commit_hash());
    let object = WriteObject::from_commit(editable);
    assert_eq!(object.bytes(), BYTES);
    assert_eq!(object.prefix(), b"commit");
    assert_eq!(object.hash(), &commit_hash().0);
}

#[test]
fn commit_edits_are_written_in_canonical_order() {
    let text = b"tree 1111111111111111111111111111111111111111\nparent 2222222222222222222222222222222222222222\nparent 3333333333333333333333333333333333333333\nauthor A B <a@x> 10 +0100\ncommitter C <c@x> 20 -0200\ngpgsig x\n\nmessage\n";
    let mut commit = CommitEditable::create(
        CommitBase::create(CommitHash(ObjectHash::new([0; 20])), text.to_vec(), false).unwrap(),
    );
    assert_eq!(commit.parents().len(), 2);
    commit.set_tree(TreeHash(ObjectHash::new([0xaa; 20])));
    commit.set_parent(1, CommitHash(ObjectHash::new([0xbb; 20])));
    commit.set_committer(b"New <n@x>".to_vec());
    assert_eq!(commit.tree().0.bytes, [0xaa; 20]);
    assert_eq!(commit.parents()[0].to_string(), "2222222222222222222222222222222222222222");
    assert_eq!(commit.parents()[1].0.bytes, [0xbb; 20]);
    assert_eq!(commit.committer_bytes(), b"New <n@x>");
    assert_eq!(commit.author_bytes(), b"A B <a@x>");
    let expected = b"tree aaaaaaaaaaaaaaaaaaaaaaaaaaaaaaaaaaaaaaaa\nparent 2222222222222222222222222222222222222222\nparent bbbbbbbbbbbbbbbbbbbbbbbbbbbbbbbbbbbbbbbb\nauthor A B <a@x> 10 +0100\ncommitter New <n@x> 20 -0200\ngpgsig x\n\nmessage\n";
    let object = WriteObject::from_commit(commit);
    assert_eq!(object.bytes(), &expected[..]);
    assert_eq!(object.hash(), &calculate_hash(expected, b"commit"));
    let again =
        CommitBase::create(CommitHash(*object.hash()), object.bytes().to_vec(), false).unwrap();
    assert_eq!(again.committer(), b"New <n@x>");
    assert_eq!(again.parents()[1].0.bytes, [0xbb; 20]);
}

#[test]
fn malformed_commits_are_refused() {
    let hash = CommitHash(ObjectHash::new([0; 20]));
    let cases: Vec<&[u8]> = vec![
        b"",
        b"parent 2222222222222222222222222222222222222222\n",
        b"tree 111111111111111111111111111111111111111\nauthor A <a> 1 +0\ncommitter A <a> 1 +0\n",
        b"tree 1111111111111111111111111111111111111111\nparent 22\nauthor A <a> 1 +0\ncommitter A <a> 1 +0\n",
        b"tree 1111111111111111111111111111111111111111\ncommitter A <a> 1 +0\n",
        b"tree 1111111111111111111111111111111111111111\nauthor A 1\ncommitter A <a> 1 +0\n",
        b"tree 1111111111111111111111111111111111111111\nauthor A <a> 1 +0\ncommitter A <a> 1 +0",
        b"tree 1111111111111111111111111111111111111111\nauthor A <a> 1 +0\n",
    ];
    for case in cases {
        assert_eq!(
            CommitBase::create(hash, case.to_vec(), false).err(),
            Some(GitError::MalformedObject)
        );
    }
    assert_eq!(
        CommitBase::create(hash, BYTES.to_vec(), true).err(),
        Some(GitError::MalformedObject)
    );
}

#[test]
fn time_starts_at_the_last_but_one_space() {
    assert_eq!(time_index(b"A B <a@x> 10 +0100"), 9);
    assert_eq!(time_index(b"A 1"), 3);
    assert_eq!(time_index(b"nospace"), 7);
    assert_eq!(time_index(b"  "), 0);
    assert_eq!(time_index(b""), 0);
}

const TAG: &[u8] = b"object 53dd2e51161a4eebd8baacd17383c9af35a8283e\ntype commit\ntag v1\ntagger T <t@x> 1 +0000\n\nmsg\n";

#[test]
fn tag_fields_are_read_and_written() {
    let tag = Tag::create(None, TAG.to_vec(), false).unwrap();
    assert_eq!(tag.hash().to_string(), "b5db3409c9f6b3400e75bb17ac825bbc3537ece2");
    assert_eq!(tag.object(), commit_hash().0);
    assert_eq!(tag.name(), b"v1");
    assert!(tag.target_type() == TagTargetType::Commit);
    assert_eq!(tag.bytes(), TAG);
    assert_eq!(tag.to_bytes(), TAG.to_vec());
    let object = WriteObject::from_tag(tag);
    assert_eq!(object.prefix(), b"tag");
    assert_eq!(object.bytes(), TAG);
}

#[test]
fn tag_can_point_elsewhere() {
    let given = ObjectHash::new([5; 20]);
    let mut loose = b"tag 9\0".to_vec();
    loose.extend_from_slice(TAG);
    let mut tag = Tag::create(Some(given), loose, true).unwrap();
    assert_eq!(tag.hash(), &given);
    assert_eq!(tag.bytes(), TAG);
    tag.set_object(ObjectHash::new([0xcd; 20]));
    assert_eq!(tag.object().bytes, [0xcd; 20]);
    let expected = b"object cdcdcdcdcdcdcdcdcdcdcdcdcdcdcdcdcdcdcdcd\ntype commit\ntag v1\ntagger T <t@x> 1 +0000\n\nmsg\n";
    assert_eq!(tag.to_bytes(), expected.to_vec());
}

#[test]
fn tag_identifier_follows_its_fields() {
    let mut tag = Tag::create(None, TAG.to_vec(), false).unwrap();
    assert_eq!(tag.current_hash(), *tag.hash());
    tag.set_object(ObjectHash::new([0xcd; 20]));
    let expected = b"object cdcdcdcdcdcdcdcdcdcdcdcdcdcdcdcdcdcdcdcd\ntype commit\ntag v1\ntagger T <t@x> 1 +0000\n\nmsg\n";
    assert_eq!(tag.current_hash(), calculate_hash(expected, b"tag"));
}

#[test]
fn tag_kinds_and_malformed_tags() {
    let tree_tag = b"object 53dd2e51161a4eebd8baacd17383c9af35a8283e\ntype tree\ntag t\n";
    assert!(Tag::create(None, tree_tag.to_vec(), false).unwrap().target_type() == TagTargetType::Tree);
    let tag_tag = b"object 53dd2e51161a4eebd8baacd17383c9af35a8283e\ntype tag\ntag t\nrest";
    let tag = Tag::create(None, tag_tag.to_vec(), false).unwrap();
    assert!(tag.target_type() == TagTargetType::Tag);
    assert_eq!(tag.to_bytes(), tag_tag.to_vec());
    let cases: Vec<&[u8]> = vec![
        b"",
        b"object 53dd2e51161a4eebd8baacd17383c9af35a8283\ntype commit\ntag v1\n",
        b"object 53dd2e51161a4eebd8baacd17383c9af35a8283e\ntype blob\ntag v1\n",
        b"object 53dd2e51161a4eebd8baacd17383c9af35a8283e\ntype commit\n",
        b"object 53dd2e51161a4eebd8baacd17383c9af35a8283e\ntype commit\ntag v1",
        b"object 53dd2e51161a4eebd8baacd17383c9af35a8283e\ntag v1\ntype commit\n",
    ];
    for case in cases {
        assert_eq!(Tag::create(None, case.to_vec(), false).err(), Some(GitError::MalformedObject));
    }
}

fn two_entries() -> Vec<u8> {
    let mut payload = b"100644 a.txt\0".to_vec();
    payload.extend_from_slice(&[0x11; 20]);
    payload.extend_from_slice(b"40000 dir\0");
    payload.extend_from_slice(&[0x22; 20]);
    payload
}

#[test]
fn tree_entries_are_read() {
    let hash = TreeHash(ObjectHash::new([1; 20]));
    let tree = Tree::create(hash, two_entries(), false).unwrap();
    assert_eq!(tree.hash(), &hash);
    {
        let lines = tree.lines();
        assert_eq!(lines.len(), 2);
        assert_eq!(lines[0].text, b"100644 a.txt");
        assert_eq!(lines[0].hash.0.bytes, [0x11; 20]);
        assert!(!lines[0].is_tree());
        assert_eq!(lines[0].filename(), b"a.txt");
        assert_eq!(lines[1].text, b"40000 dir");
        assert!(lines[1].is_tree());
        assert_eq!(lines[1].filename(), b"dir");
    }
    assert_eq!(tree.bytes().payload(), &two_entries()[..]);
}

#[test]
fn tree_is_built_from_entries() {
    let lines = vec![
        TreeLine { hash: TreeHash(ObjectHash::new([0x11; 20])), text: b"100644 a.txt" },
        TreeLine { hash: TreeHash(ObjectHash::new([0x22; 20])), text: b"40000 dir" },
    ];
    let tree = Tree::from_iter(&lines).unwrap();
    assert_eq!(tree.hash().to_string(), "eb7abb9581ee6b62d68dc020426c06817d0c2dfb");
    assert_eq!(tree.lines().len(), 2);
    let object = WriteObject::from_tree(tree);
    assert_eq!(object.prefix(), b"tree");
    assert_eq!(object.bytes(), &two_entries()[..]);
    let empty = Tree::from_iter(&Vec::new()).unwrap();
    assert_eq!(empty.hash().to_string(), "4b825dc642cb6eb9a060e54bf8d69288fbee4904");
    assert!(empty.lines().is_empty());
}

#[test]
fn malformed_trees_are_refused() {
    let hash = TreeHash(ObjectHash::new([1; 20]));
    let mut cut = two_entries();
    cut.pop();
    assert_eq!(Tree::create(hash, cut, false).err(), Some(GitError::MalformedObject));
    let mut trailing = two_entries();
    trailing.extend_from_slice(b"junk");
    assert_eq!(Tree::create(hash, trailing, false).err(), Some(GitError::MalformedObject));
    let mut nameless = b"100644\0".to_vec();
    nameless.extend_from_slice(&[0x11; 20]);
    assert_eq!(Tree::create(hash, nameless, false).err(), Some(GitError::MalformedObject));
    assert_eq!(Tree::create(hash, b"no zero byte".to_vec(), true).err(), Some(GitError::MalformedObject));
    let bad = vec![TreeLine { hash, text: b"nospace" }];
    assert_eq!(Tree::from_iter(&bad).err(), Some(GitError::MalformedObject));
    let zero = vec![TreeLine { hash, text: b"100644 a\0b" }];
    assert_eq!(Tree::from_iter(&zero).err(), Some(GitError::MalformedObject));
    let mut loose = b"tree 45\0".to_vec();
    loose.extend_from_slice(&two_entries());
    assert_eq!(Tree::create(hash, loose, true).unwrap().lines().len(), 2);
}
