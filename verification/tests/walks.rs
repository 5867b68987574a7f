use gitrw::calculate_hash;
use gitrw::commits::{
    read_commit_from_ref, read_object_from_hash, CommitsFifoIter, CommitsLifoIter, Peel, WalkAction,
};
use gitrw::error::GitError;
use gitrw::object_hash::{CommitHash, ObjectHash, TreeHash};
use gitrw::objs::{CommitBase, GitObject, Tag, Tree};
use std::collections::HashMap;

fn payload(parents: &[ObjectHash], message: &str) -> Vec<u8> {
    let mut text = String::from("tree 1111111111111111111111111111111111111111\n");
    for parent in parents {
        text.push_str(&format!("parent {}\n", parent.to_string()));
    }
    text.push_str("author A <a@x> 1 +0000\ncommitter A <a@x> 1 +0000\n\n");
    text.push_str(message);
    text.into_bytes()
}

struct History {
    payloads: HashMap<ObjectHash, Vec<u8>>,
}

impl History {
    fn new() -> Self {
        History { payloads: HashMap::new() }
    }

    fn add(&mut self, parents: &[ObjectHash], message: &str) -> ObjectHash {
        let bytes = payload(parents, message);
        let hash = calculate_hash(&bytes, b"commit");
        self.payloads.insert(hash, bytes);
        hash
    }

    fn get(&self, hash: &ObjectHash) -> Option<CommitBase> {
        self.payloads
            .get(hash)
            .map(|bytes| CommitBase::create(CommitHash(*hash), bytes.clone(), false).unwrap())
    }

    fn parents(&self, hash: &ObjectHash) -> Vec<ObjectHash> {
        self.get(hash).unwrap().parents().iter().map(|parent| parent.0).collect()
    }
}

fn topo_order(history: &History, roots: &[ObjectHash]) -> Vec<ObjectHash> {
    let mut walk = CommitsFifoIter::create(roots.iter().map(|r| history.get(r).unwrap()).collect());
    let mut order = Vec::new();
    loop {
        match walk.next() {
            WalkAction::Emit(commit) => order.push(commit.hash().0),
            WalkAction::Fetch(wanted) => {
                let found = wanted.iter().map(|hash| history.get(&hash.0).unwrap()).collect();
                walk.supply(found).unwrap();
            }
            WalkAction::Done => return order,
        }
    }
}

fn lifo_order(history: &History, roots: &[ObjectHash]) -> Vec<ObjectHash> {
    let mut walk = CommitsLifoIter::create(roots.iter().map(|r| history.get(r).unwrap()).collect());
    let mut order = Vec::new();
    loop {
        match walk.next() {
            WalkAction::Emit(commit) => order.push(commit.hash().0),
            WalkAction::Fetch(wanted) => {
                let found = wanted.iter().map(|hash| history.get(&hash.0)).collect();
                walk.supply(found).unwrap();
            }
            WalkAction::Done => return order,
        }
    }
}

fn diamond() -> (History, [ObjectHash; 4]) {
    let mut history = History::new();
    let a = history.add(&[], "a");
    let b = history.add(&[a], "b");
    let c = history.add(&[a], "c");
    let m = history.add(&[b, c], "m");
    (history, [a, b, c, m])
}

#[test]
fn parents_come_before_children() {
    let (history, [a, b, c, m]) = diamond();
    let order = topo_order(&history, &[m]);
    assert_eq!(order, vec![a, c, b, m]);
    let two_roots = topo_order(&history, &[b, m, c]);
    assert_eq!(two_roots.len(), 4);
    for (place, commit) in two_roots.iter().enumerate() {
        for parent in history.parents(commit) {
            let before = two_roots.iter().position(|other| *other == parent).unwrap();
            assert!(before < place);
        }
    }
}

#[test]
fn commit_without_parents_is_handed_out_on_first_pop() {
    let mut history = History::new();
    let a = history.add(&[], "a");
    let mut walk = CommitsFifoIter::create(vec![history.get(&a).unwrap()]);
    match walk.next() {
        WalkAction::Emit(commit) => assert_eq!(commit.hash().0, a),
        other => panic!("expected the commit, got {:?}", other),
    }
    assert!(matches!(walk.next(), WalkAction::Done));
    assert!(matches!(walk.next(), WalkAction::Done));
}

#[test]
fn topological_walk_asks_for_parents_until_supplied() {
    let (history, [a, b, _c, _m]) = diamond();
    let mut walk = CommitsFifoIter::create(vec![history.get(&b).unwrap()]);
    let wanted = match walk.next() {
        WalkAction::Fetch(wanted) => wanted,
        other => panic!("expected a request, got {:?}", other),
    };
    assert_eq!(wanted, vec![CommitHash(a)]);
    assert!(matches!(walk.next(), WalkAction::Fetch(again) if again == wanted));
    assert_eq!(walk.supply(Vec::new()), Err(GitError::MissingBase));
    assert_eq!(walk.supply(vec![history.get(&b).unwrap()]), Err(GitError::MissingBase));
    assert_eq!(walk.supply(vec![history.get(&a).unwrap()]), Ok(()));
    assert_eq!(walk.supply(vec![history.get(&a).unwrap()]), Err(GitError::MissingBase));
    assert!(matches!(walk.next(), WalkAction::Emit(commit) if commit.hash().0 == a));
    assert!(matches!(walk.next(), WalkAction::Emit(commit) if commit.hash().0 == b));
    assert!(matches!(walk.next(), WalkAction::Done));
}

#[test]
fn every_commit_is_handed_out_once() {
    let (history, [a, b, c, m]) = diamond();
    let order = lifo_order(&history, &[m]);
    assert_eq!(order, vec![m, c, a, b]);
    let roots = lifo_order(&history, &[a, m, b, m]);
    let mut sorted = roots.clone();
    sorted.sort_by_key(|hash| hash.bytes);
    sorted.dedup();
    assert_eq!(sorted.len(), 4);
    assert_eq!(roots.len(), 4);
    assert_eq!(roots[0], m);
}

#[test]
fn lifo_walk_skips_commits_that_are_not_to_be_had() {
    let mut history = History::new();
    let gone = ObjectHash::new([0x77; 20]);
    let a = history.add(&[gone], "a");
    let b = history.add(&[a, gone], "b");
    assert_eq!(lifo_order(&history, &[b]), vec![b, a]);
    let mut walk = CommitsLifoIter::create(vec![history.get(&b).unwrap()]);
    assert!(matches!(walk.next(), WalkAction::Emit(_)));
    assert_eq!(walk.supply(vec![None]), Err(GitError::MissingBase));
    assert_eq!(walk.supply(vec![history.get(&b), None]), Err(GitError::MissingBase));
    assert_eq!(walk.supply(vec![history.get(&a), None]), Ok(()));
    assert_eq!(walk.supply(vec![]), Err(GitError::MissingBase));
}

#[test]
fn references_are_peeled_to_commits() {
    let (history, [a, ..]) = diamond();
    let commit = history.get(&a).unwrap();
    assert!(matches!(read_commit_from_ref(GitObject::Commit(commit)), Peel::Commit(found) if found.hash().0 == a));
    let tree = Tree::create(TreeHash(ObjectHash::new([1; 20])), Vec::new(), false).unwrap();
    assert!(matches!(read_commit_from_ref(GitObject::Tree(tree)), Peel::Nothing));
    let tag = |kind: &str| {
        let text = format!("object {}\ntype {}\ntag t\n", a.to_string(), kind);
        GitObject::Tag(Tag::create(None, text.into_bytes(), false).unwrap())
    };
    assert!(matches!(read_commit_from_ref(tag("commit")), Peel::Follow(hash) if hash == a));
    assert!(matches!(read_commit_from_ref(tag("tag")), Peel::Follow(hash) if hash == a));
    assert!(matches!(read_commit_from_ref(tag("tree")), Peel::Nothing));
}

#[test]
fn loose_objects_are_read_by_their_kind() {
    let hash = ObjectHash::new([3; 20]);
    let body = payload(&[], "x");
    let mut loose = format!("commit {}\0", body.len()).into_bytes();
    loose.extend_from_slice(&body);
    match read_object_from_hash(hash, loose).unwrap() {
        GitObject::Commit(commit) => {
            assert_eq!(commit.hash().0, hash);
            assert_eq!(commit.payload_bytes(), &body[..]);
        }
        other => panic!("expected a commit, got {:?}", other),
    }
    assert!(matches!(read_object_from_hash(hash, b"tree 0\0".to_vec()), Ok(GitObject::Tree(_))));
    let tag = b"tag 66\0object 1111111111111111111111111111111111111111\ntype commit\ntag v\n".to_vec();
    assert!(matches!(read_object_from_hash(hash, tag), Ok(GitObject::Tag(_))));
    assert_eq!(
        read_object_from_hash(hash, b"blob 3\0abc".to_vec()).err(),
        Some(GitError::UnknownObjectType)
    );
    assert_eq!(read_object_from_hash(hash, b"".to_vec()).err(), Some(GitError::UnknownObjectType));
    assert_eq!(
        read_object_from_hash(hash, b"commit 3\0abc".to_vec()).err(),
        Some(GitError::MalformedObject)
    );
}
