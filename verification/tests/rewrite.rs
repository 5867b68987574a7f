use gitrw::calculate_hash;
use gitrw::contributors::{
    add_contributor, get_contributors, get_mappings, mapping_entry, read_mapping_line, rewrite,
    split_index,
};
use gitrw::error::GitError;
use gitrw::object_hash::{CommitHash, ObjectHash, TreeHash};
use gitrw::objs::{CommitBase, CommitEditable, GitObject, Tree, TreeLine};
use gitrw::prune::{find_empty_commits, get_parent_if_empty_commit, Pruning};
use gitrw::refs::GitRef;
use gitrw::remove::{
    build_file_delete_patterns, build_folder_delete_patterns, build_regex_pattern, remove,
    update_commit, update_parents, RemovalRules, TreeVisit, VisitStep,
};
use gitrw::repository::write_rewritten_commits_file;
use rustc_hash::FxHashMap;

fn payload(tree: &ObjectHash, parents: &[ObjectHash], author: &str, message: &str) -> Vec<u8> {
    let mut text = format!("tree {}\n", tree.to_string());
    for parent in parents {
        text.push_str(&format!("parent {}\n", parent.to_string()));
    }
    text.push_str(&format!("author {author} 1 +0000\ncommitter {author} 2 +0000\n\n"));
    text.push_str(message);
    text.into_bytes()
}

fn commit(tree: &ObjectHash, parents: &[ObjectHash], author: &str, message: &str) -> CommitBase {
    let bytes = payload(tree, parents, author, message);
    CommitBase::create(CommitHash(calculate_hash(&bytes, b"commit")), bytes, false).unwrap()
}

#[test]
fn mapping_lines_are_split_at_the_first_equals_sign() {
    assert_eq!(split_index(b"old = new"), Some(4));
    assert_eq!(split_index(b"=x=y"), Some(0));
    assert_eq!(split_index(b"no sign"), None);
    assert_eq!(
        read_mapping_line(b" alice <a@x>  =\talice <a@y> \n"),
        Ok(Some((b"alice <a@x>".to_vec(), b"alice <a@y>".to_vec())))
    );
    assert_eq!(
        read_mapping_line("a\u{2003}= b = c".as_bytes()),
        Ok(Some((b"a".to_vec(), b"b = c".to_vec())))
    );
    assert_eq!(read_mapping_line(b"same = same"), Ok(None));
    assert_eq!(read_mapping_line(b"="), Ok(None));
    assert_eq!(read_mapping_line(b"no sign"), Err(GitError::MalformedMapping));
    assert_eq!(read_mapping_line(b""), Err(GitError::MalformedMapping));
    assert_eq!(mapping_entry(b"a".to_vec(), b"a".to_vec()), None);
    assert_eq!(mapping_entry(b"a".to_vec(), b"b".to_vec()), Some((b"a".to_vec(), b"b".to_vec())));
}

#[test]
fn mappings_hold_the_last_line_for_a_name() {
    let lines = vec![b"a = b".to_vec(), b"c = c".to_vec(), b"a = d".to_vec(), b"x=y".to_vec()];
    let mappings = get_mappings(&lines).unwrap();
    assert_eq!(mappings.len(), 2);
    assert_eq!(mappings.get(&b"a"[..]), Some(&b"d".to_vec()));
    assert_eq!(mappings.get(&b"x"[..]), Some(&b"y".to_vec()));
    assert_eq!(mappings.get(&b"c"[..]), None);
    let broken = vec![b"a = b".to_vec(), b"oops".to_vec(), b"c = d".to_vec()];
    assert_eq!(get_mappings(&broken).err(), Some(GitError::MalformedMapping));
    assert!(get_mappings(&Vec::new()).unwrap().is_empty());
}

#[test]
fn contributors_are_rewritten_along_the_chain() {
    let tree = ObjectHash::new([0x11; 20]);
    let a = commit(&tree, &[], "alice <a@x>", "a");
    let a_hash = a.hash().0;
    let b = commit(&tree, &[a_hash], "alice <a@x>", "b");
    let b_hash = b.hash().0;
    let c = commit(&tree, &[b_hash], "alice <a@x>", "c");
    let c_hash = c.hash().0;
    let head = commit(&tree, &[b_hash], "alice <a@x>", "c");
    let mappings = get_mappings(&vec![b"alice <a@x> = alice <a@y>".to_vec()]).unwrap();
    let mut rewritten = FxHashMap::default();

    let new_a = rewrite(a, &mappings, &mut rewritten).unwrap();
    let expected_a = payload(&tree, &[], "alice <a@y>", "a");
    assert_eq!(new_a.bytes(), &expected_a[..]);
    assert_eq!(new_a.hash(), &calculate_hash(&expected_a, b"commit"));
    assert_eq!(rewritten.get(&a_hash), Some(new_a.hash()));

    let new_b = rewrite(b, &mappings, &mut rewritten).unwrap();
    let expected_b = payload(&tree, &[*new_a.hash()], "alice <a@y>", "b");
    assert_eq!(new_b.bytes(), &expected_b[..]);

    let new_c = rewrite(c, &mappings, &mut rewritten).unwrap();
    let expected_c = payload(&tree, &[*new_b.hash()], "alice <a@y>", "c");
    assert_eq!(new_c.bytes(), &expected_c[..]);
    assert_eq!(new_c.prefix(), b"commit");

    assert_eq!(rewritten.len(), 3);
    assert_ne!(new_a.hash(), &a_hash);
    assert_ne!(new_b.hash(), &b_hash);
    assert_ne!(new_c.hash(), &c_hash);
    let written = CommitBase::create(CommitHash(*new_c.hash()), new_c.bytes().to_vec(), false).unwrap();
    assert_eq!(written.tree().0, tree);
    assert_eq!(written.author(), b"alice <a@y>");
    assert_eq!(written.committer(), b"alice <a@y>");

    let update =
        GitRef::rewrite_ref(GitObject::Commit(head), &c_hash.to_hex(), &rewritten).unwrap();
    assert_eq!(update.target, *new_c.hash());
    let mut lines: Vec<Vec<u8>> = rewritten
        .iter()
        .map(|(old, new)| write_rewritten_commits_file(&CommitHash(*old), &CommitHash(*new)))
        .collect();
    lines.sort();
    assert_eq!(lines.len(), 3);
    let expected_line = format!("{} {}\n", a_hash.to_string(), new_a.hash().to_string());
    assert!(lines.contains(&expected_line.into_bytes()));
}

#[test]
fn untouched_commits_are_left_alone() {
    let tree = ObjectHash::new([0x11; 20]);
    let a = commit(&tree, &[], "bob <b@x>", "a");
    let mappings = get_mappings(&vec![b"alice <a@x> = alice <a@y>".to_vec()]).unwrap();
    let mut rewritten = FxHashMap::default();
    assert!(rewrite(a, &mappings, &mut rewritten).is_none());
    assert!(rewritten.is_empty());
}

#[test]
fn rewriting_twice_with_a_closed_mapping_changes_nothing_more() {
    let tree = ObjectHash::new([0x11; 20]);
    let mappings = get_mappings(&vec![b"alice <a@x> = alice <a@y>".to_vec()]).unwrap();
    let once = rewrite(commit(&tree, &[], "alice <a@x>", "a"), &mappings, &mut FxHashMap::default())
        .unwrap();
    let again = CommitBase::create(CommitHash(*once.hash()), once.bytes().to_vec(), false).unwrap();
    assert!(rewrite(again, &mappings, &mut FxHashMap::default()).is_none());
    let swap = get_mappings(&vec![b"a <a> = b <b>".to_vec(), b"b <b> = a <a>".to_vec()]).unwrap();
    let first = commit(&tree, &[], "a <a>", "m");
    let first_payload = first.payload_bytes().to_vec();
    let there = rewrite(first, &swap, &mut FxHashMap::default()).unwrap();
    assert_ne!(there.bytes(), &first_payload[..]);
    let middle = CommitBase::create(CommitHash(*there.hash()), there.bytes().to_vec(), false).unwrap();
    let back = rewrite(middle, &swap, &mut FxHashMap::default()).unwrap();
    assert_eq!(back.bytes(), &first_payload[..]);
}

#[test]
fn contributors_are_listed_once_in_order() {
    let tree = ObjectHash::new([0x11; 20]);
    let commits = vec![
        commit(&tree, &[], "zed <z@x>", "1"),
        commit(&tree, &[], "alice <a@x>", "2"),
        commit(&tree, &[], "zed <z@x>", "3"),
        commit(&tree, &[], "Bob <b@x>", "4"),
        commit(&tree, &[], "alice", "5"),
    ];
    let names = get_contributors(&commits);
    assert_eq!(
        names,
        vec![b"Bob <b@x>".to_vec(), b"alice".to_vec(), b"alice <a@x>".to_vec(), b"zed <z@x>".to_vec()]
    );
    let mut list = vec![b"b".to_vec(), b"d".to_vec()];
    add_contributor(&mut list, b"c");
    add_contributor(&mut list, b"a");
    add_contributor(&mut list, b"d");
    add_contributor(&mut list, b"e");
    add_contributor(&mut list, b"");
    add_contributor(&mut list, b"bb");
    assert_eq!(
        list,
        vec![b"".to_vec(), b"a".to_vec(), b"b".to_vec(), b"bb".to_vec(), b"c".to_vec(), b"d".to_vec(), b"e".to_vec()]
    );
}

#[test]
fn empty_commit_in_a_chain_is_pruned() {
    let tree_a = ObjectHash::new([0x11; 20]);
    let tree_c = ObjectHash::new([0x22; 20]);
    let a = commit(&tree_a, &[], "a <a>", "a");
    let a_hash = a.hash().0;
    let b = commit(&tree_a, &[a_hash], "a <a>", "b");
    let b_hash = b.hash().0;
    let c = commit(&tree_c, &[b_hash], "a <a>", "c");
    let c_hash = c.hash().0;
    let mut rewritten = FxHashMap::default();
    let mut trees = FxHashMap::default();

    assert!(matches!(find_empty_commits(a, &mut rewritten, &mut trees), Pruning::Kept));
    assert_eq!(trees.get(&a_hash), Some(&tree_a));
    assert!(rewritten.is_empty());

    match find_empty_commits(b, &mut rewritten, &mut trees) {
        Pruning::Dropped(parent) => assert_eq!(parent.0, a_hash),
        other => panic!("expected the commit to be dropped, got {:?}", other),
    }
    assert_eq!(rewritten.get(&b_hash), Some(&a_hash));

    let written = match find_empty_commits(c, &mut rewritten, &mut trees) {
        Pruning::Rewritten(written) => written,
        other => panic!("expected a new commit, got {:?}", other),
    };
    let expected = payload(&tree_c, &[a_hash], "a <a>", "c");
    assert_eq!(written.bytes(), &expected[..]);
    assert_eq!(rewritten.get(&c_hash), Some(written.hash()));
    assert_eq!(rewritten.len(), 2);
    assert_eq!(trees.get(written.hash()), Some(&tree_c));
    let head = commit(&tree_c, &[b_hash], "a <a>", "c");
    let update = GitRef::rewrite_ref(GitObject::Commit(head), &c_hash.to_hex(), &rewritten).unwrap();
    assert_eq!(update.target, *written.hash());
}

#[test]
fn merge_commit_is_never_pruned() {
    let tree_a = ObjectHash::new([0x11; 20]);
    let tree_b = ObjectHash::new([0x22; 20]);
    let tree_c = ObjectHash::new([0x33; 20]);
    let a = commit(&tree_a, &[], "a <a>", "a");
    let a_hash = a.hash().0;
    let b = commit(&tree_b, &[a_hash], "a <a>", "b");
    let b_hash = b.hash().0;
    let c = commit(&tree_c, &[a_hash], "a <a>", "c");
    let c_hash = c.hash().0;
    let m = commit(&tree_b, &[b_hash, c_hash], "a <a>", "m");
    let m_hash = m.hash().0;
    let mut rewritten = FxHashMap::default();
    let mut trees = FxHashMap::default();
    for commit in [a, b, c] {
        assert!(matches!(find_empty_commits(commit, &mut rewritten, &mut trees), Pruning::Kept));
    }
    let merge = CommitEditable::create(commit(&tree_b, &[b_hash, c_hash], "a <a>", "m"));
    assert_eq!(get_parent_if_empty_commit(&merge, &rewritten, &trees), None);
    assert!(matches!(find_empty_commits(m, &mut rewritten, &mut trees), Pruning::Kept));
    assert!(rewritten.is_empty());
    assert_eq!(trees.get(&m_hash), Some(&tree_b));
    let only_child = CommitEditable::create(commit(&tree_b, &[b_hash], "a <a>", "x"));
    assert_eq!(get_parent_if_empty_commit(&only_child, &rewritten, &trees), Some(CommitHash(b_hash)));
    let other_tree = CommitEditable::create(commit(&tree_c, &[b_hash], "a <a>", "x"));
    assert_eq!(get_parent_if_empty_commit(&other_tree, &rewritten, &trees), None);
    let unknown = CommitEditable::create(commit(&tree_c, &[ObjectHash::new([9; 20])], "a <a>", "x"));
    assert_eq!(get_parent_if_empty_commit(&unknown, &rewritten, &trees), None);
}

fn rules(files: &[&str], folders: &[&str], regexes: &[&str]) -> RemovalRules {
    let bytes = |texts: &[&str]| texts.iter().map(|text| text.as_bytes().to_vec()).collect();
    RemovalRules {
        files: build_file_delete_patterns(&bytes(files)).unwrap(),
        folders: build_folder_delete_patterns(&bytes(folders)).unwrap(),
        regexes: build_regex_pattern(&regexes.iter().map(|text| text.to_string()).collect()).unwrap(),
    }
}

fn tree(entries: &[(&str, ObjectHash)]) -> Tree {
    let lines: Vec<TreeLine> = entries
        .iter()
        .map(|(text, hash)| TreeLine { hash: TreeHash(*hash), text: text.as_bytes() })
        .collect();
    Tree::from_iter(&lines).unwrap()
}

fn texts(tree: &Tree) -> Vec<(String, ObjectHash)> {
    tree.lines()
        .iter()
        .map(|line| (String::from_utf8(line.text.to_vec()).unwrap(), line.hash.0))
        .collect()
}

#[test]
fn file_is_removed_from_every_tree_that_holds_it() {
    let app = ObjectHash::new([0xa1; 20]);
    let key = ObjectHash::new([0xa2; 20]);
    let src = tree(&[("100644 app.rs", app), ("100644 secret.key", key)]);
    let src_hash = src.hash().0;
    let root = tree(&[("100644 README", app), ("40000 src", src_hash)]);
    let root_hash = root.hash().0;
    let rules = rules(&["secret.key"], &[], &[]);
    let mut memo = FxHashMap::default();

    let mut visit = TreeVisit::start(root, b"/".to_vec());
    match visit.update_tree(&rules, &mut memo) {
        VisitStep::Descend { hash, path } => {
            assert_eq!(hash.0, src_hash);
            assert_eq!(path, b"/src/".to_vec());
        }
        other => panic!("expected to descend, got {:?}", other),
    }
    assert!(memo.is_empty());
    assert!(matches!(visit.update_tree(&rules, &mut memo), VisitStep::Descend { .. }));

    let mut inner = TreeVisit::start(src, b"/src/".to_vec());
    let new_src = match inner.update_tree(&rules, &mut memo) {
        VisitStep::Rebuilt(tree) => tree,
        other => panic!("expected a new tree, got {:?}", other),
    };
    assert_eq!(texts(&new_src), vec![("100644 app.rs".to_string(), app)]);
    assert_eq!(memo.get(&src_hash), Some(&Some(new_src.hash().0)));

    let new_root = match visit.update_tree(&rules, &mut memo) {
        VisitStep::Rebuilt(tree) => tree,
        other => panic!("expected a new tree, got {:?}", other),
    };
    assert_eq!(
        texts(&new_root),
        vec![("100644 README".to_string(), app), ("40000 src".to_string(), new_src.hash().0)]
    );
    assert_eq!(memo.get(&root_hash), Some(&Some(new_root.hash().0)));
    let new_root_id = new_root.hash().0;
    assert_eq!(new_root_id, calculate_hash(new_root.bytes().payload(), b"tree"));

    let old = commit(&root_hash, &[], "a <a>", "m");
    let old_hash = old.hash().0;
    let mut rewritten = FxHashMap::default();
    let written = remove(old, &mut rewritten, &memo).unwrap();
    let new_root_hash = *memo.get(&root_hash).unwrap().as_ref().unwrap();
    let expected = payload(&new_root_hash, &[], "a <a>", "m");
    assert_eq!(written.bytes(), &expected[..]);
    assert_eq!(rewritten.get(&old_hash), Some(written.hash()));
    let child = commit(&ObjectHash::new([0x55; 20]), &[old_hash], "a <a>", "n");
    let child_written = remove(child, &mut rewritten, &memo).unwrap();
    let expected_child = payload(&ObjectHash::new([0x55; 20]), &[*written.hash()], "a <a>", "n");
    assert_eq!(child_written.bytes(), &expected_child[..]);
}

#[test]
fn untouched_tree_keeps_its_identifier() {
    let blob = ObjectHash::new([0xa1; 20]);
    let sub = tree(&[("100644 inner.txt", blob)]);
    let sub_hash = sub.hash().0;
    let root = tree(&[("100755 run.sh", blob), ("40000 sub", sub_hash)]);
    let root_hash = root.hash().0;
    let rules = rules(&["secret.key"], &["target"], &["^/nothing$"]);
    let mut memo = FxHashMap::default();
    let mut inner = TreeVisit::start(sub, b"/sub/".to_vec());
    assert!(matches!(inner.update_tree(&rules, &mut memo), VisitStep::Unchanged));
    assert_eq!(memo.get(&sub_hash), Some(&None));
    let mut visit = TreeVisit::start(root, b"/".to_vec());
    assert!(matches!(visit.update_tree(&rules, &mut memo), VisitStep::Unchanged));
    assert_eq!(memo.get(&root_hash), Some(&None));
    let unchanged = commit(&root_hash, &[], "a <a>", "m");
    let mut rewritten = FxHashMap::default();
    assert!(remove(unchanged, &mut rewritten, &memo).is_none());
    assert!(rewritten.is_empty());
}

#[test]
fn directory_named_target_is_dropped_at_any_depth() {
    let blob = ObjectHash::new([0xa1; 20]);
    let target = ObjectHash::new([0xb1; 20]);
    let only = tree(&[("40000 target", target)]);
    let only_hash = only.hash().0;
    let root = tree(&[("40000 crate", only_hash), ("100644 main.rs", blob), ("40000 target", target)]);
    let rules = rules(&[], &["*/target"], &[]);
    let mut memo = FxHashMap::default();
    let mut visit = TreeVisit::start(root, b"/".to_vec());
    match visit.update_tree(&rules, &mut memo) {
        VisitStep::Descend { hash, path } => {
            assert_eq!(hash.0, only_hash);
            assert_eq!(path, b"/crate/".to_vec());
        }
        other => panic!("expected to descend, got {:?}", other),
    }
    let mut inner = TreeVisit::start(only, b"/crate/".to_vec());
    let emptied = match inner.update_tree(&rules, &mut memo) {
        VisitStep::Rebuilt(tree) => tree,
        other => panic!("expected a new tree, got {:?}", other),
    };
    assert!(emptied.lines().is_empty());
    assert_eq!(emptied.hash().to_string(), "4b825dc642cb6eb9a060e54bf8d69288fbee4904");
    let new_root = match visit.update_tree(&rules, &mut memo) {
        VisitStep::Rebuilt(tree) => tree,
        other => panic!("expected a new tree, got {:?}", other),
    };
    assert_eq!(
        texts(&new_root),
        vec![("40000 crate".to_string(), emptied.hash().0), ("100644 main.rs".to_string(), blob)]
    );
}

#[test]
fn regular_expression_removes_by_whole_path() {
    let blob = ObjectHash::new([0xa1; 20]);
    let src = tree(&[("100644 a.key", blob), ("100644 a.rs", blob), ("120000 link.key", blob)]);
    let rules = rules(&[], &[], &[r"^/src/.*\.key$"]);
    let mut memo = FxHashMap::default();
    let mut visit = TreeVisit::start(src, b"/src/".to_vec());
    match visit.update_tree(&rules, &mut memo) {
        VisitStep::Rebuilt(tree) => assert_eq!(texts(&tree), vec![("100644 a.rs".to_string(), blob)]),
        other => panic!("expected a new tree, got {:?}", other),
    }
    let elsewhere = tree(&[("100644 a.key", blob)]);
    let mut visit = TreeVisit::start(elsewhere, b"/lib/".to_vec());
    assert!(matches!(visit.update_tree(&rules, &mut memo), VisitStep::Unchanged));
}

#[test]
fn parents_and_tree_of_a_commit_are_updated() {
    let tree_hash = ObjectHash::new([0x11; 20]);
    let new_tree = ObjectHash::new([0x12; 20]);
    let left = ObjectHash::new([0x21; 20]);
    let right = ObjectHash::new([0x22; 20]);
    let moved = ObjectHash::new([0x31; 20]);
    let mut rewritten = FxHashMap::default();
    rewritten.insert(left, left);
    rewritten.insert(right, moved);
    let mut editable = CommitEditable::create(commit(&tree_hash, &[left, right], "a <a>", "m"));
    update_parents(&mut editable, &rewritten);
    assert!(editable.has_changes());
    assert_eq!(editable.parents(), vec![CommitHash(left), CommitHash(moved)]);
    let mut same = CommitEditable::create(commit(&tree_hash, &[left], "a <a>", "m"));
    update_parents(&mut same, &rewritten);
    assert!(!same.has_changes());

    let mut trees = FxHashMap::default();
    trees.insert(tree_hash, Some(new_tree));
    let old = commit(&tree_hash, &[left, right], "a <a>", "m");
    let old_hash = *old.hash();
    let (before, after, written) = update_commit(CommitEditable::create(old), &rewritten, &trees);
    let expected = payload(&new_tree, &[left, moved], "a <a>", "m");
    assert_eq!(before, old_hash);
    assert_eq!(after.0, calculate_hash(&expected, b"commit"));
    assert_eq!(written.unwrap().bytes(), &expected[..]);
    trees.insert(tree_hash, None);
    let untouched = commit(&tree_hash, &[left], "a <a>", "m");
    let (before, after, written) = update_commit(CommitEditable::create(untouched), &rewritten, &trees);
    assert_eq!(before, after);
    assert!(written.is_none());
}
