use gitrw::calculate_hash;
use gitrw::contributors::{get_mappings, rewrite};
use gitrw::object_hash::{CommitHash, ObjectHash, TreeHash};
use gitrw::objs::{CommitBase, Tree, TreeLine};
use gitrw::ordering::ReorderBuffer;
use gitrw::remove::{
    build_file_delete_patterns, build_folder_delete_patterns, build_regex_pattern, remove,
    RemovalRules, TreeVisit, VisitStep,
};
use rustc_hash::FxHashMap;

type Entries = Vec<(&'static str, ObjectHash)>;

fn removal(files: &[&str], folders: &[&str]) -> RemovalRules {
    let bytes = |texts: &[&str]| texts.iter().map(|text| text.as_bytes().to_vec()).collect();
    RemovalRules {
        files: build_file_delete_patterns(&bytes(files)).unwrap(),
        folders: build_folder_delete_patterns(&bytes(folders)).unwrap(),
        regexes: build_regex_pattern(&Vec::new()).unwrap(),
    }
}

fn tree_of(entries: &Entries) -> Tree {
    let lines: Vec<TreeLine> = entries
        .iter()
        .map(|(text, hash)| TreeLine { hash: TreeHash(*hash), text: text.as_bytes() })
        .collect();
    Tree::from_iter(&lines).unwrap()
}

fn lines_of(tree: &Tree) -> Vec<(String, ObjectHash)> {
    tree.lines()
        .iter()
        .map(|line| (String::from_utf8(line.text.to_vec()).unwrap(), line.hash.0))
        .collect()
}

/// Rewrites the tree `hash` at `path` and every directory that it asks for.
fn rewrite_whole(
    store: &FxHashMap<ObjectHash, Entries>,
    hash: ObjectHash,
    path: Vec<u8>,
    rules: &RemovalRules,
    memo: &mut FxHashMap<ObjectHash, Option<ObjectHash>>,
    written: &mut FxHashMap<ObjectHash, Vec<(String, ObjectHash)>>,
) {
    if memo.contains_key(&hash) {
        return;
    }
    let mut visit = TreeVisit::start(tree_of(&store[&hash]), path);
    loop {
        match visit.update_tree(rules, memo) {
            VisitStep::Descend { hash: below, path } => {
                rewrite_whole(store, below.0, path, rules, memo, written);
                assert!(memo.contains_key(&below.0));
            }
            VisitStep::Unchanged => return,
            VisitStep::Rebuilt(tree) => {
                written.insert(tree.hash().0, lines_of(&tree));
                return;
            }
        }
    }
}

struct Trees {
    store: FxHashMap<ObjectHash, Entries>,
    root: ObjectHash,
    src: ObjectHash,
    deep: ObjectHash,
    docs: ObjectHash,
    blob: ObjectHash,
}

fn three_levels() -> Trees {
    let blob = ObjectHash::new([0xa1; 20]);
    let deep_entries: Entries = vec![("100644 keep.rs", blob), ("100644 secret.key", blob)];
    let deep = tree_of(&deep_entries).hash().0;
    let src_entries: Entries = vec![("40000 deep", deep), ("100644 lib.rs", blob)];
    let src = tree_of(&src_entries).hash().0;
    let docs_entries: Entries = vec![("100644 guide.md", blob)];
    let docs = tree_of(&docs_entries).hash().0;
    let root_entries: Entries = vec![("100644 README", blob), ("40000 docs", docs), ("40000 src", src)];
    let root = tree_of(&root_entries).hash().0;
    let mut store = FxHashMap::default();
    store.insert(deep, deep_entries);
    store.insert(src, src_entries);
    store.insert(docs, docs_entries);
    store.insert(root, root_entries);
    Trees { store, root, src, deep, docs, blob }
}

#[test]
fn removal_below_rewrites_every_tree_above_it() {
    let trees = three_levels();
    let rules = removal(&["secret.key"], &[]);
    let mut memo = FxHashMap::default();
    let mut written = FxHashMap::default();
    rewrite_whole(&trees.store, trees.root, b"/".to_vec(), &rules, &mut memo, &mut written);

    assert_eq!(memo.len(), 4);
    assert_eq!(memo[&trees.docs], None);
    let new_deep = memo[&trees.deep].unwrap();
    let new_src = memo[&trees.src].unwrap();
    let new_root = memo[&trees.root].unwrap();
    assert_eq!(written[&new_deep], vec![("100644 keep.rs".to_string(), trees.blob)]);
    assert_eq!(
        written[&new_src],
        vec![("40000 deep".to_string(), new_deep), ("100644 lib.rs".to_string(), trees.blob)]
    );
    assert_eq!(
        written[&new_root],
        vec![
            ("100644 README".to_string(), trees.blob),
            ("40000 docs".to_string(), trees.docs),
            ("40000 src".to_string(), new_src),
        ]
    );
    assert_eq!(written.len(), 3);
}

#[test]
fn nothing_matched_leaves_every_tree_as_it_is() {
    let trees = three_levels();
    let rules = removal(&["absent.txt"], &["*/target"]);
    let mut memo = FxHashMap::default();
    let mut written = FxHashMap::default();
    rewrite_whole(&trees.store, trees.root, b"/".to_vec(), &rules, &mut memo, &mut written);
    assert_eq!(memo.len(), 4);
    for hash in [trees.root, trees.src, trees.deep, trees.docs] {
        assert_eq!(memo[&hash], None);
    }
    assert!(written.is_empty());
}

#[test]
fn removed_directory_is_never_entered() {
    let trees = three_levels();
    let rules = removal(&[], &["/src/deep"]);
    let mut memo = FxHashMap::default();
    let mut written = FxHashMap::default();
    rewrite_whole(&trees.store, trees.root, b"/".to_vec(), &rules, &mut memo, &mut written);
    assert!(!memo.contains_key(&trees.deep));
    let new_src = memo[&trees.src].unwrap();
    assert_eq!(written[&new_src], vec![("100644 lib.rs".to_string(), trees.blob)]);
    assert_eq!(memo[&trees.docs], None);
    assert!(memo[&trees.root].is_some());
}

fn arrangements(items: Vec<usize>) -> Vec<Vec<usize>> {
    if items.len() <= 1 {
        return vec![items];
    }
    let mut all = Vec::new();
    for at in 0..items.len() {
        let mut rest = items.clone();
        let first = rest.remove(at);
        for mut tail in arrangements(rest) {
            tail.insert(0, first);
            all.push(tail);
        }
    }
    all
}

#[test]
fn every_arrival_order_hands_on_in_the_order_of_the_places() {
    let orders = arrangements(vec![0, 1, 2, 3, 4]);
    assert_eq!(orders.len(), 120);
    for order in orders {
        let mut buffer: ReorderBuffer<usize> = ReorderBuffer::new();
        let mut handed = Vec::new();
        for place in order {
            handed.extend(buffer.offer(place, place * 10));
        }
        assert_eq!(handed, vec![0, 10, 20, 30, 40]);
    }
}

fn chain_commit(parents: &[ObjectHash], author: &str, message: &str) -> CommitBase {
    let mut text = format!("tree {}\n", ObjectHash::new([0x11; 20]).to_string());
    for parent in parents {
        text.push_str(&format!("parent {}\n", parent.to_string()));
    }
    text.push_str(&format!("author {author} 1 +0000\ncommitter {author} 2 +0000\n\n"));
    text.push_str(message);
    let bytes = text.into_bytes();
    CommitBase::create(CommitHash(calculate_hash(&bytes, b"commit")), bytes, false).unwrap()
}

/// One run over commits that come parents first: the commits as they stand afterwards.
fn run_over(commits: Vec<CommitBase>, lines: &[&str]) -> (Vec<(ObjectHash, Vec<u8>)>, usize) {
    let mappings =
        get_mappings(&lines.iter().map(|line| line.as_bytes().to_vec()).collect()).unwrap();
    let mut rewritten = FxHashMap::default();
    let mut after = Vec::new();
    for commit in commits {
        let as_it_was = (commit.hash().0, commit.payload_bytes().to_vec());
        match rewrite(commit, &mappings, &mut rewritten) {
            Some(written) => after.push((*written.hash(), written.bytes().to_vec())),
            None => after.push(as_it_was),
        }
    }
    (after, rewritten.len())
}

fn read_back(commits: &[(ObjectHash, Vec<u8>)]) -> Vec<CommitBase> {
    commits
        .iter()
        .map(|(hash, bytes)| CommitBase::create(CommitHash(*hash), bytes.clone(), false).unwrap())
        .collect()
}

fn small_history() -> Vec<CommitBase> {
    let a = chain_commit(&[], "a <a>", "first");
    let b = chain_commit(&[a.hash().0], "c <c>", "second");
    let c = chain_commit(&[a.hash().0, b.hash().0], "b <b>", "merge");
    vec![a, b, c]
}

#[test]
fn two_runs_with_a_swapping_mapping_give_the_history_back() {
    let before: Vec<(ObjectHash, Vec<u8>)> = small_history()
        .iter()
        .map(|commit| (commit.hash().0, commit.payload_bytes().to_vec()))
        .collect();
    let swap = ["a <a> = b <b>", "b <b> = a <a>"];
    let (once, moved) = run_over(small_history(), &swap);
    assert_eq!(moved, 3);
    for place in 0..3 {
        assert_ne!(once[place].0, before[place].0);
    }
    let (twice, moved_back) = run_over(read_back(&once), &swap);
    assert_eq!(moved_back, 3);
    assert_eq!(twice, before);
}

#[test]
fn second_run_with_a_mapping_that_maps_once_changes_nothing() {
    let lines = ["a <a> = d <d>", "d <d> = d <d>"];
    let (once, moved) = run_over(small_history(), &lines);
    assert_eq!(moved, 3);
    let (twice, _) = run_over(read_back(&once), &lines);
    assert_eq!(twice, once);
    let closed = ["a <a> = e <e>"];
    let (first, _) = run_over(small_history(), &closed);
    let (second, moved_again) = run_over(read_back(&first), &closed);
    assert_eq!(moved_again, 0);
    assert_eq!(second, first);
}

fn commit_on(tree: &ObjectHash, parents: &[ObjectHash], message: &str) -> CommitBase {
    let mut text = format!("tree {}\n", tree.to_string());
    for parent in parents {
        text.push_str(&format!("parent {}\n", parent.to_string()));
    }
    text.push_str("author a <a> 1 +0000\ncommitter a <a> 2 +0000\n\n");
    text.push_str(message);
    let bytes = text.into_bytes();
    CommitBase::create(CommitHash(calculate_hash(&bytes, b"commit")), bytes, false).unwrap()
}

#[test]
fn parents_are_final_in_whatever_order_the_commits_arrive() {
    let trees = three_levels();
    let rules = removal(&["secret.key"], &[]);
    let mut memo = FxHashMap::default();
    let mut written = FxHashMap::default();
    rewrite_whole(&trees.store, trees.root, b"/".to_vec(), &rules, &mut memo, &mut written);
    let new_root = memo[&trees.root].unwrap();

    let history = || {
        let a = commit_on(&trees.root, &[], "first");
        let b = commit_on(&trees.docs, &[a.hash().0], "second");
        let c = commit_on(&trees.root, &[a.hash().0, b.hash().0], "merge");
        vec![a, b, c]
    };
    let ids: Vec<ObjectHash> = history().iter().map(|commit| commit.hash().0).collect();
    let mut outcomes = Vec::new();
    for order in arrangements(vec![0, 1, 2]) {
        let mut waiting: Vec<Option<CommitBase>> = history().into_iter().map(Some).collect();
        let mut buffer: ReorderBuffer<CommitBase> = ReorderBuffer::new();
        let mut rewritten = FxHashMap::default();
        let mut finished = Vec::new();
        for place in order {
            for ready in buffer.offer(place, waiting[place].take().unwrap()) {
                let object = remove(ready, &mut rewritten, &memo).unwrap();
                finished.push((*object.hash(), object.bytes().to_vec()));
            }
        }
        assert_eq!(finished.len(), 3);
        for place in 0..3 {
            assert_eq!(rewritten[&ids[place]], finished[place].0);
        }
        outcomes.push(finished);
    }
    assert_eq!(outcomes.len(), 6);
    for finished in &outcomes {
        assert_eq!(finished, &outcomes[0]);
    }
    let first = CommitBase::create(CommitHash(outcomes[0][0].0), outcomes[0][0].1.clone(), false).unwrap();
    assert_eq!(first.tree().0, new_root);
    let second = CommitBase::create(CommitHash(outcomes[0][1].0), outcomes[0][1].1.clone(), false).unwrap();
    assert_eq!(second.tree().0, trees.docs);
    assert_eq!(second.parents(), vec![CommitHash(outcomes[0][0].0)]);
    let merge = CommitBase::create(CommitHash(outcomes[0][2].0), outcomes[0][2].1.clone(), false).unwrap();
    assert_eq!(merge.parents(), vec![CommitHash(outcomes[0][0].0), CommitHash(outcomes[0][1].0)]);
}
