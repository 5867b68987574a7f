use crate::bytes::{
    copy_of, ends_with, has_prefix, has_suffix, last_index, last_index_of, lemma_last_index,
    same_bytes, starts_with,
};
use crate::contributors::Rewritable;
use crate::error::GitError;
use crate::hashing::{kind_commit, kind_tree, object_id, WriteObject};
use crate::object_hash::{hex_decoded, hex_lower, CommitHash, ObjectHash, TreeHash};
use crate::objs::commit::{serialized, CommitBase, CommitEditable, CommitView};
use crate::objs::tree::{
    entry_is_tree, entry_name, lines_view, tree_payload, valid_entries, valid_text, EntryView, Tree,
    TreeLine,
};
use crate::oid_map::{lemma_same_bytes_same_hash, oid_map_get, oid_map_insert};
use crate::packreader::oid_with;
use regex::bytes::RegexSet;
use rustc_hash::FxHashMap;
use vstd::prelude::*;
use vstd::slice::slice_subrange;

verus! {

/// `regex::bytes::RegexSet`, a set of compiled regular expressions.
#[verifier::external_type_specification]
#[verifier::external_body]
pub struct ExRegexSet(RegexSet);

/// `regex::Error`, the failure to compile a regular expression.
#[verifier::external_type_specification]
#[verifier::external_body]
pub struct ExRegexError(regex::Error);

/// The regular expressions that a set was made of.
pub uninterp spec fn regex_set_patterns(set: RegexSet) -> Seq<Seq<char>>;

/// Whether one of the regular expressions matches somewhere in the
/// haystack, as `regex::bytes::RegexSet::is_match` finds.
pub uninterp spec fn regex_set_matches(patterns: Seq<Seq<char>>, haystack: Seq<u8>) -> bool;

/// The strings as plain values.
pub open spec fn strings_view(strings: Seq<String>) -> Seq<Seq<char>> {
    Seq::new(strings.len(), |i: int| strings[i]@)
}

/// Whether `regex::bytes::RegexSet::new` makes a set of these regular
/// expressions: whether each of them compiles, within the limits that the
/// crate sets by default.
pub uninterp spec fn regex_set_compiles(patterns: Seq<Seq<char>>) -> bool;

/// `regex::bytes::RegexSet::new`: the set of these regular expressions. It
/// is made exactly where [`regex_set_compiles`] says so.
#[verifier::external_body]
fn regex_set_new(patterns: &Vec<String>) -> (made: Result<RegexSet, regex::Error>)
    ensures
        made is Ok == regex_set_compiles(strings_view(patterns@)),
        made is Ok ==> regex_set_patterns(made->Ok_0) == strings_view(patterns@),
{
    RegexSet::new(patterns)
}

/// `regex::bytes::RegexSet::is_match`: whether one of the regular
/// expressions of the set matches somewhere in the haystack.
#[verifier::external_body]
fn regex_set_is_match(set: &RegexSet, haystack: &[u8]) -> (found: bool)
    ensures
        found == regex_set_matches(regex_set_patterns(*set), haystack@),
{
    set.is_match(haystack)
}

/// A pattern for files is of a supported form: `*suffix`, `*mid/suffix`,
/// `prefix*`, `dir/prefix*`, `/abs/path/file`, or a plain name without a
/// slash.
pub open spec fn supported_file_pattern(pattern: Seq<u8>) -> bool {
    pattern.len() > 0 && (pattern[0] == 42 || pattern.last() == 42 || pattern[0] == 47 || last_index(
        pattern,
        47,
    ) < 0)
}

/// Whether the pattern matches the file `name` in the directory `path`,
/// `path` ending with a slash.
///
/// - `*suffix`: the name ends with the suffix.
/// - `*mid/suffix`: the path ends with what stands between the star and the
///   last slash, that slash included, and the name is what follows it.
/// - `prefix*`: the name starts with the prefix.
/// - `dir/prefix*`: the path is the pattern up to its last slash, and the
///   name starts with what stands between that slash and the star.
/// - `/abs/path/file`: the path is the pattern up to its last slash, and the
///   name is what follows it.
/// - `name`: the name is the pattern.
pub open spec fn file_pattern_matches(pattern: Seq<u8>, path: Seq<u8>, name: Seq<u8>) -> bool {
    let slash = last_index(pattern, 47);
    if pattern.len() == 0 {
        false
    } else if pattern[0] == 42 {
        if slash >= 0 {
            ends_with(path, pattern.subrange(1, slash + 1)) && name == pattern.skip(slash + 1)
        } else {
            ends_with(name, pattern.skip(1))
        }
    } else if pattern.last() == 42 {
        if slash >= 0 {
            path == pattern.take(slash + 1) && starts_with(
                name,
                pattern.subrange(slash + 1, pattern.len() - 1),
            )
        } else {
            starts_with(name, pattern.drop_last())
        }
    } else if pattern[0] == 47 {
        path == pattern.take(slash + 1) && name == pattern.skip(slash + 1)
    } else {
        slash < 0 && name == pattern
    }
}

/// Whether one of the patterns matches the file.
pub open spec fn file_match(patterns: Seq<Seq<u8>>, path: Seq<u8>, name: Seq<u8>) -> bool {
    exists|i: int| 0 <= i < patterns.len() && file_pattern_matches(#[trigger] patterns[i], path, name)
}

/// What a relative pattern for directories is matched as: the pattern
/// between slashes.
pub open spec fn between_slashes(pattern: Seq<u8>) -> Seq<u8> {
    if pattern.len() > 0 && pattern.last() == 47 {
        seq![47u8] + pattern
    } else {
        seq![47u8] + pattern + seq![47u8]
    }
}

/// Whether the pattern matches the directory `path`, `path` starting and
/// ending with a slash.
///
/// - `*suffix`: the path, with or without its last slash as the pattern has
///   one or not, ends with the suffix.
/// - `prefix*`: the path starts with the prefix.
/// - `/abs/path/` or `/abs/path`: the path is the pattern, the last slash
///   aside.
/// - `name`: the path ends with the pattern between slashes.
pub open spec fn dir_pattern_matches(pattern: Seq<u8>, path: Seq<u8>) -> bool {
    if pattern.len() == 0 {
        false
    } else if pattern[0] == 42 {
        if pattern.last() == 47 {
            ends_with(path, pattern.skip(1))
        } else {
            path.len() > 0 && ends_with(path.drop_last(), pattern.skip(1))
        }
    } else if pattern.last() == 42 {
        starts_with(path, pattern.drop_last())
    } else if pattern[0] == 47 {
        if pattern.last() == 47 {
            path == pattern
        } else {
            path.len() == pattern.len() + 1 && path.drop_last() == pattern
        }
    } else {
        ends_with(path, between_slashes(pattern))
    }
}

/// Whether one of the patterns matches the directory.
pub open spec fn dir_match(patterns: Seq<Seq<u8>>, path: Seq<u8>) -> bool {
    exists|i: int| 0 <= i < patterns.len() && dir_pattern_matches(#[trigger] patterns[i], path)
}

/// Whether one of the regular expressions matches the file's whole path.
pub open spec fn regex_match(patterns: Seq<Seq<char>>, path: Seq<u8>, name: Seq<u8>) -> bool {
    patterns.len() > 0 && regex_set_matches(patterns, path + name)
}

/// The patterns as plain values.
pub open spec fn patterns_view(patterns: Seq<Vec<u8>>) -> Seq<Seq<u8>> {
    Seq::new(patterns.len(), |i: int| patterns[i]@)
}

/// Whether the pattern matches the file `name` in the directory `path`.
fn file_pattern_hits(pattern: &[u8], path: &[u8], name: &[u8]) -> (hit: bool)
    ensures
        hit == file_pattern_matches(pattern@, path@, name@),
{
    let n = pattern.len();
    if n == 0 {
        return false;
    }
    proof {
        lemma_last_index(pattern@, 47);
    }
    let slash = last_index_of(pattern, 47);
    if pattern[0] == 42 {
        match slash {
            Some(s) => {
                let mid = slice_subrange(pattern, 1, s + 1);
                let rest = slice_subrange(pattern, s + 1, n);
                assert(rest@ == pattern@.skip(s + 1));
                has_suffix(path, mid) && same_bytes(name, rest)
            },
            None => {
                let rest = slice_subrange(pattern, 1, n);
                assert(rest@ == pattern@.skip(1));
                has_suffix(name, rest)
            },
        }
    } else if pattern[n - 1] == 42 {
        match slash {
            Some(s) => {
                let dir = slice_subrange(pattern, 0, s + 1);
                assert(dir@ == pattern@.take(s + 1));
                let prefix = slice_subrange(pattern, s + 1, n - 1);
                same_bytes(path, dir) && has_prefix(name, prefix)
            },
            None => {
                let prefix = slice_subrange(pattern, 0, n - 1);
                assert(prefix@ == pattern@.drop_last());
                has_prefix(name, prefix)
            },
        }
    } else if pattern[0] == 47 {
        match slash {
            Some(s) => {
                let dir = slice_subrange(pattern, 0, s + 1);
                assert(dir@ == pattern@.take(s + 1));
                let rest = slice_subrange(pattern, s + 1, n);
                assert(rest@ == pattern@.skip(s + 1));
                same_bytes(path, dir) && same_bytes(name, rest)
            },
            None => {
                assert(false);
                false
            },
        }
    } else {
        match slash {
            Some(_) => false,
            None => same_bytes(name, pattern),
        }
    }
}

/// Whether the pattern for files is of a supported form.
pub fn is_file_pattern(pattern: &[u8]) -> (supported: bool)
    ensures
        supported == supported_file_pattern(pattern@),
{
    let n = pattern.len();
    if n == 0 {
        return false;
    }
    if pattern[0] == 42 || pattern[n - 1] == 42 || pattern[0] == 47 {
        return true;
    }
    last_index_of(pattern, 47).is_none()
}

/// What decides whether a file is removed by its name.
#[derive(Debug)]
pub struct FileMatcher {
    patterns: Vec<Vec<u8>>,
}

impl View for FileMatcher {
    type V = Seq<Seq<u8>>;

    closed spec fn view(&self) -> Seq<Seq<u8>> {
        patterns_view(self.patterns@)
    }
}

impl FileMatcher {
    /// Whether the file `filename` in the directory `path` is to be
    /// removed.
    pub fn matches(&self, path: &[u8], filename: &[u8]) -> (hit: bool)
        ensures
            hit == file_match(self@, path@, filename@),
    {
        let mut i: usize = 0;
        while i < self.patterns.len()
            invariant
                i <= self.patterns@.len(),
                forall|j: int|
                    0 <= j < i ==> !file_pattern_matches(#[trigger] self@[j], path@, filename@),
            decreases self.patterns@.len() - i,
        {
            assert(self@[i as int] == self.patterns@[i as int]@);
            if file_pattern_hits(self.patterns[i].as_slice(), path, filename) {
                return true;
            }
            i += 1;
        }
        false
    }
}

/// The matcher of these patterns for files. Fails with `InvalidPattern`
/// where one of them is of no supported form.
pub fn build_file_delete_patterns(files: &Vec<Vec<u8>>) -> (built: Result<FileMatcher, GitError>)
    ensures
        (forall|i: int| 0 <= i < files@.len() ==> supported_file_pattern((#[trigger] files@[i])@))
            ==> built is Ok && built->Ok_0@ == patterns_view(files@),
        !(forall|i: int| 0 <= i < files@.len() ==> supported_file_pattern((#[trigger] files@[i])@))
            ==> built is Err && built->Err_0 == GitError::InvalidPattern,
{
    let mut patterns: Vec<Vec<u8>> = Vec::new();
    let mut i: usize = 0;
    while i < files.len()
        invariant
            i <= files@.len(),
            patterns_view(patterns@) == patterns_view(files@).take(i as int),
            forall|j: int| 0 <= j < i ==> supported_file_pattern((#[trigger] files@[j])@),
        decreases files@.len() - i,
    {
        if !is_file_pattern(files[i].as_slice()) {
            return Err(GitError::InvalidPattern);
        }
        let ghost before = patterns_view(patterns@);
        patterns.push(copy_of(files[i].as_slice()));
        assert(patterns_view(patterns@) =~= before.push(files@[i as int]@));
        assert(patterns_view(files@).take(i + 1) =~= patterns_view(files@).take(i as int).push(
            files@[i as int]@,
        ));
        i += 1;
    }
    assert(patterns_view(files@).take(files@.len() as int) =~= patterns_view(files@));
    Ok(FileMatcher { patterns })
}

/// Whether the pattern matches the directory `path`. `relative` is the
/// pattern between slashes.
fn dir_pattern_hits(pattern: &[u8], relative: &[u8], path: &[u8]) -> (hit: bool)
    requires
        relative@ == between_slashes(pattern@),
    ensures
        hit == dir_pattern_matches(pattern@, path@),
{
    let n = pattern.len();
    if n == 0 {
        return false;
    }
    if pattern[0] == 42 {
        let rest = slice_subrange(pattern, 1, n);
        assert(rest@ == pattern@.skip(1));
        if pattern[n - 1] == 47 {
            has_suffix(path, rest)
        } else {
            if path.len() == 0 {
                return false;
            }
            let trimmed = slice_subrange(path, 0, path.len() - 1);
            assert(trimmed@ == path@.drop_last());
            has_suffix(trimmed, rest)
        }
    } else if pattern[n - 1] == 42 {
        let prefix = slice_subrange(pattern, 0, n - 1);
        assert(prefix@ == pattern@.drop_last());
        has_prefix(path, prefix)
    } else if pattern[0] == 47 {
        if pattern[n - 1] == 47 {
            same_bytes(path, pattern)
        } else {
            if path.len() == 0 || path.len() - 1 != n {
                return false;
            }
            let trimmed = slice_subrange(path, 0, path.len() - 1);
            assert(trimmed@ == path@.drop_last());
            same_bytes(trimmed, pattern)
        }
    } else {
        has_suffix(path, relative)
    }
}

/// What decides whether a directory is removed.
#[derive(Debug)]
pub struct DirMatcher {
    patterns: Vec<Vec<u8>>,
    relative: Vec<Vec<u8>>,
}

impl View for DirMatcher {
    type V = Seq<Seq<u8>>;

    closed spec fn view(&self) -> Seq<Seq<u8>> {
        patterns_view(self.patterns@)
    }
}

impl DirMatcher {
    #[verifier::type_invariant]
    spec fn well_formed(self) -> bool {
        self.relative@.len() == self.patterns@.len() && forall|i: int|
            0 <= i < self.patterns@.len() ==> (#[trigger] self.relative@[i])@ == between_slashes(
                self.patterns@[i]@,
            )
    }

    /// Whether the directory `path` is to be removed.
    pub fn matches(&self, path: &[u8]) -> (hit: bool)
        ensures
            hit == dir_match(self@, path@),
    {
        proof {
            use_type_invariant(self);
        }
        let mut i: usize = 0;
        while i < self.patterns.len()
            invariant
                i <= self.patterns@.len(),
                self.relative@.len() == self.patterns@.len(),
                forall|j: int|
                    0 <= j < self.patterns@.len() ==> (#[trigger] self.relative@[j])@
                        == between_slashes(self.patterns@[j]@),
                forall|j: int| 0 <= j < i ==> !dir_pattern_matches(#[trigger] self@[j], path@),
            decreases self.patterns@.len() - i,
        {
            assert(self@[i as int] == self.patterns@[i as int]@);
            if dir_pattern_hits(self.patterns[i].as_slice(), self.relative[i].as_slice(), path) {
                return true;
            }
            i += 1;
        }
        false
    }
}

/// The matcher of these patterns for directories. Fails with
/// `InvalidPattern` where one of them is empty.
pub fn build_folder_delete_patterns(folders: &Vec<Vec<u8>>) -> (built: Result<DirMatcher, GitError>)
    ensures
        (forall|i: int| 0 <= i < folders@.len() ==> (#[trigger] folders@[i])@.len() > 0) ==> built is Ok
            && built->Ok_0@ == patterns_view(folders@),
        !(forall|i: int| 0 <= i < folders@.len() ==> (#[trigger] folders@[i])@.len() > 0)
            ==> built is Err && built->Err_0 == GitError::InvalidPattern,
{
    let mut patterns: Vec<Vec<u8>> = Vec::new();
    let mut relative: Vec<Vec<u8>> = Vec::new();
    let mut i: usize = 0;
    while i < folders.len()
        invariant
            i <= folders@.len(),
            patterns@.len() == i,
            relative@.len() == i,
            patterns_view(patterns@) == patterns_view(folders@).take(i as int),
            forall|j: int| 0 <= j < i ==> (#[trigger] folders@[j])@.len() > 0,
            forall|j: int|
                0 <= j < i ==> (#[trigger] relative@[j])@ == between_slashes(patterns@[j]@),
        decreases folders@.len() - i,
    {
        let folder = folders[i].as_slice();
        if folder.len() == 0 {
            return Err(GitError::InvalidPattern);
        }
        let mut between: Vec<u8> = Vec::new();
        between.push(47u8);
        between.extend_from_slice(folder);
        if folder[folder.len() - 1] != 47 {
            between.push(47u8);
        }
        assert(between@ =~= between_slashes(folder@));
        let ghost before = patterns_view(patterns@);
        patterns.push(copy_of(folder));
        relative.push(between);
        assert(patterns_view(patterns@) =~= before.push(folders@[i as int]@));
        assert(patterns_view(folders@).take(i + 1) =~= patterns_view(folders@).take(i as int).push(
            folders@[i as int]@,
        ));
        i += 1;
    }
    assert(patterns_view(folders@).take(folders@.len() as int) =~= patterns_view(folders@));
    Ok(DirMatcher { patterns, relative })
}

/// What decides whether a file is removed by regular expressions on its
/// whole path.
pub struct RegexMatcher {
    set: Option<RegexSet>,
}

impl View for RegexMatcher {
    type V = Seq<Seq<char>>;

    closed spec fn view(&self) -> Seq<Seq<char>> {
        match self.set {
            Some(set) => regex_set_patterns(set),
            None => Seq::empty(),
        }
    }
}

impl RegexMatcher {
    #[verifier::type_invariant]
    spec fn well_formed(self) -> bool {
        self.set is Some ==> regex_set_patterns(self.set->Some_0).len() > 0
    }

    /// Whether the file `file` in the directory `folder` is to be removed.
    pub fn matches(&self, folder: &[u8], file: &[u8]) -> (hit: bool)
        ensures
            hit == regex_match(self@, folder@, file@),
    {
        proof {
            use_type_invariant(self);
        }
        match &self.set {
            None => false,
            Some(set) => {
                let mut path = copy_of(folder);
                path.extend_from_slice(file);
                assert(path@ =~= folder@ + file@);
                regex_set_is_match(set, path.as_slice())
            },
        }
    }
}

/// The matcher of these regular expressions. Without any, nothing matches.
/// Fails with `InvalidPattern` where there are some and they do not
/// compile.
pub fn build_regex_pattern(patterns: &Vec<String>) -> (built: Result<RegexMatcher, GitError>)
    ensures
        built is Ok == (patterns@.len() == 0 || regex_set_compiles(strings_view(patterns@))),
        built is Ok ==> built->Ok_0@ == strings_view(patterns@),
        built is Err ==> built->Err_0 == GitError::InvalidPattern,
{
    if patterns.len() == 0 {
        let matcher = RegexMatcher { set: None };
        assert(matcher@ =~= strings_view(patterns@));
        return Ok(matcher);
    }
    match regex_set_new(patterns) {
        Ok(set) => Ok(RegexMatcher { set: Some(set) }),
        Err(_) => Err(GitError::InvalidPattern),
    }
}

/// What is to be removed.
pub struct RemovalRules {
    pub files: FileMatcher,
    pub folders: DirMatcher,
    pub regexes: RegexMatcher,
}

/// What is to be removed, as plain values.
pub struct RulesView {
    pub files: Seq<Seq<u8>>,
    pub folders: Seq<Seq<u8>>,
    pub regexes: Seq<Seq<char>>,
}

impl View for RemovalRules {
    type V = RulesView;

    open spec fn view(&self) -> RulesView {
        RulesView { files: self.files@, folders: self.folders@, regexes: self.regexes@ }
    }
}

/// The path of the directory that a tree entry names, inside the directory
/// `path`.
pub open spec fn child_path(path: Seq<u8>, entry: EntryView) -> Seq<u8> {
    path + entry_name(entry) + seq![47u8]
}

/// Whether the rules remove the entry of the tree at `path`: a directory by
/// its path, a file by its name or by a regular expression on its whole
/// path.
pub open spec fn entry_matched(rules: RulesView, path: Seq<u8>, entry: EntryView) -> bool {
    if entry_is_tree(entry) {
        dir_match(rules.folders, child_path(path, entry))
    } else {
        file_match(rules.files, path, entry_name(entry)) || regex_match(
            rules.regexes,
            path,
            entry_name(entry),
        )
    }
}

/// What becomes of an entry when its tree is rewritten.
pub enum Fate {
    /// It is removed.
    Drop,
    /// It stays, pointing at the same object (`replaced` is false) or at
    /// the tree that was written in the place of its own.
    Keep { entry: EntryView, replaced: bool },
    /// It is a directory that was not looked at yet.
    Unknown,
}

/// What becomes of an entry of the tree at `path`, given the trees that
/// were looked at so far.
pub open spec fn fate(
    rules: RulesView,
    memo: Map<ObjectHash, Option<ObjectHash>>,
    path: Seq<u8>,
    entry: EntryView,
) -> Fate {
    if entry_matched(rules, path, entry) {
        Fate::Drop
    } else if entry_is_tree(entry) {
        let hash = oid_with(entry.hash);
        if !memo.contains_key(hash) {
            Fate::Unknown
        } else {
            match memo[hash] {
                None => Fate::Keep { entry, replaced: false },
                Some(new_hash) => Fate::Keep {
                    entry: EntryView { hash: new_hash@, ..entry },
                    replaced: true,
                },
            }
        }
    } else {
        Fate::Keep { entry, replaced: false }
    }
}

/// How far the rewriting of one tree has come.
pub struct VisitView {
    pub tree: ObjectHash,
    pub entries: Seq<EntryView>,
    pub path: Seq<u8>,
    pub next: int,
    pub kept: Seq<EntryView>,
    pub changed: bool,
}

/// What the rewriting of one tree comes to.
pub enum VisitOutcome {
    /// The directory `hash` at `path` has to be looked at first.
    Descend { hash: ObjectHash, path: Seq<u8> },
    /// The tree stays as it is.
    Unchanged,
    /// The tree is written anew with these entries.
    Rebuilt(Seq<EntryView>),
}

/// Goes on with the rewriting of one tree, entry by entry, until a
/// directory comes that was not looked at yet, or to the end.
pub open spec fn visit_run(
    visit: VisitView,
    rules: RulesView,
    memo: Map<ObjectHash, Option<ObjectHash>>,
) -> (VisitOutcome, VisitView)
    decreases visit.entries.len() - visit.next,
{
    if visit.next < 0 || visit.next >= visit.entries.len() {
        (
            if visit.changed {
                VisitOutcome::Rebuilt(visit.kept)
            } else {
                VisitOutcome::Unchanged
            },
            visit,
        )
    } else {
        let entry = visit.entries[visit.next];
        match fate(rules, memo, visit.path, entry) {
            Fate::Unknown => (
                VisitOutcome::Descend {
                    hash: oid_with(entry.hash),
                    path: child_path(visit.path, entry),
                },
                visit,
            ),
            Fate::Drop => visit_run(
                VisitView { next: visit.next + 1, changed: true, ..visit },
                rules,
                memo,
            ),
            Fate::Keep { entry: kept, replaced } => visit_run(
                VisitView {
                    next: visit.next + 1,
                    kept: visit.kept.push(kept),
                    changed: visit.changed || replaced,
                    ..visit
                },
                rules,
                memo,
            ),
        }
    }
}

/// The trees looked at so far, once the rewriting of one tree has come to
/// `outcome`.
pub open spec fn memo_after(
    memo: Map<ObjectHash, Option<ObjectHash>>,
    tree: ObjectHash,
    outcome: VisitOutcome,
    new_hash: ObjectHash,
) -> Map<ObjectHash, Option<ObjectHash>> {
    match outcome {
        VisitOutcome::Descend { .. } => memo,
        VisitOutcome::Unchanged => memo.insert(tree, None),
        VisitOutcome::Rebuilt(_) => memo.insert(tree, Some(new_hash)),
    }
}

/// The entries that the rules do not remove from the tree at `path`, in
/// the order of the tree.
pub open spec fn surviving(entries: Seq<EntryView>, rules: RulesView, path: Seq<u8>) -> Seq<EntryView>
    decreases entries.len(),
{
    if entries.len() == 0 {
        Seq::empty()
    } else {
        let earlier = surviving(entries.drop_last(), rules, path);
        if entry_matched(rules, path, entries.last()) {
            earlier
        } else {
            earlier.push(entries.last())
        }
    }
}

/// The texts of the entries.
pub open spec fn texts_of(entries: Seq<EntryView>) -> Seq<Seq<u8>> {
    Seq::new(entries.len(), |i: int| entries[i].text)
}

/// What holds of the entries kept so far: they are, text by text and in
/// order, the entries looked at that the rules do not remove; and as long as
/// nothing changed, they are the entries looked at.
pub open spec fn visit_inv(visit: VisitView, rules: RulesView) -> bool {
    &&& 0 <= visit.next <= visit.entries.len()
    &&& texts_of(visit.kept) == texts_of(
        surviving(visit.entries.take(visit.next), rules, visit.path),
    )
    &&& !visit.changed ==> visit.kept == visit.entries.take(visit.next)
}

/// The rules remove none of the entries that survive them.
pub proof fn lemma_surviving(entries: Seq<EntryView>, rules: RulesView, path: Seq<u8>)
    ensures
        forall|k: int|
            0 <= k < surviving(entries, rules, path).len() ==> !entry_matched(
                rules,
                path,
                #[trigger] surviving(entries, rules, path)[k],
            ),
        (forall|i: int| 0 <= i < entries.len() ==> !entry_matched(rules, path, #[trigger] entries[i]))
            ==> surviving(entries, rules, path) == entries,
    decreases entries.len(),
{
    if entries.len() > 0 {
        let head = entries.drop_last();
        lemma_surviving(head, rules, path);
        let earlier = surviving(head, rules, path);
        let all = surviving(entries, rules, path);
        assert forall|k: int| 0 <= k < all.len() implies !entry_matched(
            rules,
            path,
            #[trigger] all[k],
        ) by {
            if k < earlier.len() {
                assert(all[k] == earlier[k]);
            }
        }
        if forall|i: int| 0 <= i < entries.len() ==> !entry_matched(rules, path, #[trigger] entries[i]) {
            assert forall|i: int| 0 <= i < head.len() implies !entry_matched(
                rules,
                path,
                #[trigger] head[i],
            ) by {
                assert(head[i] == entries[i]);
            }
            assert(!entry_matched(rules, path, entries[entries.len() - 1]));
            assert(all =~= entries);
        }
    }
}

/// Nothing that the rules remove is kept: of a rewriting of which
/// [`visit_inv`] holds, the rules remove none of the entries kept.
pub proof fn lemma_kept_unmatched(visit: VisitView, rules: RulesView)
    requires
        visit_inv(visit, rules),
    ensures
        forall|k: int|
            0 <= k < visit.kept.len() ==> !entry_matched(rules, visit.path, #[trigger] visit.kept[k]),
{
    let left = surviving(visit.entries.take(visit.next), rules, visit.path);
    lemma_surviving(visit.entries.take(visit.next), rules, visit.path);
    assert forall|k: int| 0 <= k < visit.kept.len() implies !entry_matched(
        rules,
        visit.path,
        #[trigger] visit.kept[k],
    ) by {
        assert(texts_of(visit.kept).len() == texts_of(left).len());
        assert(texts_of(visit.kept)[k] == texts_of(left)[k]);
        assert(visit.kept[k].text == left[k].text);
        assert(!entry_matched(rules, visit.path, left[k]));
    }
}

/// What a rewriting that stopped before a directory asks for: the
/// directory is the next entry of the tree, the rules do not remove it, it
/// was not looked at yet, and it is asked for by its identifier and its
/// path.
pub open spec fn asks_for(
    visit: VisitView,
    rules: RulesView,
    memo: Map<ObjectHash, Option<ObjectHash>>,
    outcome: VisitOutcome,
) -> bool {
    &&& 0 <= visit.next < visit.entries.len()
    &&& entry_is_tree(visit.entries[visit.next])
    &&& !entry_matched(rules, visit.path, visit.entries[visit.next])
    &&& !memo.contains_key(oid_with(visit.entries[visit.next].hash))
    &&& outcome == (VisitOutcome::Descend {
        hash: oid_with(visit.entries[visit.next].hash),
        path: child_path(visit.path, visit.entries[visit.next]),
    })
}

/// Where nothing was removed from the entries, the rules remove none of
/// them.
pub proof fn lemma_surviving_all(entries: Seq<EntryView>, rules: RulesView, path: Seq<u8>)
    ensures
        surviving(entries, rules, path).len() <= entries.len(),
        surviving(entries, rules, path).len() == entries.len() ==> forall|i: int|
            0 <= i < entries.len() ==> !entry_matched(rules, path, #[trigger] entries[i]),
    decreases entries.len(),
{
    if entries.len() > 0 {
        let head = entries.drop_last();
        lemma_surviving_all(head, rules, path);
        if surviving(entries, rules, path).len() == entries.len() {
            assert forall|i: int| 0 <= i < entries.len() implies !entry_matched(
                rules,
                path,
                #[trigger] entries[i],
            ) by {
                if i < head.len() {
                    assert(head[i] == entries[i]);
                }
            }
        }
    }
}

/// A rewriting with no entry looked at has what [`visit_inv`] asks for.
pub proof fn lemma_fresh_visit(visit: VisitView, rules: RulesView)
    requires
        visit.next == 0,
        visit.kept.len() == 0,
        !visit.changed,
    ensures
        visit_inv(visit, rules),
{
    assert(visit.entries.take(0) =~= Seq::<EntryView>::empty());
    assert(visit.kept =~= visit.entries.take(0));
    assert(texts_of(visit.kept) =~= texts_of(surviving(visit.entries.take(0), rules, visit.path)));
}

/// What holds of a step of a rewriting that was started afresh and only
/// taken up again since: it keeps [`visit_inv`]; a tree that it rebuilds
/// holds, text by text and in order, the entries that the rules do not
/// remove, and none that they remove; and a tree that it leaves unchanged
/// holds no entry that the rules remove.
pub open spec fn step_keeps(
    before: VisitView,
    after: VisitView,
    rules: RulesView,
    outcome: VisitOutcome,
) -> bool {
    &&& visit_inv(after, rules)
    &&& outcome is Rebuilt ==> texts_of(outcome->Rebuilt_0) == texts_of(
        surviving(before.entries, rules, before.path),
    ) && forall|k: int|
        0 <= k < outcome->Rebuilt_0.len() ==> !entry_matched(
            rules,
            before.path,
            #[trigger] outcome->Rebuilt_0[k],
        )
    &&& outcome is Unchanged ==> forall|i: int|
        0 <= i < before.entries.len() ==> !entry_matched(rules, before.path, #[trigger] before.entries[i])
}

/// Going on with the rewriting of a tree changes neither the tree nor its
/// path, and where it stops before a directory it asks for that directory.
pub proof fn lemma_visit_facts(visit: VisitView, rules: RulesView, memo: Map<ObjectHash, Option<ObjectHash>>)
    ensures
        visit_run(visit, rules, memo).1.entries == visit.entries,
        visit_run(visit, rules, memo).1.path == visit.path,
        visit_run(visit, rules, memo).1.tree == visit.tree,
        visit_run(visit, rules, memo).0 is Unchanged ==> !visit_run(visit, rules, memo).1.changed,
        visit_run(visit, rules, memo).0 is Descend ==> asks_for(
            visit_run(visit, rules, memo).1,
            rules,
            memo,
            visit_run(visit, rules, memo).0,
        ),
    decreases visit.entries.len() - visit.next,
{
    if 0 <= visit.next < visit.entries.len() {
        let entry = visit.entries[visit.next];
        match fate(rules, memo, visit.path, entry) {
            Fate::Unknown => {},
            Fate::Drop => {
                lemma_visit_facts(
                    VisitView { next: visit.next + 1, changed: true, ..visit },
                    rules,
                    memo,
                );
            },
            Fate::Keep { entry: kept, replaced } => {
                lemma_visit_facts(
                    VisitView {
                        next: visit.next + 1,
                        kept: visit.kept.push(kept),
                        changed: visit.changed || replaced,
                        ..visit
                    },
                    rules,
                    memo,
                );
            },
        }
    }
}

/// A step of a rewriting of which [`visit_inv`] holds keeps what
/// [`step_keeps`] says.
pub proof fn lemma_step_keeps(visit: VisitView, rules: RulesView, memo: Map<ObjectHash, Option<ObjectHash>>)
    requires
        visit_inv(visit, rules),
    ensures
        step_keeps(visit, visit_run(visit, rules, memo).1, rules, visit_run(visit, rules, memo).0),
{
    lemma_visit_run(visit, rules, memo);
    lemma_visit_facts(visit, rules, memo);
    let outcome = visit_run(visit, rules, memo).0;
    let after = visit_run(visit, rules, memo).1;
    lemma_kept_unmatched(after, rules);
    if !(outcome is Descend) {
        assert(after.entries.take(after.next) =~= visit.entries);
    }
    if outcome is Unchanged {
        lemma_surviving_all(visit.entries, rules, visit.path);
        assert(texts_of(after.kept).len() == texts_of(
            surviving(visit.entries, rules, visit.path),
        ).len());
    }
}

/// A tree that nothing touches stays as it is, and what is kept is what
/// the rules leave: going on with the rewriting of a tree keeps
/// [`visit_inv`]; unless a directory has to be looked at first, every entry
/// was looked at in the end; and where the rules remove no entry and no
/// directory of the tree was written anew, the tree is not changed.
#[verifier::rlimit(30)]
pub proof fn lemma_visit_run(visit: VisitView, rules: RulesView, memo: Map<ObjectHash, Option<ObjectHash>>)
    requires
        visit_inv(visit, rules),
    ensures
        visit_inv(visit_run(visit, rules, memo).1, rules),
        visit_run(visit, rules, memo).0 is Rebuilt ==> visit_run(visit, rules, memo).0->Rebuilt_0
            == visit_run(visit, rules, memo).1.kept,
        !(visit_run(visit, rules, memo).0 is Descend) ==> visit_run(visit, rules, memo).1.next
            == visit.entries.len(),
        visit_run(visit, rules, memo).1.entries == visit.entries,
        visit_run(visit, rules, memo).1.path == visit.path,
        (!visit.changed && forall|i: int|
            visit.next <= i < visit.entries.len() ==> #[trigger] fate(
                rules,
                memo,
                visit.path,
                visit.entries[i],
            ) == (Fate::Keep { entry: visit.entries[i], replaced: false })) ==> visit_run(
            visit,
            rules,
            memo,
        ).0 is Unchanged,
    decreases visit.entries.len() - visit.next,
{
    if visit.next < visit.entries.len() {
        let entry = visit.entries[visit.next];
        let looked = visit.entries.take(visit.next);
        let more = visit.entries.take(visit.next + 1);
        assert(more.drop_last() =~= looked);
        assert(more.last() == entry);
        match fate(rules, memo, visit.path, entry) {
            Fate::Unknown => {},
            Fate::Drop => {
                let next = VisitView { next: visit.next + 1, changed: true, ..visit };
                lemma_visit_run(next, rules, memo);
            },
            Fate::Keep { entry: kept, replaced } => {
                let next = VisitView {
                    next: visit.next + 1,
                    kept: visit.kept.push(kept),
                    changed: visit.changed || replaced,
                    ..visit
                };
                assert(texts_of(next.kept) =~= texts_of(visit.kept).push(entry.text));
                assert(texts_of(surviving(more, rules, visit.path)) =~= texts_of(
                    surviving(looked, rules, visit.path),
                ).push(entry.text));
                if !next.changed {
                    assert(more =~= looked.push(entry));
                }
                lemma_visit_run(next, rules, memo);
            },
        }
    } else {
        assert(visit.entries.take(visit.entries.len() as int) =~= visit.entries);
    }
}

/// The rewriting of one tree, which can be taken up again after a
/// directory of the tree was looked at.
pub struct TreeVisit {
    tree: Tree,
    path: Vec<u8>,
    next: usize,
    kept: Vec<(usize, TreeHash)>,
    changed: bool,
}

/// What the caller of the rewriting of a tree is to do.
#[derive(Debug)]
pub enum VisitStep {
    /// Rewrite the directory `hash` at `path`, then take this tree up
    /// again.
    Descend { hash: TreeHash, path: Vec<u8> },
    /// Nothing: the tree stays as it is.
    Unchanged,
    /// Write this tree, which stands for the old one from now on.
    Rebuilt(Tree),
}

impl View for VisitStep {
    type V = VisitOutcome;

    open spec fn view(&self) -> VisitOutcome {
        match self {
            VisitStep::Descend { hash, path } => VisitOutcome::Descend { hash: hash.0, path: path@ },
            VisitStep::Unchanged => VisitOutcome::Unchanged,
            VisitStep::Rebuilt(tree) => VisitOutcome::Rebuilt(tree@),
        }
    }
}

impl View for TreeVisit {
    type V = VisitView;

    closed spec fn view(&self) -> VisitView {
        VisitView {
            tree: self.tree.spec_hash().0,
            entries: self.tree@,
            path: self.path@,
            next: self.next as int,
            kept: Seq::new(
                self.kept@.len(),
                |k: int|
                    EntryView {
                        text: self.tree@[self.kept@[k].0 as int].text,
                        hash: self.kept@[k].1@,
                    },
            ),
            changed: self.changed,
        }
    }
}

impl TreeVisit {
    /// The entries kept so far point into the tree.
    pub closed spec fn wf(&self) -> bool {
        &&& self.next <= self.tree@.len()
        &&& forall|k: int| 0 <= k < self.kept@.len() ==> (#[trigger] self.kept@[k]).0 < self.tree@.len()
    }

    /// The rewriting of `tree`, which stands at `path`, with no entry looked
    /// at.
    pub fn start(tree: Tree, path: Vec<u8>) -> (visit: TreeVisit)
        ensures
            visit.wf(),
            forall|rules: RulesView| #[trigger] visit_inv(visit@, rules),
            visit@ == (VisitView {
                tree: tree.spec_hash().0,
                entries: tree@,
                path: path@,
                next: 0,
                kept: Seq::empty(),
                changed: false,
            }),
    {
        let visit = TreeVisit { tree, path, next: 0, kept: Vec::new(), changed: false };
        assert(visit@.kept =~= Seq::<EntryView>::empty());
        assert forall|rules: RulesView| #[trigger] visit_inv(visit@, rules) by {
            lemma_fresh_visit(visit@, rules);
        }
        visit
    }

    /// Goes on with the rewriting of the tree. Where it comes to the end,
    /// `rewritten_trees` holds for the tree what stands for it: nothing
    /// where it is unchanged, else the tree that is to be written. It asks
    /// only for a directory of the tree, and a rewriting that was started
    /// afresh keeps [`visit_inv`] from step to step: what it rebuilds holds
    /// the entries that the rules leave, in order, and no other.
    pub fn update_tree(
        &mut self,
        rules: &RemovalRules,
        rewritten_trees: &mut FxHashMap<ObjectHash, Option<ObjectHash>>,
    ) -> (step: VisitStep)
        requires
            old(self).wf(),
        ensures
            final(self).wf(),
            (step@, final(self)@) == visit_run(old(self)@, rules@, old(rewritten_trees)@),
            step is Descend ==> asks_for(final(self)@, rules@, old(rewritten_trees)@, step@),
            final(self)@.entries == old(self)@.entries,
            final(self)@.path == old(self)@.path,
            final(self)@.tree == old(self)@.tree,
            visit_inv(old(self)@, rules@) ==> step_keeps(old(self)@, final(self)@, rules@, step@),
            step is Rebuilt ==> step->Rebuilt_0.spec_hash()@ == object_id(
                kind_tree(),
                tree_payload(step->Rebuilt_0@),
            ),
            final(rewritten_trees)@ == memo_after(
                old(rewritten_trees)@,
                old(self)@.tree,
                step@,
                match step {
                    VisitStep::Rebuilt(tree) => tree.spec_hash().0,
                    _ => old(self)@.tree,
                },
            ),
    {
        let step = self.advance(rules, rewritten_trees);
        proof {
            lemma_visit_facts(old(self)@, rules@, old(rewritten_trees)@);
            if visit_inv(old(self)@, rules@) {
                lemma_step_keeps(old(self)@, rules@, old(rewritten_trees)@);
            }
        }
        step
    }

    /// Goes on with the rewriting of the tree, entry by entry.
    #[verifier::rlimit(30)]
    fn advance(
        &mut self,
        rules: &RemovalRules,
        rewritten_trees: &mut FxHashMap<ObjectHash, Option<ObjectHash>>,
    ) -> (step: VisitStep)
        requires
            old(self).wf(),
        ensures
            final(self).wf(),
            (step@, final(self)@) == visit_run(old(self)@, rules@, old(rewritten_trees)@),
            step is Rebuilt ==> step->Rebuilt_0.spec_hash()@ == object_id(
                kind_tree(),
                tree_payload(step->Rebuilt_0@),
            ),
            final(rewritten_trees)@ == memo_after(
                old(rewritten_trees)@,
                old(self)@.tree,
                step@,
                match step {
                    VisitStep::Rebuilt(tree) => tree.spec_hash().0,
                    _ => old(self)@.tree,
                },
            ),
    {
        let lines = self.tree.lines();
        let ghost entries = self.tree@;
        let ghost memo = rewritten_trees@;
        let ghost start = self@;
        while self.next < lines.len()
            invariant
                self.wf(),
                self.tree == old(self).tree,
                self.path == old(self).path,
                entries == self.tree@,
                lines_view(lines@) == entries,
                valid_entries(entries),
                rewritten_trees@ == memo,
                start == old(self)@,
                visit_run(self@, rules@, memo) == visit_run(start, rules@, memo),
            decreases lines@.len() - self.next,
        {
            let ghost visit = self@;
            let at = self.next;
            let line = &lines[at];
            proof {
                assert(lines_view(lines@)[at as int] == line@);
                assert(valid_text(entries[at as int].text));
                crate::bytes::lemma_first_at(line.text@, 0, 32);
            }
            let name = line.filename();
            let directory = line.is_tree();
            if directory {
                let mut full_path = copy_of(self.path.as_slice());
                full_path.extend_from_slice(name);
                full_path.push(47u8);
                assert(full_path@ =~= child_path(visit.path, entries[at as int]));
                if rules.folders.matches(full_path.as_slice()) {
                    self.changed = true;
                    self.next = at + 1;
                    assert(self@.kept =~= visit.kept);
                } else {
                    proof {
                        lemma_same_bytes_same_hash(line.hash.0, oid_with(entries[at as int].hash));
                    }
                    match oid_map_get(rewritten_trees, &line.hash.0) {
                        None => {
                            return VisitStep::Descend { hash: line.hash, path: full_path };
                        },
                        Some(None) => {
                            self.kept.push((at, line.hash));
                            self.next = at + 1;
                            assert(self@.kept =~= visit.kept.push(entries[at as int]));
                        },
                        Some(Some(new_tree_hash)) => {
                            self.kept.push((at, TreeHash(*new_tree_hash)));
                            self.changed = true;
                            self.next = at + 1;
                            assert(self@.kept =~= visit.kept.push(
                                EntryView { hash: new_tree_hash@, ..entries[at as int] },
                            ));
                        },
                    }
                }
            } else {
                if rules.files.matches(self.path.as_slice(), name) || rules.regexes.matches(
                    self.path.as_slice(),
                    name,
                ) {
                    self.changed = true;
                    self.next = at + 1;
                    assert(self@.kept =~= visit.kept);
                } else {
                    self.kept.push((at, line.hash));
                    self.next = at + 1;
                    assert(self@.kept =~= visit.kept.push(entries[at as int]));
                }
            }
        }
        if !self.changed {
            oid_map_insert(rewritten_trees, self.tree.hash().0, None);
            return VisitStep::Unchanged;
        }
        let mut filtered_lines: Vec<TreeLine<'_>> = Vec::new();
        let mut k: usize = 0;
        while k < self.kept.len()
            invariant
                k <= self.kept@.len(),
                self.wf(),
                entries == self.tree@,
                lines_view(lines@) == entries,
                valid_entries(entries),
                lines_view(filtered_lines@) == self@.kept.take(k as int),
                valid_entries(lines_view(filtered_lines@)),
            decreases self.kept@.len() - k,
        {
            let (index, hash) = self.kept[k];
            let ghost before = lines_view(filtered_lines@);
            assert(lines_view(lines@)[index as int] == lines@[index as int]@);
            filtered_lines.push(TreeLine { hash, text: lines[index].text });
            proof {
                let added = self@.kept[k as int];
                assert(lines_view(filtered_lines@) =~= before.push(added));
                assert(self@.kept.take(k + 1) =~= self@.kept.take(k as int).push(added));
                assert(valid_text(entries[index as int].text));
                assert forall|j: int| 0 <= j < lines_view(filtered_lines@).len() implies valid_text(
                    (#[trigger] lines_view(filtered_lines@)[j]).text,
                ) && lines_view(filtered_lines@)[j].hash.len() == 20 by {
                    if j < k {
                        assert(lines_view(filtered_lines@)[j] == before[j]);
                    }
                }
            }
            k += 1;
        }
        proof {
            assert(self@.kept.take(self.kept@.len() as int) =~= self@.kept);
        }
        match Tree::from_iter(&filtered_lines) {
            Ok(tree) => {
                oid_map_insert(rewritten_trees, self.tree.hash().0, Some(tree.hash().0));
                VisitStep::Rebuilt(tree)
            },
            Err(_) => {
                assert(false);
                VisitStep::Unchanged
            },
        }
    }
}

/// The fields of a commit once its parents and its tree are replaced by
/// what stands for them: a parent by what `rewritten` holds for it, the
/// tree by the tree that was written in its place.
pub open spec fn removed_view(
    commit: CommitView,
    rewritten: Map<ObjectHash, ObjectHash>,
    trees: Map<ObjectHash, Option<ObjectHash>>,
) -> CommitView {
    CommitView {
        parents: Seq::new(commit.parents.len(), |i: int| restated(rewritten, commit.parents[i])),
        tree: {
            let tree = oid_with(hex_decoded(commit.tree));
            if trees.contains_key(tree) && trees[tree] is Some {
                hex_lower(trees[tree]->Some_0@)
            } else {
                commit.tree
            }
        },
        ..commit
    }
}

/// What stands for a parent: the 40 hexadecimal digits of what `rewritten`
/// holds for it where that is another commit, else the parent as it was.
pub open spec fn restated(rewritten: Map<ObjectHash, ObjectHash>, parent: Seq<u8>) -> Seq<u8> {
    let hash = oid_with(hex_decoded(parent));
    if rewritten.contains_key(hash) && rewritten[hash] != hash {
        hex_lower(rewritten[hash]@)
    } else {
        parent
    }
}

/// Whether one of the parents stands for another commit now.
pub open spec fn parent_moved(commit: CommitView, rewritten: Map<ObjectHash, ObjectHash>) -> bool {
    exists|i: int|
        0 <= i < commit.parents.len() && rewritten.contains_key(
            oid_with(hex_decoded(#[trigger] commit.parents[i])),
        ) && rewritten[oid_with(hex_decoded(commit.parents[i]))] != oid_with(
            hex_decoded(commit.parents[i]),
        )
}

/// Replaces each parent of the commit by what `rewritten_commits` holds for
/// it, where that is another commit.
#[verifier::rlimit(30)]
pub fn update_parents(commit: &mut CommitEditable, rewritten_commits: &FxHashMap<ObjectHash, ObjectHash>)
    ensures
        final(commit)@ == (CommitView {
            parents: Seq::new(
                old(commit)@.parents.len(),
                |i: int| restated(rewritten_commits@, old(commit)@.parents[i]),
            ),
            ..old(commit)@
        }),
        final(commit).base() == old(commit).base(),
        final(commit).edited() == (old(commit).edited() || parent_moved(
            old(commit)@,
            rewritten_commits@,
        )),
{
    let ghost view = commit@;
    let ghost was_edited = commit.edited();
    let ghost before = rewritten_commits@;
    let parents = commit.parents();
    let mut i: usize = 0;
    proof {
        assert(commit@.parents =~= Seq::new(
            view.parents.len(),
            |j: int|
                if j < 0 {
                    restated(before, view.parents[j])
                } else {
                    view.parents[j]
                },
        ));
    }
    while i < parents.len()
        invariant
            i <= parents@.len(),
            parents@.len() == view.parents.len(),
            commit.base() == old(commit).base(),
            before == rewritten_commits@,
            forall|j: int|
                0 <= j < parents@.len() ==> (#[trigger] parents@[j])@ == hex_decoded(view.parents[j]),
            commit@ == (CommitView {
                parents: Seq::new(
                    view.parents.len(),
                    |j: int|
                        if j < i {
                            restated(before, view.parents[j])
                        } else {
                            view.parents[j]
                        },
                ),
                ..view
            }),
            commit.edited() == (was_edited || exists|j: int|
                0 <= j < i && before.contains_key(oid_with(hex_decoded(#[trigger] view.parents[j])))
                    && before[oid_with(hex_decoded(view.parents[j]))] != oid_with(
                    hex_decoded(view.parents[j]),
                )),
        decreases parents@.len() - i,
    {
        let parent = parents[i];
        proof {
            lemma_same_bytes_same_hash(parent.0, oid_with(hex_decoded(view.parents[i as int])));
        }
        let moved = match oid_map_get(rewritten_commits, &parent.0) {
            Some(new_parent) => if !new_parent.same(&parent.0) {
                Some(*new_parent)
            } else {
                None
            },
            None => None,
        };
        match moved {
            Some(new_parent) => {
                commit.set_parent(i, CommitHash(new_parent));
            },
            None => {},
        }
        assert(commit@.parents =~= Seq::new(
            view.parents.len(),
            |j: int|
                if j < i + 1 {
                    restated(before, view.parents[j])
                } else {
                    view.parents[j]
                },
        ));
        i += 1;
    }
    proof {
        assert(commit@.parents =~= Seq::new(
            view.parents.len(),
            |j: int| restated(before, view.parents[j]),
        ));
    }
}

/// Whether removal touches the commit: one of its parents stands for
/// another commit now, or its tree was written anew.
pub open spec fn removal_touches(
    commit: CommitView,
    rewritten: Map<ObjectHash, ObjectHash>,
    trees: Map<ObjectHash, Option<ObjectHash>>,
) -> bool {
    parent_moved(commit, rewritten) || (trees.contains_key(oid_with(hex_decoded(commit.tree)))
        && trees[oid_with(hex_decoded(commit.tree))] is Some)
}

/// Handles one commit when files and directories are removed. The commits
/// must come parents first, each after its tree was rewritten. Gives the
/// identifier of the commit as it was, the identifier that stands for it,
/// and the commit to write where it is touched or was edited before.
pub fn update_commit(
    commit: CommitEditable,
    rewritten_commits: &FxHashMap<ObjectHash, ObjectHash>,
    rewritten_trees: &FxHashMap<ObjectHash, Option<ObjectHash>>,
) -> (updated: (CommitHash, CommitHash, Option<WriteObject>))
    ensures
        updated.0 == commit.base().spec_hash(),
        commit.edited() || removal_touches(commit@, rewritten_commits@, rewritten_trees@) ==> {
            &&& updated.2 is Some
            &&& updated.2->Some_0.kind() == kind_commit()
            &&& updated.2->Some_0.payload() == serialized(
                removed_view(commit@, rewritten_commits@, rewritten_trees@),
            )
            &&& updated.2->Some_0.spec_hash()@ == object_id(
                kind_commit(),
                updated.2->Some_0.payload(),
            )
            &&& updated.1.0 == updated.2->Some_0.spec_hash()
        },
        !(commit.edited() || removal_touches(commit@, rewritten_commits@, rewritten_trees@))
            ==> updated.2 is None && updated.1 == updated.0,
{
    let ghost view = commit@;
    let mut commit = commit;
    let old_hash = *commit.base_hash();
    update_parents(&mut commit, rewritten_commits);
    let tree = commit.tree();
    proof {
        lemma_same_bytes_same_hash(tree.0, oid_with(hex_decoded(view.tree)));
    }
    let new_tree = match oid_map_get(rewritten_trees, &tree.0) {
        Some(Some(new_tree_hash)) => Some(*new_tree_hash),
        _ => None,
    };
    match new_tree {
        Some(new_tree_hash) => {
            commit.set_tree(TreeHash(new_tree_hash));
        },
        None => {},
    }
    assert(commit@.parents =~= removed_view(view, rewritten_commits@, rewritten_trees@).parents);
    if commit.has_changes() {
        let write_object = WriteObject::from_commit(commit);
        let new_hash = CommitHash(*write_object.hash());
        return (old_hash, new_hash, Some(write_object));
    }
    (old_hash, old_hash, None)
}

/// Handles one commit when files and directories are removed, and records
/// in `rewritten_commits` what stands for it where that is another commit.
pub fn remove(
    commit: CommitBase,
    rewritten_commits: &mut FxHashMap<ObjectHash, ObjectHash>,
    rewritten_trees: &FxHashMap<ObjectHash, Option<ObjectHash>>,
) -> (written: Option<WriteObject>)
    ensures
        removal_touches(commit@, old(rewritten_commits)@, rewritten_trees@) ==> {
            &&& written is Some
            &&& written->Some_0.kind() == kind_commit()
            &&& written->Some_0.payload() == serialized(
                removed_view(commit@, old(rewritten_commits)@, rewritten_trees@),
            )
            &&& written->Some_0.spec_hash()@ == object_id(kind_commit(), written->Some_0.payload())
            &&& final(rewritten_commits)@ == crate::prune::rewritten_after(
                old(rewritten_commits)@,
                commit.spec_hash().0,
                written->Some_0.spec_hash(),
            )
        },
        !removal_touches(commit@, old(rewritten_commits)@, rewritten_trees@) ==> written is None
            && final(rewritten_commits)@ == old(rewritten_commits)@,
{
    let commit = CommitEditable::create(commit);
    let (old_hash, new_hash, written) = update_commit(commit, rewritten_commits, rewritten_trees);
    if !old_hash.same(&new_hash) {
        oid_map_insert(rewritten_commits, old_hash.0, new_hash.0);
    }
    written
}

/// The two hold the same for the tree of the commit.
pub open spec fn same_for_tree(
    commit: CommitView,
    first: Map<ObjectHash, Option<ObjectHash>>,
    second: Map<ObjectHash, Option<ObjectHash>>,
) -> bool {
    let tree = oid_with(hex_decoded(commit.tree));
    first.contains_key(tree) == second.contains_key(tree) && (first.contains_key(tree) ==> first[tree]
        == second[tree])
}

/// What a run of removal makes of commits that are finished in this order,
/// parents first: the commits as they stand afterwards and what each commit
/// that was written anew is mapped to. `trees` gives, for each place, the
/// trees that were rewritten by the time the commit at that place is
/// finished, and `name` gives each payload its identifier.
pub open spec fn remove_run(
    commits: Seq<Rewritable>,
    trees: spec_fn(int) -> Map<ObjectHash, Option<ObjectHash>>,
    name: spec_fn(Seq<u8>) -> ObjectHash,
) -> (Seq<Rewritable>, Map<ObjectHash, ObjectHash>)
    decreases commits.len(),
{
    if commits.len() == 0 {
        (Seq::empty(), Map::empty())
    } else {
        let (done, rewritten) = remove_run(commits.drop_last(), trees, name);
        let commit = commits.last();
        let memo = trees(commits.len() - 1);
        if removal_touches(commit.fields, rewritten, memo) {
            let fields = removed_view(commit.fields, rewritten, memo);
            let id = name(serialized(fields));
            (
                done.push(Rewritable { id, fields }),
                crate::prune::rewritten_after(rewritten, commit.id, id),
            )
        } else {
            (done.push(commit), rewritten)
        }
    }
}

/// Whatever else was rewritten meanwhile: a run of removal depends on the
/// trees rewritten so far only through what they hold for the tree of the
/// commit that is being finished. So the parents that a commit gets are
/// what stands for its parents once these are finished, however the
/// rewriting of trees was scheduled.
pub proof fn lemma_remove_run_schedule(
    commits: Seq<Rewritable>,
    first: spec_fn(int) -> Map<ObjectHash, Option<ObjectHash>>,
    second: spec_fn(int) -> Map<ObjectHash, Option<ObjectHash>>,
    name: spec_fn(Seq<u8>) -> ObjectHash,
)
    requires
        forall|i: int|
            0 <= i < commits.len() ==> same_for_tree((#[trigger] commits[i]).fields, first(i), second(i)),
    ensures
        remove_run(commits, first, name) == remove_run(commits, second, name),
    decreases commits.len(),
{
    if commits.len() > 0 {
        let head = commits.drop_last();
        assert forall|i: int| 0 <= i < head.len() implies same_for_tree(
            (#[trigger] head[i]).fields,
            first(i),
            second(i),
        ) by {
            assert(head[i] == commits[i]);
        }
        lemma_remove_run_schedule(head, first, second, name);
        let commit = commits.last();
        let rewritten = remove_run(head, first, name).1;
        let at = commits.len() - 1;
        assert(same_for_tree(commits[at].fields, first(at), second(at)));
        assert(removed_view(commit.fields, rewritten, first(at)).parents =~= removed_view(
            commit.fields,
            rewritten,
            second(at),
        ).parents);
    }
}

} // verus!
