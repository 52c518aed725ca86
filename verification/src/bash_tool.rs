//! Bash tool change attribution via pre/post stat-tuple snapshots.
//!
//! Detects file changes made by bash/shell tool calls by comparing filesystem
//! metadata snapshots taken before and after tool execution.
use crate::path_order::{
    distinct_paths, has_path, has_string, lemma_has_path_push, lemma_same_strings_same_paths,
    paths_equal, same_path, sort_paths, sorted_paths,
};
use crate::text::{lowercased, normalize_to_posix, posix_path, push_char, str_eq, to_lowercase_text};
use ignore::gitignore::Gitignore;
use vstd::prelude::*;
use vstd::string::*;

verus! {

/// The frozen `.gitignore` matcher of the `ignore` crate, carried through
/// the proofs as an opaque value.
#[verifier::external_type_specification]
#[verifier::external_body]
pub struct ExGitignore(Gitignore);

/// Whether the frozen `.gitignore` rules ignore `path` (`Gitignore::matched`
/// followed by `Match::is_ignore`).
pub uninterp spec fn gitignore_ignores(matcher: Gitignore, path: Seq<char>, is_dir: bool) -> bool;

/// Whether the rules ignore `path`.
///
/// Calls `ignore::gitignore::Gitignore::matched` and `Match::is_ignore`; the
/// contract names the outcome as a function of the matcher, the path and
/// `is_dir`, and states nothing more of it.
#[verifier::external_body]
fn ignored_by(gitignore: &Gitignore, path: &str, is_dir: bool) -> (r: bool)
    ensures
        r == gitignore_ignores(*gitignore, path@, is_dir),
{
    gitignore.matched(std::path::Path::new(path), is_dir).is_ignore()
}

/// Check whether a newly created (untracked) file should be included.
/// Returns true if the file is NOT ignored by .gitignore rules.
pub fn should_include_new_file(gitignore: &Gitignore, path: &str, is_dir: bool) -> (r: bool)
    ensures
        r == !gitignore_ignores(*gitignore, path@, is_dir),
{
    !ignored_by(gitignore, path, is_dir)
}

/// A file time stamp: whole seconds and nanoseconds away from the Unix epoch,
/// before or after it.
#[derive(Debug, Clone, Copy, PartialEq, Eq, Structural)]
pub struct FileTime {
    pub before_epoch: bool,
    pub secs: u64,
    pub nanos: u32,
}

/// File type enumeration (symlink-aware, no following).
#[derive(Debug, Clone, Copy, PartialEq, Eq, Structural)]
pub enum StatFileType {
    Regular,
    Directory,
    Symlink,
    Other,
}

impl StatFileType {
    /// The type of a file from its `lstat` flags: a symlink first, then a
    /// directory, then a regular file.
    pub fn from_flags(is_symlink: bool, is_dir: bool, is_file: bool) -> (r: StatFileType)
        ensures
            r == (if is_symlink {
                StatFileType::Symlink
            } else if is_dir {
                StatFileType::Directory
            } else if is_file {
                StatFileType::Regular
            } else {
                StatFileType::Other
            }),
    {
        if is_symlink {
            StatFileType::Symlink
        } else if is_dir {
            StatFileType::Directory
        } else if is_file {
            StatFileType::Regular
        } else {
            StatFileType::Other
        }
    }
}

/// Metadata fingerprint for a single file, collected via `lstat()`.
#[derive(Debug, Clone, Copy, PartialEq, Eq, Structural)]
pub struct StatEntry {
    pub exists: bool,
    pub mtime: Option<FileTime>,
    pub ctime: Option<FileTime>,
    pub size: u64,
    pub mode: u32,
    pub file_type: StatFileType,
}

impl StatEntry {
    /// The change time from the seconds and nanoseconds `lstat` reports: none
    /// before the epoch.
    pub fn ctime_from_parts(secs: i64, nanos: u32) -> (r: Option<FileTime>)
        ensures
            secs >= 0 ==> r == Some(FileTime { before_epoch: false, secs: secs as u64, nanos }),
            secs < 0 ==> r is None,
    {
        if secs >= 0 {
            Some(FileTime { before_epoch: false, secs: secs as u64, nanos })
        } else {
            None
        }
    }
}

/// A complete filesystem snapshot: stat-tuples keyed by normalized path.
#[derive(Debug)]
pub struct StatSnapshot {
    /// File metadata keyed by normalized relative path, each path once.
    pub entries: Vec<(String, StatEntry)>,
    /// Git-tracked files at snapshot time (normalized relative paths).
    pub tracked_files: Vec<String>,
    /// Frozen gitignore rules.
    pub gitignore: Option<Gitignore>,
    /// Unique invocation key: "{session_id}:{tool_use_id}".
    pub invocation_key: String,
    /// Repo root path (for rebuilding the gitignore rules).
    pub repo_root: String,
}

impl StatSnapshot {
    /// No two entries are for the same path.
    pub open spec fn well_formed(&self) -> bool {
        distinct_keys(self.entries@)
    }
}

/// No two keys name the same path.
pub open spec fn distinct_keys(entries: Seq<(String, StatEntry)>) -> bool {
    forall|i: int, j: int| 0 <= i < j < entries.len() ==> !same_path(entries[i].0@, entries[j].0@)
}

/// Some entry is for the path `p`.
pub open spec fn has_entry(entries: Seq<(String, StatEntry)>, p: Seq<char>) -> bool {
    exists|i: int| 0 <= i < entries.len() && #[trigger] same_path(entries[i].0@, p)
}

/// The entry for the path `p`: that of the first key that names it.
pub open spec fn entry_for(entries: Seq<(String, StatEntry)>, p: Seq<char>) -> Option<StatEntry>
    decreases entries.len(),
{
    if entries.len() == 0 {
        None
    } else if same_path(entries[0].0@, p) {
        Some(entries[0].1)
    } else {
        entry_for(entries.drop_first(), p)
    }
}

/// Some key is the string `s`.
pub open spec fn is_key(entries: Seq<(String, StatEntry)>, s: Seq<char>) -> bool {
    exists|i: int| 0 <= i < entries.len() && #[trigger] entries[i].0@ == s
}

proof fn lemma_entry_for_found(entries: Seq<(String, StatEntry)>, p: Seq<char>, i: int)
    requires
        0 <= i < entries.len(),
        same_path(entries[i].0@, p),
        forall|k: int| 0 <= k < i ==> !same_path(#[trigger] entries[k].0@, p),
    ensures
        entry_for(entries, p) == Some(entries[i].1),
    decreases i,
{
    if i > 0 {
        assert forall|k: int| 0 <= k < i - 1 implies !same_path(
            #[trigger] entries.drop_first()[k].0@,
            p,
        ) by {
            assert(entries.drop_first()[k] == entries[k + 1]);
        }
        lemma_entry_for_found(entries.drop_first(), p, i - 1);
    }
}

/// Without an entry for the path `p` there is nothing to find.
pub proof fn lemma_entry_for_none(entries: Seq<(String, StatEntry)>, p: Seq<char>)
    requires
        !has_entry(entries, p),
    ensures
        entry_for(entries, p) is None,
    decreases entries.len(),
{
    if entries.len() > 0 {
        assert(!same_path(entries[0].0@, p));
        assert forall|i: int| 0 <= i < entries.drop_first().len() implies !same_path(
            #[trigger] entries.drop_first()[i].0@,
            p,
        ) by {
            assert(entries.drop_first()[i] == entries[i + 1]);
            assert(!same_path(entries[i + 1].0@, p));
        }
        lemma_entry_for_none(entries.drop_first(), p);
    }
}

/// With no two keys naming the same path, the entry for a path is that of the
/// key that names it.
pub proof fn lemma_entry_for_key(entries: Seq<(String, StatEntry)>, p: Seq<char>, i: int)
    requires
        distinct_keys(entries),
        0 <= i < entries.len(),
        same_path(entries[i].0@, p),
    ensures
        entry_for(entries, p) == Some(entries[i].1),
{
    assert forall|k: int| 0 <= k < i implies !same_path(#[trigger] entries[k].0@, p) by {
        assert(!same_path(entries[k].0@, entries[i].0@));
    }
    lemma_entry_for_found(entries, p, i);
}

/// Names of the same path find the same entry.
proof fn lemma_entry_for_same(entries: Seq<(String, StatEntry)>, p: Seq<char>, q: Seq<char>)
    requires
        same_path(p, q),
    ensures
        entry_for(entries, p) == entry_for(entries, q),
        has_entry(entries, p) == has_entry(entries, q),
    decreases entries.len(),
{
    if entries.len() > 0 {
        lemma_entry_for_same(entries.drop_first(), p, q);
    }
    if has_entry(entries, p) {
        let k = choose|k: int| 0 <= k < entries.len() && #[trigger] same_path(entries[k].0@, p);
        assert(same_path(entries[k].0@, q));
    }
    if has_entry(entries, q) {
        let k = choose|k: int| 0 <= k < entries.len() && #[trigger] same_path(entries[k].0@, q);
        assert(same_path(entries[k].0@, p));
    }
}

/// With one more entry, there is an entry for a path exactly when there was
/// one before or the new key names it.
pub proof fn lemma_has_entry_push(
    entries: Seq<(String, StatEntry)>,
    e: (String, StatEntry),
    x: Seq<char>,
)
    ensures
        has_entry(entries.push(e), x) <==> (has_entry(entries, x) || same_path(e.0@, x)),
{
    let t = entries.push(e);
    if has_entry(t, x) {
        let k = choose|k: int| 0 <= k < t.len() && #[trigger] same_path(t[k].0@, x);
        if k < entries.len() {
            assert(same_path(entries[k].0@, x));
        }
    }
    if has_entry(entries, x) {
        let k = choose|k: int| 0 <= k < entries.len() && #[trigger] same_path(entries[k].0@, x);
        assert(same_path(t[k].0@, x));
    }
    if same_path(e.0@, x) {
        assert(same_path(t[entries.len() as int].0@, x));
    }
}

/// A path that `pre` did not hold may count as created: it is tracked, or no
/// gitignore rules were frozen, or they do not ignore it.
pub open spec fn admitted_new_file(pre: StatSnapshot, path: Seq<char>) -> bool {
    has_path(pre.tracked_files@, path) || match pre.gitignore {
        None => true,
        Some(g) => !gitignore_ignores(g, path, false),
    }
}

/// Among the first `n` keys of `post`, one names the path `p`, which `pre`
/// has no entry for, and that key counts as created.
pub open spec fn created_among(pre: StatSnapshot, post: StatSnapshot, n: int, p: Seq<char>) -> bool {
    exists|k: int|
        0 <= k < n && k < post.entries@.len() && #[trigger] same_path(post.entries@[k].0@, p)
            && !has_entry(pre.entries@, p) && admitted_new_file(pre, post.entries@[k].0@)
}

/// The path `path` appeared between the snapshots and counts as created.
pub open spec fn is_created(pre: StatSnapshot, post: StatSnapshot, path: Seq<char>) -> bool {
    created_among(pre, post, post.entries@.len() as int, path)
}

/// The path `path` disappeared between the snapshots.
pub open spec fn is_deleted(pre: StatSnapshot, post: StatSnapshot, path: Seq<char>) -> bool {
    has_entry(pre.entries@, path) && !has_entry(post.entries@, path)
}

/// The path `path` is in both snapshots with different stat-tuples.
pub open spec fn is_modified(pre: StatSnapshot, post: StatSnapshot, path: Seq<char>) -> bool {
    has_entry(pre.entries@, path) && has_entry(post.entries@, path) && entry_for(
        pre.entries@,
        path,
    ) != entry_for(post.entries@, path)
}

/// The snapshot whose keys a diff reports for modified paths: the one with
/// fewer entries, `pre` on a tie.
pub open spec fn modified_keys_of(pre: StatSnapshot, post: StatSnapshot) -> Seq<(String, StatEntry)> {
    if pre.entries@.len() <= post.entries@.len() {
        pre.entries@
    } else {
        post.entries@
    }
}

/// Result of diffing two snapshots.
#[derive(Debug)]
pub struct StatDiffResult {
    pub created: Vec<String>,
    pub modified: Vec<String>,
    pub deleted: Vec<String>,
}

impl Default for StatDiffResult {
    fn default() -> (r: StatDiffResult)
        ensures
            r.created@.len() == 0 && r.modified@.len() == 0 && r.deleted@.len() == 0,
    {
        StatDiffResult { created: Vec::new(), modified: Vec::new(), deleted: Vec::new() }
    }
}

/// The characters of each string.
pub open spec fn views(s: Seq<String>) -> Seq<Seq<char>> {
    s.map_values(|p: String| p@)
}

/// The paths in `/` form, one after the other.
pub open spec fn posix_paths(paths: Seq<String>) -> Seq<Seq<char>> {
    paths.map_values(|p: String| posix_path(p@))
}

impl StatDiffResult {
    /// All changed paths (created + modified + deleted) as Strings.
    pub fn all_changed_paths(&self) -> (r: Vec<String>)
        ensures
            views(r@) == posix_paths(self.created@) + posix_paths(
                self.modified@,
            ) + posix_paths(self.deleted@),
    {
        let mut r: Vec<String> = Vec::new();
        let ghost all = self.created@ + self.modified@ + self.deleted@;
        let mut i: usize = 0;
        while i < self.created.len()
            invariant
                i <= self.created.len(),
                views(r@) =~= posix_paths(self.created@.take(i as int)),
            decreases self.created.len() - i,
        {
            let p = normalize_to_posix(self.created[i].as_str());
            let ghost old_r = r@;
            r.push(p);
            assert(views(r@) =~= views(old_r).push(p@));
            assert(self.created@.take(i + 1) =~= self.created@.take(i as int).push(
                self.created@[i as int],
            ));
            i = i + 1;
        }
        assert(self.created@.take(i as int) =~= self.created@);
        let mut i: usize = 0;
        while i < self.modified.len()
            invariant
                i <= self.modified.len(),
                views(r@) =~= posix_paths(self.created@) + posix_paths(
                    self.modified@.take(i as int),
                ),
            decreases self.modified.len() - i,
        {
            let p = normalize_to_posix(self.modified[i].as_str());
            let ghost old_r = r@;
            r.push(p);
            assert(views(r@) =~= views(old_r).push(p@));
            assert(self.modified@.take(i + 1) =~= self.modified@.take(i as int).push(
                self.modified@[i as int],
            ));
            i = i + 1;
        }
        assert(self.modified@.take(i as int) =~= self.modified@);
        let mut i: usize = 0;
        while i < self.deleted.len()
            invariant
                i <= self.deleted.len(),
                views(r@) =~= posix_paths(self.created@) + posix_paths(
                    self.modified@,
                ) + posix_paths(self.deleted@.take(i as int)),
            decreases self.deleted.len() - i,
        {
            let p = normalize_to_posix(self.deleted[i].as_str());
            let ghost old_r = r@;
            r.push(p);
            assert(views(r@) =~= views(old_r).push(p@));
            assert(self.deleted@.take(i + 1) =~= self.deleted@.take(i as int).push(
                self.deleted@[i as int],
            ));
            i = i + 1;
        }
        assert(self.deleted@.take(i as int) =~= self.deleted@);
        r
    }

    /// Nothing was created, modified or deleted.
    pub fn is_empty(&self) -> (r: bool)
        ensures
            r == (self.created@.len() == 0 && self.modified@.len() == 0 && self.deleted@.len()
                == 0),
    {
        self.created.len() == 0 && self.modified.len() == 0 && self.deleted.len() == 0
    }
}

/// `p` names one of the paths `paths`.
pub fn contains_path(paths: &Vec<String>, p: &String) -> (r: bool)
    ensures
        r == has_path(paths@, p@),
{
    let mut i: usize = 0;
    while i < paths.len()
        invariant
            i <= paths.len(),
            forall|k: int| 0 <= k < i ==> !same_path(#[trigger] paths@[k]@, p@),
        decreases paths.len() - i,
    {
        if paths_equal(paths[i].as_str(), p.as_str()) {
            return true;
        }
        i = i + 1;
    }
    false
}

/// The index of the entry for the path `path`, if there is one.
pub(crate) fn find_entry(entries: &Vec<(String, StatEntry)>, path: &String) -> (r: Option<usize>)
    ensures
        match r {
            Some(j) => j < entries.len() && same_path(entries@[j as int].0@, path@) && entry_for(
                entries@,
                path@,
            ) == Some(entries@[j as int].1),
            None => !has_entry(entries@, path@),
        },
{
    let mut i: usize = 0;
    while i < entries.len()
        invariant
            i <= entries.len(),
            forall|k: int| 0 <= k < i ==> !same_path(#[trigger] entries@[k].0@, path@),
        decreases entries.len() - i,
    {
        if paths_equal(entries[i].0.as_str(), path.as_str()) {
            proof {
                lemma_entry_for_found(entries@, path@, i as int);
            }
            return Some(i);
        }
        i = i + 1;
    }
    None
}

/// The outcome of a diff: created, modified and deleted paths, each in path
/// order; the created ones as `post` names them, the deleted ones as `pre`
/// names them, the modified ones as the snapshot with fewer entries names
/// them.
pub open spec fn diff_of(pre: StatSnapshot, post: StatSnapshot, d: StatDiffResult) -> bool {
    &&& sorted_paths(d.created@)
    &&& sorted_paths(d.modified@)
    &&& sorted_paths(d.deleted@)
    &&& forall|p: Seq<char>| has_path(d.created@, p) <==> is_created(pre, post, p)
    &&& forall|p: Seq<char>| has_path(d.modified@, p) <==> is_modified(pre, post, p)
    &&& forall|p: Seq<char>| has_path(d.deleted@, p) <==> is_deleted(pre, post, p)
    &&& forall|m: int|
        0 <= m < d.created@.len() ==> is_key(post.entries@, #[trigger] d.created@[m]@)
    &&& forall|m: int|
        0 <= m < d.modified@.len() ==> is_key(modified_keys_of(pre, post), #[trigger] d.modified@[m]@)
    &&& forall|m: int|
        0 <= m < d.deleted@.len() ==> is_key(pre.entries@, #[trigger] d.deleted@[m]@)
}

/// Sorting keeps the paths of a list and the keys its strings are.
proof fn lemma_sorted_keeps(
    before: Seq<String>,
    after: Seq<String>,
    keys: Seq<(String, StatEntry)>,
)
    requires
        forall|s: Seq<char>| #[trigger] has_string(after, s) <==> has_string(before, s),
        forall|m: int| 0 <= m < before.len() ==> is_key(keys, #[trigger] before[m]@),
    ensures
        forall|x: Seq<char>| has_path(after, x) <==> has_path(before, x),
        forall|m: int| 0 <= m < after.len() ==> is_key(keys, #[trigger] after[m]@),
{
    assert forall|x: Seq<char>| has_path(after, x) <==> has_path(before, x) by {
        lemma_same_strings_same_paths(after, before, x);
    }
    assert forall|m: int| 0 <= m < after.len() implies is_key(keys, #[trigger] after[m]@) by {
        assert(has_string(after, after[m]@));
        let k = choose|k: int| 0 <= k < before.len() && #[trigger] before[k]@ == after[m]@;
        assert(is_key(keys, before[k]@));
    }
}

/// Diff two snapshots to find created, modified, and deleted files, each list
/// in path order.
///
/// Uses the pre-snapshot's frozen gitignore rules for filtering of newly
/// created files that were not tracked.
pub fn diff(pre: &StatSnapshot, post: &StatSnapshot) -> (r: StatDiffResult)
    requires
        pre.well_formed(),
        post.well_formed(),
    ensures
        diff_of(*pre, *post, r),
{
    let mut created: Vec<String> = Vec::new();
    let mut i: usize = 0;
    while i < post.entries.len()
        invariant
            i <= post.entries.len(),
            post.well_formed(),
            distinct_paths(created@),
            forall|x: Seq<char>| has_path(created@, x) <==> created_among(*pre, *post, i as int, x),
            forall|m: int| 0 <= m < created.len() ==> is_key(post.entries@, #[trigger] created@[m]@),
        decreases post.entries.len() - i,
    {
        let path = &post.entries[i].0;
        let ghost q = path@;
        let take_it = match find_entry(&pre.entries, path) {
            Some(_) => false,
            None => {
                if contains_path(&pre.tracked_files, path) {
                    true
                } else {
                    match &pre.gitignore {
                        None => true,
                        Some(g) => should_include_new_file(g, path.as_str(), false),
                    }
                }
            },
        };
        assert(take_it == (!has_entry(pre.entries@, q) && admitted_new_file(*pre, q)));
        let ghost old_created = created@;
        if take_it {
            created.push(path.clone());
        }
        proof {
            assert forall|x: Seq<char>| has_path(created@, x) <==> created_among(
                *pre,
                *post,
                i + 1,
                x,
            ) by {
                if take_it {
                    lemma_has_path_push(old_created, post.entries@[i as int].0, x);
                    assert(created@ == old_created.push(post.entries@[i as int].0));
                }
                if same_path(q, x) {
                    lemma_entry_for_same(pre.entries@, q, x);
                }
                if created_among(*pre, *post, i + 1, x) {
                    let k = choose|k: int|
                        0 <= k < i + 1 && k < post.entries@.len() && #[trigger] same_path(
                            post.entries@[k].0@,
                            x,
                        ) && !has_entry(pre.entries@, x) && admitted_new_file(
                            *pre,
                            post.entries@[k].0@,
                        );
                    if k < i {
                        assert(created_among(*pre, *post, i as int, x));
                    } else {
                        assert(same_path(q, x));
                    }
                }
                if created_among(*pre, *post, i as int, x) {
                    let k = choose|k: int|
                        0 <= k < i && k < post.entries@.len() && #[trigger] same_path(
                            post.entries@[k].0@,
                            x,
                        ) && !has_entry(pre.entries@, x) && admitted_new_file(
                            *pre,
                            post.entries@[k].0@,
                        );
                    assert(same_path(post.entries@[k].0@, x));
                }
                if take_it && same_path(q, x) {
                    assert(same_path(post.entries@[i as int].0@, x));
                }
            }
            if take_it {
                assert forall|a: int, b: int| 0 <= a < b < created.len() implies !same_path(
                    created@[a]@,
                    created@[b]@,
                ) by {
                    if b == old_created.len() {
                        let y = old_created[a]@;
                        assert(same_path(old_created[a]@, y));
                        assert(has_path(old_created, y));
                        let k = choose|k: int|
                            0 <= k < i && k < post.entries@.len() && #[trigger] same_path(
                                post.entries@[k].0@,
                                y,
                            ) && !has_entry(pre.entries@, y) && admitted_new_file(
                                *pre,
                                post.entries@[k].0@,
                            );
                        assert(!same_path(post.entries@[k].0@, post.entries@[i as int].0@));
                    } else {
                        assert(created@[a] == old_created[a] && created@[b] == old_created[b]);
                    }
                }
                assert forall|m: int| 0 <= m < created.len() implies is_key(
                    post.entries@,
                    #[trigger] created@[m]@,
                ) by {
                    if m < old_created.len() {
                        assert(created@[m] == old_created[m]);
                    } else {
                        assert(post.entries@[i as int].0@ == created@[m]@);
                    }
                }
            }
        }
        i = i + 1;
    }
    let mut deleted: Vec<String> = Vec::new();
    let mut modified: Vec<String> = Vec::new();
    let pre_fewer = pre.entries.len() <= post.entries.len();
    let mut i: usize = 0;
    while i < pre.entries.len()
        invariant
            i <= pre.entries.len(),
            pre.well_formed(),
            post.well_formed(),
            pre_fewer == (pre.entries@.len() <= post.entries@.len()),
            distinct_paths(deleted@),
            distinct_paths(modified@),
            forall|x: Seq<char>|
                has_path(deleted@, x) <==> (has_entry(pre.entries@.take(i as int), x)
                    && is_deleted(*pre, *post, x)),
            forall|x: Seq<char>|
                has_path(modified@, x) <==> (has_entry(pre.entries@.take(i as int), x)
                    && is_modified(*pre, *post, x)),
            forall|m: int| 0 <= m < deleted.len() ==> is_key(pre.entries@, #[trigger] deleted@[m]@),
            forall|m: int|
                0 <= m < modified.len() ==> is_key(
                    modified_keys_of(*pre, *post),
                    #[trigger] modified@[m]@,
                ),
            forall|m: int|
                0 <= m < modified.len() ==> has_entry(
                    pre.entries@.take(i as int),
                    #[trigger] modified@[m]@,
                ),
        decreases pre.entries.len() - i,
    {
        let path = &pre.entries[i].0;
        let ghost q = path@;
        let ghost before = pre.entries@.take(i as int);
        proof {
            assert(pre.entries@.take(i + 1) =~= before.push(pre.entries@[i as int]));
            assert forall|k: int| 0 <= k < i implies !same_path(
                #[trigger] pre.entries@[k].0@,
                q,
            ) by {}
            lemma_entry_for_found(pre.entries@, q, i as int);
        }
        let found = find_entry(&post.entries, path);
        let is_gone = found.is_none();
        let mut changed_key: Option<String> = None;
        match found {
            None => {},
            Some(j) => {
                if post.entries[j].1 != pre.entries[i].1 {
                    if pre_fewer {
                        changed_key = Some(path.clone());
                    } else {
                        changed_key = Some(post.entries[j].0.clone());
                    }
                }
            },
        }
        assert(is_gone == is_deleted(*pre, *post, q));
        assert(changed_key is Some == is_modified(*pre, *post, q));
        let ghost old_deleted = deleted@;
        let ghost old_modified = modified@;
        let ghost ck = changed_key;
        if is_gone {
            deleted.push(path.clone());
        }
        match changed_key {
            Some(k) => {
                modified.push(k);
            },
            None => {},
        }
        proof {
            assert forall|x: Seq<char>| has_entry(pre.entries@.take(i + 1), x) <==> (has_entry(
                before,
                x,
            ) || same_path(q, x)) by {
                lemma_has_entry_push(before, pre.entries@[i as int], x);
            }
            assert forall|x: Seq<char>|
                has_path(deleted@, x) <==> (has_entry(pre.entries@.take(i + 1), x) && is_deleted(
                    *pre,
                    *post,
                    x,
                )) by {
                if is_gone {
                    lemma_has_path_push(old_deleted, pre.entries@[i as int].0, x);
                    assert(deleted@ == old_deleted.push(pre.entries@[i as int].0));
                }
                if same_path(q, x) {
                    lemma_entry_for_same(pre.entries@, q, x);
                    lemma_entry_for_same(post.entries@, q, x);
                }
            }
            match ck {
                Some(k) => {
                    assert(same_path(k@, q));
                    assert(modified@ == old_modified.push(k));
                },
                None => {},
            }
            assert forall|x: Seq<char>|
                has_path(modified@, x) <==> (has_entry(pre.entries@.take(i + 1), x)
                    && is_modified(*pre, *post, x)) by {
                match ck {
                    Some(k) => {
                        lemma_has_path_push(old_modified, k, x);
                    },
                    None => {},
                }
                if same_path(q, x) {
                    lemma_entry_for_same(pre.entries@, q, x);
                    lemma_entry_for_same(post.entries@, q, x);
                }
            }
            assert forall|a: int, b: int| 0 <= a < b < deleted.len() implies !same_path(
                deleted@[a]@,
                deleted@[b]@,
            ) by {
                if b == old_deleted.len() {
                    let y = old_deleted[a]@;
                    assert(same_path(old_deleted[a]@, y));
                    assert(has_path(old_deleted, y));
                    let k = choose|k: int| 0 <= k < before.len() && #[trigger] same_path(before[k].0@, y);
                    assert(!same_path(pre.entries@[k].0@, q));
                } else {
                    assert(deleted@[a] == old_deleted[a] && deleted@[b] == old_deleted[b]);
                }
            }
            assert forall|a: int, b: int| 0 <= a < b < modified.len() implies !same_path(
                modified@[a]@,
                modified@[b]@,
            ) by {
                if b == old_modified.len() {
                    let y = old_modified[a]@;
                    assert(has_entry(before, y));
                    let k = choose|k: int| 0 <= k < before.len() && #[trigger] same_path(before[k].0@, y);
                    assert(!same_path(pre.entries@[k].0@, q));
                } else {
                    assert(modified@[a] == old_modified[a] && modified@[b] == old_modified[b]);
                }
            }
            assert forall|m: int| 0 <= m < deleted.len() implies is_key(
                pre.entries@,
                #[trigger] deleted@[m]@,
            ) by {
                if m < old_deleted.len() {
                    assert(deleted@[m] == old_deleted[m]);
                } else {
                    assert(pre.entries@[i as int].0@ == deleted@[m]@);
                }
            }
            assert forall|m: int| 0 <= m < modified.len() implies is_key(
                modified_keys_of(*pre, *post),
                #[trigger] modified@[m]@,
            ) && has_entry(pre.entries@.take(i + 1), modified@[m]@) by {
                if m < old_modified.len() {
                    assert(modified@[m] == old_modified[m]);
                    assert(has_entry(before, old_modified[m]@));
                } else {
                    let j = found->0;
                    if pre_fewer {
                        assert(pre.entries@[i as int].0@ == modified@[m]@);
                    } else {
                        assert(post.entries@[j as int].0@ == modified@[m]@);
                    }
                    assert(same_path(q, modified@[m]@));
                }
            }
        }
        i = i + 1;
    }
    proof {
        assert(pre.entries@.take(i as int) =~= pre.entries@);
        assert forall|x: Seq<char>| has_path(created@, x) <==> is_created(*pre, *post, x) by {}
    }
    let created_sorted = sort_paths(created);
    let modified_sorted = sort_paths(modified);
    let deleted_sorted = sort_paths(deleted);
    proof {
        lemma_sorted_keeps(created@, created_sorted@, post.entries@);
        lemma_sorted_keeps(modified@, modified_sorted@, modified_keys_of(*pre, *post));
        lemma_sorted_keeps(deleted@, deleted_sorted@, pre.entries@);
    }
    StatDiffResult { created: created_sorted, modified: modified_sorted, deleted: deleted_sorted }
}

/// What the bash tool handler decided to do.
#[derive(Debug)]
pub enum BashCheckpointAction {
    /// Take a pre-snapshot (PreToolUse).
    TakePreSnapshot,
    /// Files changed — emit a checkpoint with these paths.
    Checkpoint(Vec<String>),
    /// Stat-diff ran but found nothing.
    NoChanges,
    /// An error occurred; fall back to git status.
    Fallback,
}

/// Which hook event triggered the bash tool handler.
#[derive(Debug, Clone, Copy, PartialEq, Eq, Structural)]
pub enum HookEvent {
    PreToolUse,
    PostToolUse,
}

/// Per-agent tool classification.
#[derive(Debug, Clone, Copy, PartialEq, Eq, Structural)]
pub enum ToolClass {
    /// A known file-edit tool (Write, Edit, etc.) — handled by existing preset logic.
    FileEdit,
    /// A bash/shell tool — handled by the stat-diff system.
    Bash,
    /// Unrecognized tool — skip checkpoint.
    Skip,
}

/// Supported AI agents.
#[derive(Debug, Clone, Copy, PartialEq, Eq, Structural)]
pub enum Agent {
    Claude,
    Gemini,
    ContinueCli,
    Droid,
    Amp,
    OpenCode,
}

/// How each agent names its file-edit and shell tools.
pub open spec fn tool_class(agent: Agent, name: Seq<char>) -> ToolClass {
    match agent {
        Agent::Claude => if name == "Write"@ || name == "Edit"@ || name == "MultiEdit"@ {
            ToolClass::FileEdit
        } else if name == "Bash"@ {
            ToolClass::Bash
        } else {
            ToolClass::Skip
        },
        Agent::Gemini => if name == "write_file"@ || name == "replace"@ {
            ToolClass::FileEdit
        } else if name == "shell"@ {
            ToolClass::Bash
        } else {
            ToolClass::Skip
        },
        Agent::ContinueCli => if name == "edit"@ {
            ToolClass::FileEdit
        } else if name == "terminal"@ || name == "local_shell_call"@ {
            ToolClass::Bash
        } else {
            ToolClass::Skip
        },
        Agent::Droid => if name == "ApplyPatch"@ || name == "Edit"@ || name == "Write"@ || name
            == "Create"@ {
            ToolClass::FileEdit
        } else if name == "Bash"@ {
            ToolClass::Bash
        } else {
            ToolClass::Skip
        },
        Agent::Amp => if name == "Write"@ || name == "Edit"@ {
            ToolClass::FileEdit
        } else if name == "Bash"@ {
            ToolClass::Bash
        } else {
            ToolClass::Skip
        },
        Agent::OpenCode => if name == "edit"@ || name == "write"@ {
            ToolClass::FileEdit
        } else if name == "bash"@ || name == "shell"@ {
            ToolClass::Bash
        } else {
            ToolClass::Skip
        },
    }
}

/// Each agent's file-edit tools and shell tools, by name: the first agent
/// edits with `Write`, `Edit`, `MultiEdit` and runs `Bash`; Gemini edits with
/// `write_file`, `replace` and runs `shell`; Continue edits with `edit` and
/// runs `terminal`, `local_shell_call`; Droid edits with `ApplyPatch`,
/// `Edit`, `Write`, `Create` and runs `Bash`; Amp edits with `Write`, `Edit`
/// and runs `Bash`; OpenCode edits with `edit`, `write` and runs `bash`,
/// `shell`. Every other name is skipped.
pub proof fn lemma_tool_classes(agent: Agent, name: Seq<char>)
    ensures
        (tool_class(agent, name) == ToolClass::FileEdit) <==> match agent {
            Agent::Claude => set!["Write"@, "Edit"@, "MultiEdit"@].contains(name),
            Agent::Gemini => set!["write_file"@, "replace"@].contains(name),
            Agent::ContinueCli => set!["edit"@].contains(name),
            Agent::Droid => set!["ApplyPatch"@, "Edit"@, "Write"@, "Create"@].contains(name),
            Agent::Amp => set!["Write"@, "Edit"@].contains(name),
            Agent::OpenCode => set!["edit"@, "write"@].contains(name),
        },
        (tool_class(agent, name) == ToolClass::Bash) <==> match agent {
            Agent::Claude => set!["Bash"@].contains(name),
            Agent::Gemini => set!["shell"@].contains(name),
            Agent::ContinueCli => set!["terminal"@, "local_shell_call"@].contains(name),
            Agent::Droid => set!["Bash"@].contains(name),
            Agent::Amp => set!["Bash"@].contains(name),
            Agent::OpenCode => set!["bash"@, "shell"@].contains(name),
        },
{
    reveal_strlit("Write");
    reveal_strlit("Edit");
    reveal_strlit("MultiEdit");
    reveal_strlit("Bash");
    reveal_strlit("write_file");
    reveal_strlit("replace");
    reveal_strlit("shell");
    reveal_strlit("edit");
    reveal_strlit("terminal");
    reveal_strlit("local_shell_call");
    reveal_strlit("ApplyPatch");
    reveal_strlit("Create");
    reveal_strlit("write");
    reveal_strlit("bash");
    assert("Bash"@ != "Edit"@) by {
        assert("Bash"@[0] != "Edit"@[0]);
    }
    assert("Bash"@.len() != "Write"@.len() && "Bash"@.len() != "MultiEdit"@.len());
    assert("Bash"@.len() != "ApplyPatch"@.len() && "Bash"@.len() != "Create"@.len());
    assert("shell"@.len() != "write_file"@.len() && "shell"@.len() != "replace"@.len());
    assert("terminal"@.len() != "edit"@.len() && "local_shell_call"@.len() != "edit"@.len());
    assert("bash"@ != "edit"@) by {
        assert("bash"@[0] != "edit"@[0]);
    }
    assert("bash"@.len() != "write"@.len() && "shell"@.len() != "edit"@.len());
    assert("shell"@ != "write"@) by {
        assert("shell"@[0] != "write"@[0]);
    }
}

/// Classify a tool name for a given agent.
pub fn classify_tool(agent: Agent, tool_name: &str) -> (r: ToolClass)
    ensures
        r == tool_class(agent, tool_name@),
{
    match agent {
        Agent::Claude => {
            if str_eq(tool_name, "Write") || str_eq(tool_name, "Edit") || str_eq(
                tool_name,
                "MultiEdit",
            ) {
                ToolClass::FileEdit
            } else if str_eq(tool_name, "Bash") {
                ToolClass::Bash
            } else {
                ToolClass::Skip
            }
        },
        Agent::Gemini => {
            if str_eq(tool_name, "write_file") || str_eq(tool_name, "replace") {
                ToolClass::FileEdit
            } else if str_eq(tool_name, "shell") {
                ToolClass::Bash
            } else {
                ToolClass::Skip
            }
        },
        Agent::ContinueCli => {
            if str_eq(tool_name, "edit") {
                ToolClass::FileEdit
            } else if str_eq(tool_name, "terminal") || str_eq(tool_name, "local_shell_call") {
                ToolClass::Bash
            } else {
                ToolClass::Skip
            }
        },
        Agent::Droid => {
            if str_eq(tool_name, "ApplyPatch") || str_eq(tool_name, "Edit") || str_eq(
                tool_name,
                "Write",
            ) || str_eq(tool_name, "Create") {
                ToolClass::FileEdit
            } else if str_eq(tool_name, "Bash") {
                ToolClass::Bash
            } else {
                ToolClass::Skip
            }
        },
        Agent::Amp => {
            if str_eq(tool_name, "Write") || str_eq(tool_name, "Edit") {
                ToolClass::FileEdit
            } else if str_eq(tool_name, "Bash") {
                ToolClass::Bash
            } else {
                ToolClass::Skip
            }
        },
        Agent::OpenCode => {
            if str_eq(tool_name, "edit") || str_eq(tool_name, "write") {
                ToolClass::FileEdit
            } else if str_eq(tool_name, "bash") || str_eq(tool_name, "shell") {
                ToolClass::Bash
            } else {
                ToolClass::Skip
            }
        },
    }
}

/// The snapshot key of a path: the path itself, or, on a case-insensitive
/// file system (macOS, Windows), its lowercase form.
pub open spec fn path_key(p: Seq<char>, fold_case: bool) -> Seq<char> {
    if fold_case {
        lowercased(p)
    } else {
        p
    }
}

/// Normalize a path for use as a snapshot key: lowercase it when the file
/// system ignores case (`fold_case`), else keep it as it is.
pub fn normalize_path(p: &str, fold_case: bool) -> (r: String)
    ensures
        r@ == path_key(p@, fold_case),
{
    if fold_case {
        to_lowercase_text(p)
    } else {
        String::from_str(p)
    }
}

/// On a case-sensitive file system a normalized path is its own key, so
/// normalizing it again gives it back.
pub proof fn lemma_normalize_path_idempotent(p: Seq<char>)
    ensures
        path_key(path_key(p, false), false) == path_key(p, false),
{
}

/// Characters that cannot stand in a snapshot file name.
pub open spec fn unsafe_key_char(c: char) -> bool {
    c == '/' || c == '\\' || c == ':' || c == '*' || c == '?' || c == '"' || c == '<' || c == '>'
        || c == '|'
}

/// The key with every unsafe character replaced by `_`.
pub open spec fn sanitized(key: Seq<char>) -> Seq<char> {
    key.map_values(|c: char| if unsafe_key_char(c) { '_' } else { c })
}

/// Sanitize an invocation key for use as a filename.
pub fn sanitize_key(key: &str) -> (r: String)
    ensures
        r@ == sanitized(key@),
{
    let n = key.unicode_len();
    let mut r = String::new();
    let mut i: usize = 0;
    while i < n
        invariant
            i <= n,
            n == key@.len(),
            r@ =~= sanitized(key@.take(i as int)),
        decreases n - i,
    {
        let c = key.get_char(i);
        if c == '/' || c == '\\' || c == ':' || c == '*' || c == '?' || c == '"' || c == '<' || c
            == '>' || c == '|' {
            push_char(&mut r, '_');
        } else {
            push_char(&mut r, c);
        }
        assert(key@.take(i + 1) =~= key@.take(i as int).push(c));
        i = i + 1;
    }
    assert(key@.take(n as int) =~= key@);
    r
}

/// The key of one tool invocation: `{session_id}:{tool_use_id}`.
pub fn invocation_key(session_id: &str, tool_use_id: &str) -> (r: String)
    ensures
        r@ == session_id@ + seq![':'] + tool_use_id@,
{
    let mut r = String::from_str(session_id);
    push_char(&mut r, ':');
    r.append(tool_use_id);
    r
}

/// Nothing changed between the snapshots.
pub open spec fn unchanged(pre: StatSnapshot, post: StatSnapshot) -> bool {
    forall|p: Seq<char>|
        !is_created(pre, post, p) && !is_modified(pre, post, p) && !is_deleted(pre, post, p)
}

/// A snapshot diffed against itself shows no change: nothing created,
/// modified or deleted.
pub proof fn lemma_same_snapshot_unchanged(s: StatSnapshot, d: StatDiffResult)
    requires
        diff_of(s, s, d),
    ensures
        unchanged(s, s),
        d.created@.len() == 0,
        d.modified@.len() == 0,
        d.deleted@.len() == 0,
{
    if d.created@.len() > 0 {
        let x = d.created@[0]@;
        assert(same_path(d.created@[0]@, x));
        assert(has_path(d.created@, x));
        assert(!is_created(s, s, x));
    }
    if d.modified@.len() > 0 {
        let x = d.modified@[0]@;
        assert(same_path(d.modified@[0]@, x));
        assert(has_path(d.modified@, x));
        assert(!is_modified(s, s, x));
    }
    if d.deleted@.len() > 0 {
        let x = d.deleted@[0]@;
        assert(same_path(d.deleted@[0]@, x));
        assert(has_path(d.deleted@, x));
        assert(!is_deleted(s, s, x));
    }
}

/// A path is at most one of created, modified and deleted.
pub proof fn lemma_change_kinds_disjoint(pre: StatSnapshot, post: StatSnapshot, p: Seq<char>)
    ensures
        !(is_created(pre, post, p) && is_modified(pre, post, p)),
        !(is_created(pre, post, p) && is_deleted(pre, post, p)),
        !(is_modified(pre, post, p) && is_deleted(pre, post, p)),
{
}

/// Sanitizing replaces each of `/ \ : * ? " < > |` by `_` and keeps every
/// other character where it is.
pub proof fn lemma_sanitize_replaces_unsafe(key: Seq<char>)
    ensures
        sanitized(key).len() == key.len(),
        forall|i: int|
            0 <= i < key.len() ==> #[trigger] sanitized(key)[i] == if set![
                '/',
                '\\',
                ':',
                '*',
                '?',
                '"',
                '<',
                '>',
                '|',
            ].contains(key[i]) {
                '_'
            } else {
                key[i]
            },
{
}

/// A sanitized key holds none of the characters a file name cannot hold, and
/// is as long as the key.
pub proof fn lemma_sanitized_is_safe(key: Seq<char>)
    ensures
        sanitized(key).len() == key.len(),
        forall|i: int| 0 <= i < key.len() ==> !unsafe_key_char(#[trigger] sanitized(key)[i]),
{
}

/// What a post-tool hook reports from two snapshots: no change, or a
/// checkpoint of all changed paths in `/` form (created, then modified, then
/// deleted, each in path order).
pub open spec fn diff_action_matches(
    pre: StatSnapshot,
    post: StatSnapshot,
    action: BashCheckpointAction,
) -> bool {
    match action {
        BashCheckpointAction::NoChanges => unchanged(pre, post),
        BashCheckpointAction::Checkpoint(paths) => !unchanged(pre, post) && exists|
            d: StatDiffResult,
        |
            diff_of(pre, post, d) && views(paths@) == posix_paths(d.created@) + posix_paths(
                d.modified@,
            ) + posix_paths(d.deleted@),
        _ => false,
    }
}

/// Diff the snapshots and report the changed paths, if any.
pub fn diff_action(pre: &StatSnapshot, post: &StatSnapshot) -> (r: BashCheckpointAction)
    requires
        pre.well_formed(),
        post.well_formed(),
    ensures
        diff_action_matches(*pre, *post, r),
{
    let d = diff(pre, post);
    if d.is_empty() {
        assert forall|p: Seq<char>|
            !is_created(*pre, *post, p) && !is_modified(*pre, *post, p) && !is_deleted(
                *pre,
                *post,
                p,
            ) by {
            if is_created(*pre, *post, p) {
                assert(has_path(d.created@, p));
            }
            if is_modified(*pre, *post, p) {
                assert(has_path(d.modified@, p));
            }
            if is_deleted(*pre, *post, p) {
                assert(has_path(d.deleted@, p));
            }
        }
        BashCheckpointAction::NoChanges
    } else {
        let paths = d.all_changed_paths();
        proof {
            if d.created@.len() > 0 {
                assert(same_path(d.created@[0]@, d.created@[0]@));
                assert(has_path(d.created@, d.created@[0]@));
                assert(is_created(*pre, *post, d.created@[0]@));
            } else if d.modified@.len() > 0 {
                assert(same_path(d.modified@[0]@, d.modified@[0]@));
                assert(has_path(d.modified@, d.modified@[0]@));
                assert(is_modified(*pre, *post, d.modified@[0]@));
            } else {
                assert(same_path(d.deleted@[0]@, d.deleted@[0]@));
                assert(has_path(d.deleted@, d.deleted@[0]@));
                assert(is_deleted(*pre, *post, d.deleted@[0]@));
            }
            assert(diff_of(*pre, *post, d));
        }
        BashCheckpointAction::Checkpoint(paths)
    }
}

/// What `git status` reported, as a checkpoint action: no change, the changed
/// paths, or a fallback when it failed.
pub fn status_action(status: Option<Vec<String>>) -> (r: BashCheckpointAction)
    ensures
        match status {
            None => r is Fallback,
            Some(paths) => if paths.len() == 0 {
                r is NoChanges
            } else {
                r == BashCheckpointAction::Checkpoint(paths)
            },
        },
{
    match status {
        None => BashCheckpointAction::Fallback,
        Some(paths) => {
            if paths.len() == 0 {
                BashCheckpointAction::NoChanges
            } else {
                BashCheckpointAction::Checkpoint(paths)
            }
        },
    }
}

/// Where the bash tool handler stands between two pieces of outside work.
#[derive(Debug)]
pub enum BashToolState {
    /// Waiting for the pre-snapshot.
    PreSnapshotting,
    /// Waiting for the pre-snapshot to be stored.
    Saving,
    /// Waiting for the stored pre-snapshot to be loaded (and removed).
    Loading,
    /// Waiting for the post-snapshot; holds the pre-snapshot.
    PostSnapshotting(StatSnapshot),
    /// Waiting for gitignore rules rebuilt from the pre-snapshot's repo root;
    /// holds the pre- and post-snapshots.
    Rebuilding(StatSnapshot, StatSnapshot),
    /// Waiting for `git status`.
    StatusFallback,
    /// Done.
    Finished,
}

/// The outside work the handler asks for next, or its final answer.
#[derive(Debug)]
pub enum BashToolRequest {
    /// Clean up stale snapshots (ignoring failure), then take a snapshot.
    CleanupAndSnapshot,
    /// Store this pre-snapshot.
    Save(StatSnapshot),
    /// Load and remove the stored pre-snapshot.
    Load,
    /// Take the post-snapshot.
    PostSnapshot,
    /// Build the gitignore rules of this repo root.
    RebuildGitignore(String),
    /// Run `git status` and collect the changed paths.
    GitStatus,
    /// The handler's result; an error carries its message.
    Done(Result<BashCheckpointAction, String>),
}

/// What the outside work produced.
#[derive(Debug)]
pub enum BashToolEvent {
    /// A snapshot, or `None` when taking it failed.
    SnapshotTaken(Option<StatSnapshot>),
    /// The pre-snapshot was stored, or the error.
    Saved(Result<(), String>),
    /// The stored pre-snapshot (none when it was lost), or the error.
    Loaded(Result<Option<StatSnapshot>, String>),
    /// The rebuilt gitignore rules, or `None` when building them failed.
    GitignoreRebuilt(Option<Gitignore>),
    /// The changed paths `git status` reported, or `None` when it failed.
    GitStatusDone(Option<Vec<String>>),
}

/// Snapshots inside an event have one entry per path.
pub open spec fn event_well_formed(event: BashToolEvent) -> bool {
    match event {
        BashToolEvent::SnapshotTaken(Some(s)) => s.well_formed(),
        BashToolEvent::Loaded(Ok(Some(s))) => s.well_formed(),
        _ => true,
    }
}

/// Snapshots held by a state have one entry per path.
pub open spec fn state_well_formed(state: BashToolState) -> bool {
    match state {
        BashToolState::PostSnapshotting(pre) => pre.well_formed(),
        BashToolState::Rebuilding(pre, post) => pre.well_formed() && post.well_formed(),
        _ => true,
    }
}

/// The event answers the work that the state waits for.
pub open spec fn awaits(state: BashToolState, event: BashToolEvent) -> bool {
    match state {
        BashToolState::PreSnapshotting => event is SnapshotTaken,
        BashToolState::Saving => event is Saved,
        BashToolState::Loading => event is Loaded,
        BashToolState::PostSnapshotting(_) => event is SnapshotTaken,
        BashToolState::Rebuilding(_, _) => event is GitignoreRebuilt,
        BashToolState::StatusFallback => event is GitStatusDone,
        BashToolState::Finished => false,
    }
}

impl BashToolState {
    /// The event answers the work this state waits for.
    pub fn awaits_event(&self, event: &BashToolEvent) -> (r: bool)
        ensures
            r == awaits(*self, *event),
    {
        match self {
            BashToolState::PreSnapshotting => matches!(event, BashToolEvent::SnapshotTaken(_)),
            BashToolState::Saving => matches!(event, BashToolEvent::Saved(_)),
            BashToolState::Loading => matches!(event, BashToolEvent::Loaded(_)),
            BashToolState::PostSnapshotting(_) => matches!(event, BashToolEvent::SnapshotTaken(_)),
            BashToolState::Rebuilding(_, _) => matches!(event, BashToolEvent::GitignoreRebuilt(_)),
            BashToolState::StatusFallback => matches!(event, BashToolEvent::GitStatusDone(_)),
            BashToolState::Finished => false,
        }
    }
}

/// Handle a bash tool invocation: the first step.
///
/// On `PreToolUse`: clean up stale snapshots and take a pre-snapshot.
/// On `PostToolUse`: load the stored pre-snapshot.
pub fn handle_bash_tool(hook_event: HookEvent) -> (r: (BashToolState, BashToolRequest))
    ensures
        hook_event == HookEvent::PreToolUse ==> r.0 is PreSnapshotting && r.1 is CleanupAndSnapshot,
        hook_event == HookEvent::PostToolUse ==> r.0 is Loading && r.1 is Load,
{
    match hook_event {
        HookEvent::PreToolUse => (BashToolState::PreSnapshotting, BashToolRequest::CleanupAndSnapshot),
        HookEvent::PostToolUse => (BashToolState::Loading, BashToolRequest::Load),
    }
}

/// What one step of the handler gives back for `event` in `state`: a state
/// whose snapshots are well formed, a final answer exactly when it is finished,
/// and the request or answer that the event calls for.
pub open spec fn step_outcome(
    state: BashToolState,
    event: BashToolEvent,
    r: (BashToolState, BashToolRequest),
) -> bool {
    &&& state_well_formed(r.0)
    &&& (r.1 is Done <==> r.0 is Finished)
    &&& match (state, event) {
        (BashToolState::PreSnapshotting, BashToolEvent::SnapshotTaken(Some(snap))) => r.0 is Saving
            && r.1 == BashToolRequest::Save(snap),
        (BashToolState::PreSnapshotting, BashToolEvent::SnapshotTaken(None)) => r.1
            == BashToolRequest::Done(Ok(BashCheckpointAction::TakePreSnapshot)),
        (BashToolState::Saving, BashToolEvent::Saved(Ok(()))) => r.1 == BashToolRequest::Done(
            Ok(BashCheckpointAction::TakePreSnapshot),
        ),
        (BashToolState::Saving, BashToolEvent::Saved(Err(e))) => r.1 == BashToolRequest::Done(
            Err(e),
        ),
        (BashToolState::Loading, BashToolEvent::Loaded(Err(e))) => r.1
            == BashToolRequest::Done(Err(e)),
        (BashToolState::Loading, BashToolEvent::Loaded(Ok(None))) => r.0 is StatusFallback
            && r.1 is GitStatus,
        (BashToolState::Loading, BashToolEvent::Loaded(Ok(Some(pre)))) => r.0
            == BashToolState::PostSnapshotting(pre) && r.1 is PostSnapshot,
        (BashToolState::PostSnapshotting(_), BashToolEvent::SnapshotTaken(None)) => r.0 is StatusFallback
            && r.1 is GitStatus,
        (BashToolState::PostSnapshotting(pre), BashToolEvent::SnapshotTaken(Some(post))) => if pre.gitignore is None {
            r.0 == BashToolState::Rebuilding(pre, post) && r.1 == BashToolRequest::RebuildGitignore(
                pre.repo_root,
            )
        } else {
            r.1 matches BashToolRequest::Done(Ok(action)) && diff_action_matches(pre, post, action)
        },
        (BashToolState::Rebuilding(pre, post), BashToolEvent::GitignoreRebuilt(g)) => r.1 matches BashToolRequest::Done(Ok(action))
            && diff_action_matches(StatSnapshot { gitignore: g, ..pre }, post, action),
        (BashToolState::StatusFallback, BashToolEvent::GitStatusDone(None)) => r.1
            == BashToolRequest::Done(Ok(BashCheckpointAction::Fallback)),
        (BashToolState::StatusFallback, BashToolEvent::GitStatusDone(Some(paths))) => if paths.len() == 0 {
            r.1 == BashToolRequest::Done(Ok(BashCheckpointAction::NoChanges))
        } else {
            r.1 == BashToolRequest::Done(Ok(BashCheckpointAction::Checkpoint(paths)))
        },
        _ => true,
    }
}

/// The next step of the bash tool handler, once the outside work that `state`
/// waits for has produced `event`.
///
/// A pre-tool hook always answers `TakePreSnapshot` unless storing the
/// snapshot fails; a post-tool hook diffs the stored pre-snapshot against a
/// fresh one, and falls back to `git status` when the pre-snapshot was lost or
/// the post-snapshot failed.
pub fn bash_tool_step(state: BashToolState, event: BashToolEvent) -> (r: (
    BashToolState,
    BashToolRequest,
))
    requires
        awaits(state, event),
        state_well_formed(state),
        event_well_formed(event),
    ensures
        step_outcome(state, event, r),
{
    match (state, event) {
        (BashToolState::PreSnapshotting, BashToolEvent::SnapshotTaken(Some(snap))) => {
            (BashToolState::Saving, BashToolRequest::Save(snap))
        },
        (BashToolState::PreSnapshotting, BashToolEvent::SnapshotTaken(None)) => {
            // The tool call must not fail; the post-hook falls back to git status.
            (
                BashToolState::Finished,
                BashToolRequest::Done(Ok(BashCheckpointAction::TakePreSnapshot)),
            )
        },
        (BashToolState::Saving, BashToolEvent::Saved(saved)) => {
            match saved {
                Ok(()) => (
                    BashToolState::Finished,
                    BashToolRequest::Done(Ok(BashCheckpointAction::TakePreSnapshot)),
                ),
                Err(e) => (BashToolState::Finished, BashToolRequest::Done(Err(e))),
            }
        },
        (BashToolState::Loading, BashToolEvent::Loaded(loaded)) => {
            match loaded {
                Err(e) => (BashToolState::Finished, BashToolRequest::Done(Err(e))),
                Ok(None) => (BashToolState::StatusFallback, BashToolRequest::GitStatus),
                Ok(Some(pre)) => (BashToolState::PostSnapshotting(pre), BashToolRequest::PostSnapshot),
            }
        },
        (BashToolState::PostSnapshotting(pre), BashToolEvent::SnapshotTaken(taken)) => {
            match taken {
                None => (BashToolState::StatusFallback, BashToolRequest::GitStatus),
                Some(post) => {
                    if pre.gitignore.is_none() {
                        let root = pre.repo_root.clone();
                        (BashToolState::Rebuilding(pre, post), BashToolRequest::RebuildGitignore(root))
                    } else {
                        let action = diff_action(&pre, &post);
                        (BashToolState::Finished, BashToolRequest::Done(Ok(action)))
                    }
                },
            }
        },
        (BashToolState::Rebuilding(pre, post), BashToolEvent::GitignoreRebuilt(g)) => {
            let mut pre = pre;
            pre.gitignore = g;
            let action = diff_action(&pre, &post);
            (BashToolState::Finished, BashToolRequest::Done(Ok(action)))
        },
        (BashToolState::StatusFallback, BashToolEvent::GitStatusDone(status)) => {
            let action = status_action(status);
            (BashToolState::Finished, BashToolRequest::Done(Ok(action)))
        },
        (_, _) => {
            assert(false);
            (BashToolState::Finished, BashToolRequest::Done(Ok(BashCheckpointAction::Fallback)))
        },
    }
}

/// A hook's answer from two snapshots is exactly their diff: no change when
/// nothing was created, modified or deleted, else a checkpoint of the changed
/// paths, which is never empty.
pub proof fn lemma_diff_action_reports_diff(
    pre: StatSnapshot,
    post: StatSnapshot,
    action: BashCheckpointAction,
)
    requires
        diff_action_matches(pre, post, action),
    ensures
        action is NoChanges || action is Checkpoint,
        action is NoChanges <==> unchanged(pre, post),
        action matches BashCheckpointAction::Checkpoint(paths) ==> paths.len() > 0,
{
    match action {
        BashCheckpointAction::Checkpoint(paths) => {
            let p = choose|p: Seq<char>|
                !(!is_created(pre, post, p) && !is_modified(pre, post, p) && !is_deleted(
                    pre,
                    post,
                    p,
                ));
            let d = choose|d: StatDiffResult|
                diff_of(pre, post, d) && views(paths@) == posix_paths(d.created@) + posix_paths(
                    d.modified@,
                ) + posix_paths(d.deleted@);
            if is_created(pre, post, p) {
                assert(has_path(d.created@, p));
            } else if is_modified(pre, post, p) {
                assert(has_path(d.modified@, p));
            } else {
                assert(has_path(d.deleted@, p));
            }
            assert(d.created@.len() + d.modified@.len() + d.deleted@.len() > 0);
            assert(views(paths@).len() == paths@.len());
        },
        _ => {},
    }
}

/// A pre-tool hook that took the snapshot `pre` asks to store exactly it
/// (step `s0`); a post-tool hook that loads it back and takes the snapshot
/// `post` answers with their diff. The post-tool steps of the handler are
/// `s1`, on the loaded snapshot, `s2`, on the post-snapshot, and, when `pre`
/// froze no gitignore rules, `s3`, on the rules `g` rebuilt from its repo
/// root, which the diff then uses. The answer is no change exactly when
/// nothing was created, modified or deleted, else a checkpoint of the changed
/// paths, never empty.
pub proof fn lemma_post_hook_reports_diff(
    pre: StatSnapshot,
    post: StatSnapshot,
    g: Option<Gitignore>,
    s0: (BashToolState, BashToolRequest),
    s1: (BashToolState, BashToolRequest),
    s2: (BashToolState, BashToolRequest),
    s3: (BashToolState, BashToolRequest),
)
    requires
        step_outcome(BashToolState::PreSnapshotting, BashToolEvent::SnapshotTaken(Some(pre)), s0),
        step_outcome(BashToolState::Loading, BashToolEvent::Loaded(Ok(Some(pre))), s1),
        step_outcome(s1.0, BashToolEvent::SnapshotTaken(Some(post)), s2),
        pre.gitignore is None ==> step_outcome(s2.0, BashToolEvent::GitignoreRebuilt(g), s3),
    ensures
        ({
            let base = if pre.gitignore is None {
                StatSnapshot { gitignore: g, ..pre }
            } else {
                pre
            };
            let answer = if pre.gitignore is None {
                s3.1
            } else {
                s2.1
            };
            &&& s0.1 == BashToolRequest::Save(pre)
            &&& answer matches BashToolRequest::Done(Ok(action))
            &&& diff_action_matches(base, post, action)
            &&& (action is NoChanges <==> unchanged(base, post))
            &&& (action matches BashCheckpointAction::Checkpoint(paths) ==> paths.len() > 0)
            &&& (action is NoChanges || action is Checkpoint)
        }),
{
    let base = if pre.gitignore is None {
        StatSnapshot { gitignore: g, ..pre }
    } else {
        pre
    };
    let answer = if pre.gitignore is None {
        s3.1
    } else {
        s2.1
    };
    assert(s1.0 == BashToolState::PostSnapshotting(pre));
    if pre.gitignore is None {
        assert(s2.0 == BashToolState::Rebuilding(pre, post));
    }
    if let BashToolRequest::Done(Ok(action)) = answer {
        lemma_diff_action_reports_diff(base, post, action);
    }
}

/// Loading takes the stored pre-snapshot away, so a post-tool hook run again
/// for the same invocation finds none (`Loaded(Ok(None))`): its step `t1`
/// falls back to `git status`, and its step `t2`, on what `git status`
/// reported, answers the fallback when it failed, no change when it listed
/// nothing, and else a checkpoint of the listed paths.
pub proof fn lemma_repeated_post_hook_falls_back(
    status: Option<Vec<String>>,
    t1: (BashToolState, BashToolRequest),
    t2: (BashToolState, BashToolRequest),
)
    requires
        step_outcome(BashToolState::Loading, BashToolEvent::Loaded(Ok(None)), t1),
        step_outcome(t1.0, BashToolEvent::GitStatusDone(status), t2),
    ensures
        t1.0 is StatusFallback,
        t1.1 is GitStatus,
        match status {
            None => t2.1 == BashToolRequest::Done(Ok(BashCheckpointAction::Fallback)),
            Some(paths) => if paths.len() == 0 {
                t2.1 == BashToolRequest::Done(Ok(BashCheckpointAction::NoChanges))
            } else {
                t2.1 == BashToolRequest::Done(Ok(BashCheckpointAction::Checkpoint(paths)))
            },
        },
{
}

} // verus!
