//! Assembling a stat snapshot of a working tree: which walked files enter it,
//! which tracked files still need a stat, and the snapshot that results.
use crate::bash_tool::{
    contains_path, distinct_keys, entry_for, find_entry, gitignore_ignores, has_entry, invocation_key,
    is_key, lemma_entry_for_key, lemma_entry_for_none, lemma_has_entry_push, normalize_path, path_key,
    sanitize_key, sanitized, should_include_new_file, StatEntry, StatSnapshot,
};
use crate::path_order::{has_path, same_path};
use ignore::gitignore::Gitignore;
use vstd::prelude::*;
use vstd::string::*;

verus! {

/// Repo size threshold; above this, the snapshot is refused and git status
/// serves instead.
pub const MAX_TRACKED_FILES: usize = 500000;

/// Pre-snapshots older than this many seconds are garbage-collected.
pub const SNAPSHOT_STALE_SECS: u64 = 300;

/// The refusal of a repository with too many tracked files.
pub open spec fn too_many_tracked_message() -> Seq<char> {
    "Repo exceeds 500000 tracked files; use git status fallback"@
}

/// Refuse to snapshot a repository with more than `MAX_TRACKED_FILES`
/// tracked files.
pub fn check_tracked_count(count: usize) -> (r: Result<(), String>)
    ensures
        r is Err <==> count > MAX_TRACKED_FILES,
        r matches Err(m) ==> m@ == too_many_tracked_message(),
{
    if count > MAX_TRACKED_FILES {
        Err(String::from_str("Repo exceeds 500000 tracked files; use git status fallback"))
    } else {
        Ok(())
    }
}

/// A snapshot file older than `age_secs` seconds is stale.
pub fn is_stale_snapshot(age_secs: u64) -> (r: bool)
    ensures
        r == (age_secs > SNAPSHOT_STALE_SECS),
{
    age_secs > SNAPSHOT_STALE_SECS
}

/// The cache file name of a snapshot: its sanitized invocation key and
/// `.json`.
pub fn snapshot_file_name(invocation_key: &str) -> (r: String)
    ensures
        r@ == sanitized(invocation_key@) + ".json"@,
{
    let mut r = sanitize_key(invocation_key);
    r.append(".json");
    r
}

/// The keys of the tracked paths, in order, that have no entry yet.
pub open spec fn not_yet_recorded(
    git_files: Seq<String>,
    entries: Seq<(String, StatEntry)>,
    fold_case: bool,
) -> Seq<Seq<char>>
    decreases git_files.len(),
{
    if git_files.len() == 0 {
        Seq::empty()
    } else {
        let rest = not_yet_recorded(git_files.drop_last(), entries, fold_case);
        let key = path_key(git_files.last()@, fold_case);
        if has_entry(entries, key) {
            rest
        } else {
            rest.push(key)
        }
    }
}

/// Once every path that was not yet recorded has an entry, and no entry was
/// dropped, no tracked file is missing: tracked files always enter the
/// snapshot when they can be stat'ed.
pub proof fn lemma_missing_then_recorded(
    files: Seq<String>,
    before: Seq<(String, StatEntry)>,
    after: Seq<(String, StatEntry)>,
    fold_case: bool,
)
    requires
        forall|p: Seq<char>| #[trigger] has_entry(before, p) ==> has_entry(after, p),
        forall|i: int|
            0 <= i < not_yet_recorded(files, before, fold_case).len() ==> has_entry(
                after,
                #[trigger] not_yet_recorded(files, before, fold_case)[i],
            ),
    ensures
        not_yet_recorded(files, after, fold_case).len() == 0,
    decreases files.len(),
{
    if files.len() > 0 {
        let rest = not_yet_recorded(files.drop_last(), before, fold_case);
        let key = path_key(files.last()@, fold_case);
        assert forall|i: int| 0 <= i < rest.len() implies has_entry(
            after,
            #[trigger] not_yet_recorded(files.drop_last(), before, fold_case)[i],
        ) by {
            if !has_entry(before, key) {
                assert(not_yet_recorded(files, before, fold_case) == rest.push(key));
                assert(not_yet_recorded(files, before, fold_case)[i] == rest[i]);
            } else {
                assert(not_yet_recorded(files, before, fold_case) == rest);
            }
            assert(has_entry(after, not_yet_recorded(files, before, fold_case)[i]));
        }
        lemma_missing_then_recorded(files.drop_last(), before, after, fold_case);
        if !has_entry(before, key) {
            assert(not_yet_recorded(files, before, fold_case)[rest.len() as int] == key);
        }
    }
}

/// The characters of each path.
pub open spec fn path_texts(s: Seq<String>) -> Seq<Seq<char>> {
    s.map_values(|p: String| p@)
}

/// A snapshot being taken: the entries recorded so far, with the tracked
/// files and frozen gitignore rules that decide what enters it.
pub struct SnapshotBuilder {
    entries: Vec<(String, StatEntry)>,
    tracked_files: Vec<String>,
    gitignore: Gitignore,
    invocation_key: String,
    repo_root: String,
    fold_case: bool,
}

impl SnapshotBuilder {
    /// The entries recorded so far, each with the key it was first recorded
    /// under.
    pub closed spec fn entries(&self) -> Seq<(String, StatEntry)> {
        self.entries@
    }

    /// The git-tracked files.
    pub closed spec fn git_files(&self) -> Seq<String> {
        self.tracked_files@
    }

    /// The frozen gitignore rules.
    pub closed spec fn matcher(&self) -> Gitignore {
        self.gitignore
    }

    /// The invocation key.
    pub closed spec fn key(&self) -> Seq<char> {
        self.invocation_key@
    }

    /// The repository root.
    pub closed spec fn root(&self) -> Seq<char> {
        self.repo_root@
    }

    /// Paths are keyed in lowercase (a case-insensitive file system).
    pub closed spec fn folds_case(&self) -> bool {
        self.fold_case
    }

    /// Each path is recorded once.
    pub closed spec fn well_formed(&self) -> bool {
        distinct_keys(self.entries@)
    }

    /// Start a snapshot of `repo_root` for one tool invocation, with no
    /// entry yet; `tracked_files` are keys already, and paths are keyed in
    /// lowercase when `fold_case`.
    pub fn new(
        repo_root: String,
        session_id: &str,
        tool_use_id: &str,
        tracked_files: Vec<String>,
        gitignore: Gitignore,
        fold_case: bool,
    ) -> (r: SnapshotBuilder)
        ensures
            r.folds_case() == fold_case,
            r.well_formed(),
            r.entries().len() == 0,
            r.git_files() == tracked_files@,
            r.matcher() == gitignore,
            r.key() == session_id@ + seq![':'] + tool_use_id@,
            r.root() == repo_root@,
    {
        SnapshotBuilder {
            entries: Vec::new(),
            tracked_files,
            gitignore,
            invocation_key: invocation_key(session_id, tool_use_id),
            repo_root,
            fold_case,
        }
    }

    /// A walked file (path relative to the root) enters the snapshot when its
    /// key is tracked, or when the frozen rules do not ignore it.
    pub fn admits(&self, rel_path: &str) -> (r: bool)
        ensures
            r == (has_path(self.git_files(), path_key(rel_path@, self.folds_case())) || !gitignore_ignores(
                self.matcher(),
                rel_path@,
                false,
            )),
    {
        let normalized = normalize_path(rel_path, self.fold_case);
        contains_path(&self.tracked_files, &normalized) || should_include_new_file(
            &self.gitignore,
            rel_path,
            false,
        )
    }

    /// Record the stat of `rel_path` under its key: a path that already has an
    /// entry keeps its key and takes the new stat.
    pub fn record(&mut self, rel_path: &str, entry: StatEntry)
        requires
            old(self).well_formed(),
        ensures
            final(self).well_formed(),
            forall|p: Seq<char>|
                #[trigger] has_entry(final(self).entries(), p) <==> (has_entry(old(self).entries(), p)
                    || same_path(path_key(rel_path@, old(self).folds_case()), p)),
            forall|p: Seq<char>|
                #[trigger] entry_for(final(self).entries(), p) == if same_path(
                    path_key(rel_path@, old(self).folds_case()),
                    p,
                ) {
                    Some(entry)
                } else {
                    entry_for(old(self).entries(), p)
                },
            forall|s: Seq<char>|
                #[trigger] is_key(final(self).entries(), s) <==> (is_key(old(self).entries(), s) || (
                !has_entry(old(self).entries(), path_key(rel_path@, old(self).folds_case())) && s
                    == path_key(rel_path@, old(self).folds_case()))),
            final(self).folds_case() == old(self).folds_case(),
            final(self).git_files() == old(self).git_files(),
            final(self).matcher() == old(self).matcher(),
            final(self).key() == old(self).key(),
            final(self).root() == old(self).root(),
    {
        let normalized = normalize_path(rel_path, self.fold_case);
        let ghost key = normalized@;
        let ghost before = self.entries@;
        match find_entry(&self.entries, &normalized) {
            Some(j) => {
                let k = self.entries[j].0.clone();
                self.entries.set(j, (k, entry));
                proof {
                    let after = self.entries@;
                    assert forall|a: int, b: int| 0 <= a < b < after.len() implies !same_path(
                        after[a].0@,
                        after[b].0@,
                    ) by {
                        assert(after[a].0@ == before[a].0@ && after[b].0@ == before[b].0@);
                    }
                    assert forall|p: Seq<char>| #[trigger] has_entry(after, p) <==> (has_entry(
                        before,
                        p,
                    ) || same_path(key, p)) by {
                        if has_entry(after, p) {
                            let i = choose|i: int| 0 <= i < after.len() && #[trigger] same_path(after[i].0@, p);
                            assert(same_path(before[i].0@, p));
                        }
                        if has_entry(before, p) {
                            let i = choose|i: int| 0 <= i < before.len() && #[trigger] same_path(before[i].0@, p);
                            assert(same_path(after[i].0@, p));
                        }
                        if same_path(key, p) {
                            assert(same_path(after[j as int].0@, p));
                        }
                    }
                    assert forall|p: Seq<char>| #[trigger] entry_for(after, p) == if same_path(
                        key,
                        p,
                    ) {
                        Some(entry)
                    } else {
                        entry_for(before, p)
                    } by {
                        if same_path(key, p) {
                            lemma_entry_for_key(after, p, j as int);
                        } else if has_entry(before, p) {
                            let i = choose|i: int| 0 <= i < before.len() && #[trigger] same_path(before[i].0@, p);
                            assert(i != j);
                            assert(after[i] == before[i]);
                            lemma_entry_for_key(after, p, i);
                            lemma_entry_for_key(before, p, i);
                        } else {
                            assert(!has_entry(after, p));
                            lemma_entry_for_none(after, p);
                            lemma_entry_for_none(before, p);
                        }
                    }
                    assert forall|s: Seq<char>| #[trigger] is_key(after, s) <==> is_key(before, s) by {
                        if is_key(after, s) {
                            let i = choose|i: int| 0 <= i < after.len() && #[trigger] after[i].0@ == s;
                            assert(before[i].0@ == s);
                        }
                        if is_key(before, s) {
                            let i = choose|i: int| 0 <= i < before.len() && #[trigger] before[i].0@ == s;
                            assert(after[i].0@ == s);
                        }
                    }
                    assert(has_entry(before, key));
                }
            },
            None => {
                self.entries.push((normalized, entry));
                proof {
                    let after = self.entries@;
                    assert(after == before.push((after[before.len() as int].0, entry)));
                    assert forall|a: int, b: int| 0 <= a < b < after.len() implies !same_path(
                        after[a].0@,
                        after[b].0@,
                    ) by {
                        if b == before.len() {
                            assert(!same_path(before[a].0@, key));
                        } else {
                            assert(after[a] == before[a] && after[b] == before[b]);
                        }
                    }
                    assert forall|p: Seq<char>| #[trigger] has_entry(after, p) <==> (has_entry(
                        before,
                        p,
                    ) || same_path(key, p)) by {
                        lemma_has_entry_push(before, after[before.len() as int], p);
                    }
                    assert forall|p: Seq<char>| #[trigger] entry_for(after, p) == if same_path(
                        key,
                        p,
                    ) {
                        Some(entry)
                    } else {
                        entry_for(before, p)
                    } by {
                        if same_path(key, p) {
                            lemma_entry_for_key(after, p, before.len() as int);
                        } else if has_entry(before, p) {
                            let i = choose|i: int| 0 <= i < before.len() && #[trigger] same_path(before[i].0@, p);
                            assert(after[i] == before[i]);
                            lemma_entry_for_key(after, p, i);
                            lemma_entry_for_key(before, p, i);
                        } else {
                            lemma_has_entry_push(before, after[before.len() as int], p);
                            lemma_entry_for_none(after, p);
                            lemma_entry_for_none(before, p);
                        }
                    }
                    assert forall|s: Seq<char>| #[trigger] is_key(after, s) <==> (is_key(before, s)
                        || s == key) by {
                        if is_key(after, s) {
                            let i = choose|i: int| 0 <= i < after.len() && #[trigger] after[i].0@ == s;
                            if i < before.len() {
                                assert(before[i].0@ == s);
                            }
                        }
                        if is_key(before, s) {
                            let i = choose|i: int| 0 <= i < before.len() && #[trigger] before[i].0@ == s;
                            assert(after[i].0@ == s);
                        }
                        if s == key {
                            assert(after[before.len() as int].0@ == s);
                        }
                    }
                }
            },
        }
    }

    /// The keys of the tracked files, in order, that have no entry yet: the
    /// walk skipped them, and each needs a stat of its own.
    pub fn missing_tracked(&self) -> (r: Vec<String>)
        requires
            self.well_formed(),
        ensures
            path_texts(r@) == not_yet_recorded(self.git_files(), self.entries(), self.folds_case()),
    {
        let mut r: Vec<String> = Vec::new();
        let mut i: usize = 0;
        while i < self.tracked_files.len()
            invariant
                i <= self.tracked_files.len(),
                path_texts(r@) =~= not_yet_recorded(
                    self.tracked_files@.take(i as int),
                    self.entries@,
                    self.fold_case,
                ),
            decreases self.tracked_files.len() - i,
        {
            let ghost prefix = self.tracked_files@.take(i + 1);
            assert(prefix.drop_last() =~= self.tracked_files@.take(i as int));
            let path = normalize_path(self.tracked_files[i].as_str(), self.fold_case);
            let recorded = find_entry(&self.entries, &path);
            if recorded.is_none() {
                let ghost before = path_texts(r@);
                r.push(path);
                assert(path_texts(r@) =~= before.push(path@));
            } else {
                let j = recorded.unwrap();
                assert(same_path(self.entries@[j as int].0@, path@));
            }
            i = i + 1;
        }
        assert(self.tracked_files@.take(self.tracked_files.len() as int) =~= self.tracked_files@);
        r
    }

    /// The snapshot: the recorded entries, the tracked files, the frozen
    /// rules, the invocation key and the root.
    pub fn finish(self) -> (r: StatSnapshot)
        requires
            self.well_formed(),
        ensures
            r.well_formed(),
            r.entries@ == self.entries(),
            r.tracked_files@ == self.git_files(),
            r.gitignore == Some(self.matcher()),
            r.invocation_key@ == self.key(),
            r.repo_root@ == self.root(),
    {
        let SnapshotBuilder { entries, tracked_files, gitignore, invocation_key, repo_root, .. } =
            self;
        StatSnapshot { entries, tracked_files, gitignore: Some(gitignore), invocation_key, repo_root }
    }
}

} // verus!
