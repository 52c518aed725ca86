//! Commit statistics from the hunks of a commit's diff and its authorship
//! log.
use crate::attestation::{find_key, has_key, lemma_lookup_keys, lookup, unique_keys, AuthorshipLog, FileAttestation};
use crate::commit_stats::{
    added_total, contributors_surfaced, deleted_total, diff_line_totals, git_diff_totals,
    log_contributors_well_formed,
    stats_from_authorship_log, stats_match,
    CommitStats, DiffHunk,
};
use crate::stats::{
    accepted_lines_from_attestations, accepted_tally, lemma_all_sorted_listed, listed_sorted, sorted,
    tally_files, Tally,
};
use vstd::prelude::*;

verus! {

/// Line numbers in strictly increasing order: sorted, each once.
pub open spec fn strictly_increasing(a: Seq<u32>) -> bool {
    forall|i: int, j: int| 0 <= i < j < a.len() ==> a[i] < a[j]
}

/// Add `x` to sorted, duplicate-free line numbers.
pub fn insert_line(lines: &mut Vec<u32>, x: u32)
    requires
        strictly_increasing(old(lines)@),
    ensures
        strictly_increasing(final(lines)@),
        forall|y: u32| #[trigger] final(lines)@.contains(y) <==> (old(lines)@.contains(y) || y == x),
{
    let mut p: usize = 0;
    while p < lines.len() && lines[p] < x
        invariant
            p <= lines.len(),
            forall|k: int| 0 <= k < p ==> lines@[k] < x,
        decreases lines.len() - p,
    {
        p = p + 1;
    }
    if p < lines.len() && lines[p] == x {
        return ;
    }
    let ghost before = lines@;
    lines.insert(p, x);
    proof {
        let after = lines@;
        assert(after =~= before.insert(p as int, x));
        assert forall|i: int, j: int| 0 <= i < j < after.len() implies after[i] < after[j] by {
            if j < p {
            } else if j == p {
            } else if i < p {
                assert(before[j - 1] > before[i] || (j - 1 == i) || before[j - 1] >= x);
                if p < before.len() {
                    assert(before[p as int] > x);
                    assert(before[j - 1] >= before[p as int]);
                }
            } else if i == p {
                assert(before[p as int] >= x);
                assert(before[j - 1] >= before[p as int]);
            } else {
                assert(before[i - 1] < before[j - 1]);
            }
        }
        assert forall|y: u32| after.contains(y) <==> (before.contains(y) || y == x) by {
            if after.contains(y) {
                let k = choose|k: int| 0 <= k < after.len() && after[k] == y;
                if k < p {
                    assert(before[k] == y);
                } else if k > p {
                    assert(before[k - 1] == y);
                }
            }
            if before.contains(y) {
                let k = choose|k: int| 0 <= k < before.len() && before[k] == y;
                if k < p {
                    assert(after[k] == y);
                } else {
                    assert(after[k + 1] == y);
                }
            }
            if y == x {
                assert(after[p as int] == y);
            }
        }
    }
}

/// Among the first `n` hunks, one that counts (not ignored) for file `path`
/// adds line `x`.
pub open spec fn file_adds_line(
    hunks: Seq<DiffHunk>,
    ignored: Seq<bool>,
    n: int,
    path: Seq<char>,
    x: u32,
) -> bool {
    exists|i: int|
        0 <= i < n && !ignored[i] && hunks[i].file_path@ == path
            && #[trigger] hunks[i].added_lines@.contains(x)
}

/// Among the first `n` hunks, one that counts for file `path` adds lines.
pub open spec fn file_has_additions(
    hunks: Seq<DiffHunk>,
    ignored: Seq<bool>,
    n: int,
    path: Seq<char>,
) -> bool {
    exists|i: int|
        0 <= i < n && !ignored[i] && #[trigger] hunks[i].file_path@ == path
            && hunks[i].added_lines@.len() > 0
}

/// `groups` pairs each file that the first `n` hunks add lines to (none for
/// a merge commit) with those lines, sorted and each once; files not ignored.
pub open spec fn grouped_upto(
    groups: Seq<(String, Vec<u32>)>,
    hunks: Seq<DiffHunk>,
    ignored: Seq<bool>,
    is_merge_commit: bool,
    n: int,
) -> bool {
    &&& unique_keys(groups)
    &&& forall|k: Seq<char>|
        #[trigger] has_key(groups, k) <==> (!is_merge_commit && file_has_additions(
            hunks,
            ignored,
            n,
            k,
        ))
    &&& forall|j: int|
        0 <= j < groups.len() ==> strictly_increasing(#[trigger] groups[j].1@)
    &&& forall|j: int, x: u32|
        0 <= j < groups.len() ==> (#[trigger] groups[j].1@.contains(x) <==> file_adds_line(
            hunks,
            ignored,
            n,
            groups[j].0@,
            x,
        ))
}

/// `groups` pairs each file the commit's counted hunks add lines to with
/// those lines, sorted and each once.
pub open spec fn grouped(
    groups: Seq<(String, Vec<u32>)>,
    hunks: Seq<DiffHunk>,
    ignored: Seq<bool>,
    is_merge_commit: bool,
) -> bool {
    grouped_upto(groups, hunks, ignored, is_merge_commit, hunks.len() as int)
}

/// Two strictly increasing sequences with the same elements are equal.
pub proof fn lemma_strictly_increasing_unique(a: Seq<u32>, b: Seq<u32>)
    requires
        strictly_increasing(a),
        strictly_increasing(b),
        forall|y: u32| a.contains(y) <==> b.contains(y),
    ensures
        a == b,
    decreases a.len(),
{
    if a.len() == 0 {
        if b.len() > 0 {
            assert(b.contains(b[0]));
        }
        assert(a =~= b);
    } else {
        assert(a.contains(a[0]));
        assert(b.len() > 0);
        assert(b.contains(b[0]));
        let ia = choose|k: int| 0 <= k < a.len() && a[k] == b[0];
        let ib = choose|k: int| 0 <= k < b.len() && b[k] == a[0];
        assert(a[0] <= a[ia]);
        assert(b[0] <= b[ib]);
        assert(a[0] == b[0]);
        assert forall|y: u32| a.drop_first().contains(y) <==> b.drop_first().contains(y) by {
            if a.drop_first().contains(y) {
                let k = choose|k: int| 0 <= k < a.drop_first().len() && a.drop_first()[k] == y;
                assert(a[k + 1] == y);
                assert(b.contains(y));
                let m = choose|m: int| 0 <= m < b.len() && b[m] == y;
                assert(m != 0);
                assert(b.drop_first()[m - 1] == y);
            }
            if b.drop_first().contains(y) {
                let k = choose|k: int| 0 <= k < b.drop_first().len() && b.drop_first()[k] == y;
                assert(b[k + 1] == y);
                assert(a.contains(y));
                let m = choose|m: int| 0 <= m < a.len() && a[m] == y;
                assert(m != 0);
                assert(a.drop_first()[m - 1] == y);
            }
        }
        lemma_strictly_increasing_unique(a.drop_first(), b.drop_first());
        assert forall|k: int| 0 <= k < a.len() implies a[k] == b[k] by {
            if k > 0 {
                assert(a[k] == a.drop_first()[k - 1]);
                assert(b[k] == b.drop_first()[k - 1]);
            }
        }
        assert(a =~= b);
    }
}

/// Two groupings of the same hunks give every file the same lines.
proof fn lemma_grouped_lookup(
    g1: Seq<(String, Vec<u32>)>,
    g2: Seq<(String, Vec<u32>)>,
    hunks: Seq<DiffHunk>,
    ignored: Seq<bool>,
    is_merge_commit: bool,
    path: Seq<char>,
)
    requires
        grouped(g1, hunks, ignored, is_merge_commit),
        grouped(g2, hunks, ignored, is_merge_commit),
    ensures
        lookup(g1, path) is Some <==> lookup(g2, path) is Some,
        lookup(g1, path) is Some ==> lookup(g1, path)->0@ == lookup(g2, path)->0@,
{
    lemma_lookup_keys(g1, path);
    lemma_lookup_keys(g2, path);
    if has_key(g1, path) {
        assert(has_key(g2, path));
        let i = choose|i: int| 0 <= i < g1.len() && #[trigger] g1[i].0@ == path;
        let j = choose|j: int| 0 <= j < g2.len() && #[trigger] g2[j].0@ == path;
        assert(strictly_increasing(g1[i].1@));
        assert(strictly_increasing(g2[j].1@));
        assert forall|y: u32| g1[i].1@.contains(y) <==> g2[j].1@.contains(y) by {
            assert(g1[i].1@.contains(y) <==> file_adds_line(
                hunks,
                ignored,
                hunks.len() as int,
                path,
                y,
            ));
            assert(g2[j].1@.contains(y) <==> file_adds_line(
                hunks,
                ignored,
                hunks.len() as int,
                path,
                y,
            ));
        }
        lemma_strictly_increasing_unique(g1[i].1@, g2[j].1@);
    }
}

proof fn lemma_tally_files_same(
    files: Seq<FileAttestation>,
    g1: Seq<(String, Vec<u32>)>,
    g2: Seq<(String, Vec<u32>)>,
    log: AuthorshipLog,
    hunks: Seq<DiffHunk>,
    ignored: Seq<bool>,
    is_merge_commit: bool,
)
    requires
        grouped(g1, hunks, ignored, is_merge_commit),
        grouped(g2, hunks, ignored, is_merge_commit),
    ensures
        tally_files(files, g1, log.metadata) == tally_files(files, g2, log.metadata),
    decreases files.len(),
{
    if files.len() > 0 {
        lemma_tally_files_same(files.drop_last(), g1, g2, log, hunks, ignored, is_merge_commit);
        lemma_grouped_lookup(g1, g2, hunks, ignored, is_merge_commit, files.last().file_path@);
    }
}

/// However the counted lines of a commit's hunks are grouped by file, the
/// attestations credit the same totals.
pub proof fn lemma_grouping_determines_tally(
    g1: Seq<(String, Vec<u32>)>,
    g2: Seq<(String, Vec<u32>)>,
    log: Option<AuthorshipLog>,
    hunks: Seq<DiffHunk>,
    ignored: Seq<bool>,
    is_merge_commit: bool,
)
    requires
        grouped(g1, hunks, ignored, is_merge_commit),
        grouped(g2, hunks, ignored, is_merge_commit),
    ensures
        accepted_tally(log, g1, is_merge_commit) == accepted_tally(log, g2, is_merge_commit),
{
    match log {
        Some(l) => {
            lemma_tally_files_same(l.attestations@, g1, g2, l, hunks, ignored, is_merge_commit);
        },
        None => {},
    }
}

/// Add every line of `more` to sorted, duplicate-free line numbers.
fn add_lines(lines: &mut Vec<u32>, more: &Vec<u32>)
    requires
        strictly_increasing(old(lines)@),
    ensures
        strictly_increasing(final(lines)@),
        forall|y: u32| #[trigger] final(lines)@.contains(y) <==> (old(lines)@.contains(y) || more@.contains(y)),
{
    let ghost start = lines@;
    let mut i: usize = 0;
    while i < more.len()
        invariant
            i <= more.len(),
            strictly_increasing(lines@),
            start == old(lines)@,
            forall|y: u32| #[trigger] lines@.contains(y) <==> (start.contains(y) || more@.take(i as int).contains(y)),
        decreases more.len() - i,
    {
        let ghost before = lines@;
        insert_line(lines, more[i]);
        proof {
            assert forall|y: u32| more@.take(i + 1).contains(y) <==> (more@.take(i as int).contains(y)
                || y == more@[i as int]) by {
                if more@.take(i + 1).contains(y) {
                    let k = choose|k: int| 0 <= k < more@.take(i + 1).len() && #[trigger] more@.take(i + 1)[k] == y;
                    if k < i {
                        assert(more@.take(i as int)[k] == y);
                    }
                }
                if more@.take(i as int).contains(y) {
                    let k = choose|k: int| 0 <= k < more@.take(i as int).len() && #[trigger] more@.take(i as int)[k] == y;
                    assert(more@.take(i + 1)[k] == y);
                }
                if y == more@[i as int] {
                    assert(more@.take(i + 1)[i as int] == y);
                }
            }
            assert forall|y: u32| lines@.contains(y) <==> (start.contains(y) || more@.take(
                i + 1,
            ).contains(y)) by {
                assert(lines@.contains(y) <==> (before.contains(y) || y == more@[i as int]));
                assert(before.contains(y) <==> (start.contains(y) || more@.take(i as int).contains(
                    y,
                )));
            }
        }
        i = i + 1;
    }
    assert(more@.take(more.len() as int) =~= more@);
}

/// How the file facts grow by one hunk.
proof fn lemma_one_more_hunk(hunks: Seq<DiffHunk>, ignored: Seq<bool>, n: int)
    requires
        0 <= n < hunks.len(),
        ignored.len() == hunks.len(),
    ensures
        forall|k: Seq<char>|
            #[trigger] file_has_additions(hunks, ignored, n + 1, k) <==> (file_has_additions(
                hunks,
                ignored,
                n,
                k,
            ) || (!ignored[n] && hunks[n].file_path@ == k && hunks[n].added_lines@.len() > 0)),
        forall|k: Seq<char>, x: u32|
            #[trigger] file_adds_line(hunks, ignored, n + 1, k, x) <==> (file_adds_line(
                hunks,
                ignored,
                n,
                k,
                x,
            ) || (!ignored[n] && hunks[n].file_path@ == k && hunks[n].added_lines@.contains(x))),
        forall|k: Seq<char>, x: u32|
            #[trigger] file_adds_line(hunks, ignored, n, k, x) ==> file_has_additions(
                hunks,
                ignored,
                n,
                k,
            ),
{
    assert forall|k: Seq<char>, x: u32| #[trigger]
        file_adds_line(hunks, ignored, n, k, x) implies file_has_additions(hunks, ignored, n, k) by {
        let i = choose|i: int|
            0 <= i < n && !ignored[i] && hunks[i].file_path@ == k
                && #[trigger] hunks[i].added_lines@.contains(x);
        assert(hunks[i].added_lines@.len() > 0);
        assert(hunks[i].file_path@ == k);
    }
    assert forall|k: Seq<char>, x: u32| #[trigger]
        file_adds_line(hunks, ignored, n + 1, k, x) implies (file_adds_line(
        hunks,
        ignored,
        n,
        k,
        x,
    ) || (!ignored[n] && hunks[n].file_path@ == k && hunks[n].added_lines@.contains(x))) by {
        let i = choose|i: int|
            0 <= i < n + 1 && !ignored[i] && hunks[i].file_path@ == k
                && #[trigger] hunks[i].added_lines@.contains(x);
        if i < n {
            assert(file_adds_line(hunks, ignored, n, k, x));
        }
    }
    assert forall|k: Seq<char>| #[trigger]
        file_has_additions(hunks, ignored, n + 1, k) implies (file_has_additions(
        hunks,
        ignored,
        n,
        k,
    ) || (!ignored[n] && hunks[n].file_path@ == k && hunks[n].added_lines@.len() > 0)) by {
        let i = choose|i: int|
            0 <= i < n + 1 && !ignored[i] && #[trigger] hunks[i].file_path@ == k
                && hunks[i].added_lines@.len() > 0;
        if i < n {
            assert(file_has_additions(hunks, ignored, n, k));
        }
    }
    assert forall|k: Seq<char>|
        (file_has_additions(hunks, ignored, n, k) || (!ignored[n] && hunks[n].file_path@ == k
            && hunks[n].added_lines@.len() > 0)) implies #[trigger] file_has_additions(
        hunks,
        ignored,
        n + 1,
        k,
    ) by {
        if file_has_additions(hunks, ignored, n, k) {
            let i = choose|i: int|
                0 <= i < n && !ignored[i] && #[trigger] hunks[i].file_path@ == k
                    && hunks[i].added_lines@.len() > 0;
            assert(hunks[i].file_path@ == k);
        } else {
            assert(hunks[n].file_path@ == k);
        }
    }
    assert forall|k: Seq<char>, x: u32|
        (file_adds_line(hunks, ignored, n, k, x) || (!ignored[n] && hunks[n].file_path@ == k
            && hunks[n].added_lines@.contains(x))) implies #[trigger] file_adds_line(
        hunks,
        ignored,
        n + 1,
        k,
        x,
    ) by {
        if file_adds_line(hunks, ignored, n, k, x) {
            let i = choose|i: int|
                0 <= i < n && !ignored[i] && hunks[i].file_path@ == k
                    && #[trigger] hunks[i].added_lines@.contains(x);
            assert(hunks[i].added_lines@.contains(x));
        } else {
            assert(hunks[n].added_lines@.contains(x));
        }
    }
}

/// The position of the group of `path`, if it has one.
fn group_position(groups: &Vec<(String, Vec<u32>)>, path: &String) -> (r: Option<usize>)
    ensures
        match r {
            Some(j) => j < groups.len() && groups@[j as int].0@ == path@,
            None => !has_key(groups@, path@),
        },
{
    let mut j: usize = 0;
    while j < groups.len()
        invariant
            j <= groups.len(),
            forall|k: int| 0 <= k < j ==> groups@[k].0@ != path@,
        decreases groups.len() - j,
    {
        if groups[j].0 == *path {
            return Some(j);
        }
        j = j + 1;
    }
    None
}

/// Group the added lines of the counted hunks by file, sorted and each once;
/// a merge commit groups none.
pub fn group_added_lines(hunks: &Vec<DiffHunk>, ignored: &Vec<bool>, is_merge_commit: bool) -> (r:
    Vec<(String, Vec<u32>)>)
    requires
        ignored.len() == hunks.len(),
    ensures
        grouped(r@, hunks@, ignored@, is_merge_commit),
{
    let mut groups: Vec<(String, Vec<u32>)> = Vec::new();
    if is_merge_commit {
        return groups;
    }
    let mut i: usize = 0;
    while i < hunks.len()
        invariant
            i <= hunks.len(),
            ignored.len() == hunks.len(),
            grouped_upto(groups@, hunks@, ignored@, false, i as int),
        decreases hunks.len() - i,
    {
        proof {
            lemma_one_more_hunk(hunks@, ignored@, i as int);
        }
        let ghost before = groups@;
        if !ignored[i] && hunks[i].added_lines.len() > 0 {
            let hunk = &hunks[i];
            match group_position(&groups, &hunk.file_path) {
                Some(j) => {
                    let mut cur = groups[j].1.clone();
                    assert(cur@ =~= groups@[j as int].1@);
                    add_lines(&mut cur, &hunk.added_lines);
                    let key = groups[j].0.clone();
                    groups.set(j, (key, cur));
                    proof {
                        let after = groups@;
                        assert forall|a: int, b: int| 0 <= a < b < after.len() implies after[a].0@
                            != after[b].0@ by {
                            assert(before[a].0@ != before[b].0@);
                        }
                        assert forall|k: Seq<char>| #[trigger] has_key(after, k) <==> has_key(
                            before,
                            k,
                        ) by {
                            if has_key(after, k) {
                                let m = choose|m: int| 0 <= m < after.len() && #[trigger] after[m].0@ == k;
                                assert(before[m].0@ == k);
                            }
                            if has_key(before, k) {
                                let m = choose|m: int| 0 <= m < before.len() && #[trigger] before[m].0@ == k;
                                assert(after[m].0@ == k);
                            }
                        }
                        assert forall|m: int, x: u32|
                            0 <= m < after.len() implies (#[trigger] after[m].1@.contains(x)
                            <==> file_adds_line(hunks@, ignored@, i + 1, after[m].0@, x)) by {
                            if m != j {
                                assert(after[m] == before[m]);
                                assert(before[m].0@ != hunk.file_path@);
                            }
                        }
                        assert forall|m: int| 0 <= m < after.len() implies strictly_increasing(
                            #[trigger] after[m].1@,
                        ) by {
                            if m != j {
                                assert(after[m] == before[m]);
                            }
                        }
                    }
                },
                None => {
                    let mut cur: Vec<u32> = Vec::new();
                    add_lines(&mut cur, &hunk.added_lines);
                    let key = hunk.file_path.clone();
                    groups.push((key, cur));
                    proof {
                        let after = groups@;
                        let path = hunk.file_path@;
                        assert forall|a: int, b: int| 0 <= a < b < after.len() implies after[a].0@
                            != after[b].0@ by {
                            if b == before.len() {
                                assert(before[a].0@ != path);
                            } else {
                                assert(before[a].0@ != before[b].0@);
                            }
                        }
                        assert forall|k: Seq<char>| #[trigger] has_key(after, k) <==> (has_key(
                            before,
                            k,
                        ) || k == path) by {
                            if has_key(after, k) {
                                let m = choose|m: int| 0 <= m < after.len() && #[trigger] after[m].0@ == k;
                                if m < before.len() {
                                    assert(before[m].0@ == k);
                                }
                            }
                            if has_key(before, k) {
                                let m = choose|m: int| 0 <= m < before.len() && #[trigger] before[m].0@ == k;
                                assert(after[m].0@ == k);
                            }
                            if k == path {
                                assert(after[before.len() as int].0@ == k);
                            }
                        }
                        assert forall|m: int, x: u32|
                            0 <= m < after.len() implies (#[trigger] after[m].1@.contains(x)
                            <==> file_adds_line(hunks@, ignored@, i + 1, after[m].0@, x)) by {
                            if m < before.len() {
                                assert(after[m] == before[m]);
                                assert(before[m].0@ != path) by {
                                    assert(has_key(before, before[m].0@));
                                }
                            } else {
                                assert(!file_adds_line(hunks@, ignored@, i as int, path, x)) by {
                                    if file_adds_line(hunks@, ignored@, i as int, path, x) {
                                        assert(file_has_additions(hunks@, ignored@, i as int, path));
                                    }
                                }
                            }
                        }
                        assert forall|m: int| 0 <= m < after.len() implies strictly_increasing(
                            #[trigger] after[m].1@,
                        ) by {
                            if m < before.len() {
                                assert(after[m] == before[m]);
                            }
                        }
                    }
                },
            }
        } else {
            proof {
                assert forall|m: int, x: u32|
                    0 <= m < groups@.len() implies (#[trigger] groups@[m].1@.contains(x)
                    <==> file_adds_line(hunks@, ignored@, i + 1, groups@[m].0@, x)) by {
                    assert(groups@[m].1@.contains(x) <==> file_adds_line(
                        hunks@,
                        ignored@,
                        i as int,
                        groups@[m].0@,
                        x,
                    ));
                    if !ignored@[i as int] {
                        assert(!hunks@[i as int].added_lines@.contains(x));
                    }
                }
            }
        }
        i = i + 1;
    }
    groups
}

/// `groups` is a grouping of the counted added lines of a commit with
/// `parent_count` parents.
pub open spec fn grouped_for_commit(
    groups: Seq<(String, Vec<u32>)>,
    hunks: Seq<DiffHunk>,
    ignored: Seq<bool>,
    parent_count: usize,
) -> bool {
    grouped(groups, hunks, ignored, parent_count > 1)
}

/// The log itself, if there is one.
pub open spec fn owned_log(log: Option<&AuthorshipLog>) -> Option<AuthorshipLog> {
    match log {
        Some(l) => Some(*l),
        None => None,
    }
}

/// Commit statistics from the diff hunks of a commit and its authorship log:
/// the added and deleted lines of the hunks whose files are not ignored
/// (`ignored[i]` tells whether hunk `i`'s file is ignored), and of those added
/// lines, grouped by file (none for a merge commit, more than one parent), the
/// ones that the attestations credit to AI and to known humans.
pub fn stats_for_commit_stats_from_hunks(
    parent_count: usize,
    hunks: &Vec<DiffHunk>,
    ignored: &Vec<bool>,
    authorship_log: Option<&AuthorshipLog>,
) -> (r: CommitStats)
    requires
        ignored.len() == hunks.len(),
        log_contributors_well_formed(authorship_log),
        added_total(hunks@, ignored@) <= u32::MAX,
        deleted_total(hunks@, ignored@) <= u32::MAX,
        forall|g: Seq<(String, Vec<u32>)>|
            #[trigger] grouped_for_commit(g, hunks@, ignored@, parent_count) ==> accepted_tally(
                owned_log(authorship_log),
                g,
                parent_count > 1,
            ).0 <= u32::MAX && accepted_tally(owned_log(authorship_log), g, parent_count > 1).1
                <= u32::MAX,
    ensures
        exists|g: Seq<(String, Vec<u32>)>|
            #[trigger] grouped_for_commit(g, hunks@, ignored@, parent_count) && ({
                let t = accepted_tally(owned_log(authorship_log), g, parent_count > 1);
                stats_match(
                    r,
                    added_total(hunks@, ignored@),
                    deleted_total(hunks@, ignored@),
                    t.0,
                    t.1,
                    t.2,
                )
            }),
        contributors_surfaced(r.contributors, authorship_log),
{
    let is_merge_commit = parent_count > 1;
    let (git_diff_added_lines, git_diff_deleted_lines) = diff_line_totals(hunks, ignored);
    let added_lines_by_file = group_added_lines(hunks, ignored, is_merge_commit);
    let ghost g = added_lines_by_file@;
    assert(grouped_for_commit(g, hunks@, ignored@, parent_count));
    assert forall|i: int| 0 <= i < added_lines_by_file.len() implies sorted(
        #[trigger] added_lines_by_file@[i].1@,
    ) by {
        assert(strictly_increasing(added_lines_by_file@[i].1@));
    }
    assert forall|path: Seq<char>| #[trigger] listed_sorted(added_lines_by_file@, path) by {
        lemma_all_sorted_listed(added_lines_by_file@, path);
    }
    let (ai_accepted, known_human_accepted, ai_accepted_by_tool) = accepted_lines_from_attestations(
        authorship_log,
        &added_lines_by_file,
        is_merge_commit,
    );
    let r = stats_from_authorship_log(
        authorship_log,
        git_diff_added_lines,
        git_diff_deleted_lines,
        ai_accepted,
        known_human_accepted,
        &ai_accepted_by_tool,
    );
    assert(grouped_for_commit(g, hunks@, ignored@, parent_count));
    r
}


/// Commit statistics of a commit with `parent_count` parents, from the hunks
/// of its diff against `diff_from_ref` and its authorship log. A merge commit
/// (more than one parent) has no diff taken: it is counted over no hunks, and
/// `hunks` and `ignored` are not read. The diff totals are those that
/// `get_git_diff_stats` gives for the same hunks.
pub fn stats_for_commit_stats(
    parent_count: usize,
    hunks: &Vec<DiffHunk>,
    ignored: &Vec<bool>,
    authorship_log: Option<&AuthorshipLog>,
) -> (r: CommitStats)
    requires
        log_contributors_well_formed(authorship_log),
        parent_count <= 1 ==> ignored.len() == hunks.len(),
        parent_count <= 1 ==> added_total(hunks@, ignored@) <= u32::MAX,
        parent_count <= 1 ==> deleted_total(hunks@, ignored@) <= u32::MAX,
        parent_count <= 1 ==> forall|g: Seq<(String, Vec<u32>)>|
            #[trigger] grouped_for_commit(g, hunks@, ignored@, parent_count) ==> accepted_tally(
                owned_log(authorship_log),
                g,
                false,
            ).0 <= u32::MAX && accepted_tally(owned_log(authorship_log), g, false).1 <= u32::MAX,
    ensures
        r.git_diff_added_lines as int == git_diff_totals(parent_count, hunks@, ignored@).0,
        r.git_diff_deleted_lines as int == git_diff_totals(parent_count, hunks@, ignored@).1,
        parent_count > 1 ==> stats_match(r, 0, 0, 0, 0, Map::empty()),
        parent_count <= 1 ==> exists|g: Seq<(String, Vec<u32>)>|
            #[trigger] grouped_for_commit(g, hunks@, ignored@, parent_count) && ({
                let t = accepted_tally(owned_log(authorship_log), g, false);
                stats_match(
                    r,
                    added_total(hunks@, ignored@),
                    deleted_total(hunks@, ignored@),
                    t.0,
                    t.1,
                    t.2,
                )
            }),
        contributors_surfaced(r.contributors, authorship_log),
{
    if parent_count > 1 {
        let no_hunks: Vec<DiffHunk> = Vec::new();
        let no_ignored: Vec<bool> = Vec::new();
        proof {
            assert(added_total(no_hunks@, no_ignored@) == 0);
            assert(deleted_total(no_hunks@, no_ignored@) == 0);
        }
        stats_for_commit_stats_from_hunks(parent_count, &no_hunks, &no_ignored, authorship_log)
    } else {
        stats_for_commit_stats_from_hunks(parent_count, hunks, ignored, authorship_log)
    }
}

} // verus!
