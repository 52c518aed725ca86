//! Line totals of a commit's diff and the headline statistics built from them.
use crate::attestation::AuthorshipLog;
use crate::contributors::{copy_contributors, contributors_well_formed, same_contributors, ContributorStats};
use crate::path_order::{
    chars_less, chars_lt, lemma_chars_less_irreflexive, lemma_chars_less_total_from,
    lemma_chars_less_transitive,
};
use crate::string_map::{keys_in_order, StringMap};
use crate::text::str_eq;
use crate::tool_counts::{counts_map, unique_names, ToolModelCounts};
use vstd::prelude::*;
use vstd::string::*;

verus! {

/// The added and deleted line numbers of one hunk of a diff.
#[derive(Debug, Clone)]
pub struct DiffHunk {
    pub file_path: String,
    pub added_lines: Vec<u32>,
    pub deleted_lines: Vec<u32>,
}

/// Added lines of the hunks that are not ignored.
pub open spec fn added_total(hunks: Seq<DiffHunk>, ignored: Seq<bool>) -> int
    decreases hunks.len(),
{
    if hunks.len() == 0 {
        0
    } else {
        added_total(hunks.drop_last(), ignored) + if ignored[hunks.len() - 1] {
            0
        } else {
            hunks.last().added_lines.len() as int
        }
    }
}

/// Deleted lines of the hunks that are not ignored.
pub open spec fn deleted_total(hunks: Seq<DiffHunk>, ignored: Seq<bool>) -> int
    decreases hunks.len(),
{
    if hunks.len() == 0 {
        0
    } else {
        deleted_total(hunks.drop_last(), ignored) + if ignored[hunks.len() - 1] {
            0
        } else {
            hunks.last().deleted_lines.len() as int
        }
    }
}

/// The totals count hunk by hunk: each hunk whose file is not ignored adds
/// its added lines to the added total and its deleted lines to the deleted
/// total; an ignored hunk adds nothing.
pub proof fn lemma_totals_by_hunk(hunks: Seq<DiffHunk>, ignored: Seq<bool>, k: int)
    requires
        0 <= k < hunks.len(),
        ignored.len() == hunks.len(),
    ensures
        added_total(hunks.take(k + 1), ignored) == added_total(hunks.take(k), ignored) + if ignored[k] {
            0
        } else {
            hunks[k].added_lines.len() as int
        },
        deleted_total(hunks.take(k + 1), ignored) == deleted_total(hunks.take(k), ignored)
            + if ignored[k] {
            0
        } else {
            hunks[k].deleted_lines.len() as int
        },
        added_total(Seq::empty(), ignored) == 0,
        deleted_total(Seq::empty(), ignored) == 0,
{
    assert(hunks.take(k + 1).drop_last() =~= hunks.take(k));
}

proof fn lemma_totals_prefix(hunks: Seq<DiffHunk>, ignored: Seq<bool>, k: int)
    requires
        0 <= k <= hunks.len(),
    ensures
        0 <= added_total(hunks.take(k), ignored) <= added_total(hunks, ignored),
        0 <= deleted_total(hunks.take(k), ignored) <= deleted_total(hunks, ignored),
    decreases hunks.len(),
{
    if k < hunks.len() {
        assert(hunks.take(k) =~= hunks.drop_last().take(k));
        lemma_totals_prefix(hunks.drop_last(), ignored, k);
    } else {
        assert(hunks.take(k) =~= hunks);
        if hunks.len() > 0 {
            lemma_totals_prefix(hunks.drop_last(), ignored, 0);
        }
    }
}

/// The added and deleted line totals that a commit with `parent_count`
/// parents shows: none for a merge commit, else those of the hunks of its diff
/// that are not ignored.
pub open spec fn git_diff_totals(parent_count: usize, hunks: Seq<DiffHunk>, ignored: Seq<bool>) -> (
    int,
    int,
) {
    if parent_count > 1 {
        (0, 0)
    } else {
        (added_total(hunks, ignored), deleted_total(hunks, ignored))
    }
}

/// Added and deleted line totals of the hunks of a diff that are not ignored
/// (`ignored[i]` tells whether hunk `i`'s file is ignored).
pub fn diff_line_totals(hunks: &Vec<DiffHunk>, ignored: &Vec<bool>) -> (r: (u32, u32))
    requires
        ignored.len() == hunks.len(),
        added_total(hunks@, ignored@) <= u32::MAX,
        deleted_total(hunks@, ignored@) <= u32::MAX,
    ensures
        r.0 as int == added_total(hunks@, ignored@),
        r.1 as int == deleted_total(hunks@, ignored@),
{
    let mut added_lines: u32 = 0;
    let mut deleted_lines: u32 = 0;
    let mut i: usize = 0;
    while i < hunks.len()
        invariant
            i <= hunks.len(),
            ignored.len() == hunks.len(),
            added_total(hunks@, ignored@) <= u32::MAX,
            deleted_total(hunks@, ignored@) <= u32::MAX,
            added_lines as int == added_total(hunks@.take(i as int), ignored@),
            deleted_lines as int == deleted_total(hunks@.take(i as int), ignored@),
        decreases hunks.len() - i,
    {
        proof {
            assert(hunks@.take(i + 1).drop_last() =~= hunks@.take(i as int));
            lemma_totals_prefix(hunks@, ignored@, i + 1);
        }
        if !ignored[i] {
            let a = hunks[i].added_lines.len();
            let d = hunks[i].deleted_lines.len();
            added_lines = added_lines + a as u32;
            deleted_lines = deleted_lines + d as u32;
        }
        i = i + 1;
    }
    assert(hunks@.take(i as int) =~= hunks@);
    (added_lines, deleted_lines)
}

/// Added and deleted line totals of a commit's diff, leaving out the hunks of
/// ignored files (`ignored[i]` tells whether hunk `i`'s file is ignored). A
/// merge commit (more than one parent) counts `(0, 0)`, as `git show
/// --numstat` shows for a clean merge.
pub fn get_git_diff_stats(parent_count: usize, hunks: &Vec<DiffHunk>, ignored: &Vec<bool>) -> (r: (
    u32,
    u32,
))
    requires
        ignored.len() == hunks.len(),
        parent_count <= 1 ==> added_total(hunks@, ignored@) <= u32::MAX,
        parent_count <= 1 ==> deleted_total(hunks@, ignored@) <= u32::MAX,
    ensures
        r.0 as int == git_diff_totals(parent_count, hunks@, ignored@).0,
        r.1 as int == git_diff_totals(parent_count, hunks@, ignored@).1,
{
    if parent_count > 1 {
        return (0, 0);
    }
    diff_line_totals(hunks, ignored)
}

/// The object id of git's empty tree, the diff base of a root commit.
pub open spec fn empty_tree_oid() -> Seq<char> {
    "4b825dc642cb6eb9a060e54bf8d69288fbee4904"@
}

/// What a commit's diff is taken against: nothing for a merge commit (more
/// than one parent), the empty tree for a root commit, else its first parent.
pub fn diff_from_ref(parent_count: usize, first_parent: &str) -> (r: Option<String>)
    ensures
        parent_count > 1 ==> r is None,
        parent_count == 0 ==> (r matches Some(s) && s@ == empty_tree_oid()),
        parent_count == 1 ==> (r matches Some(s) && s@ == first_parent@),
{
    if parent_count > 1 {
        None
    } else if parent_count == 0 {
        Some(String::from_str("4b825dc642cb6eb9a060e54bf8d69288fbee4904"))
    } else {
        Some(String::from_str(first_parent))
    }
}

/// Lines with AI attribution for one `tool::model`.
#[derive(Debug, Clone, Copy, PartialEq, Eq, Default)]
pub struct ToolModelHeadlineStats {
    /// Number of lines committed with AI attribution
    pub ai_additions: u32,
    /// Number of AI-generated lines that were accepted by the user without any
    /// human edits
    pub ai_accepted: u32,
}

/// Headline line statistics of a commit.
#[derive(Debug, Clone)]
pub struct CommitStats {
    /// Number of lines committed with human attribution
    pub human_additions: u32,
    /// Number of lines with no attestation at all
    pub unknown_additions: u32,
    /// Number of lines committed with AI attribution
    pub ai_additions: u32,
    /// Number of AI-generated lines that were accepted by the user without any
    /// human edits
    pub ai_accepted: u32,
    pub git_diff_deleted_lines: u32,
    pub git_diff_added_lines: u32,
    /// Per `tool::model` breakdown, each name once, in name order.
    pub tool_model_breakdown: Vec<(String, ToolModelHeadlineStats)>,
    /// Per-developer counts, surfaced from the authorship log.
    pub contributors: Option<StringMap<ContributorStats>>,
}

/// `a - b`, or zero when `b` is larger.
pub open spec fn sat_sub(a: int, b: int) -> int {
    if a >= b {
        a - b
    } else {
        0
    }
}

/// The breakdown credits every named `tool::model` with its accepted lines as
/// both its AI additions and its accepted lines, and names nothing else.
pub open spec fn breakdown_matches(
    breakdown: Seq<(String, ToolModelHeadlineStats)>,
    accepted: Map<Seq<char>, int>,
) -> bool {
    &&& forall|i: int, j: int| 0 <= i < j < breakdown.len() ==> breakdown[i].0@ != breakdown[j].0@
    &&& forall|i: int|
        0 <= i < breakdown.len() ==> accepted.contains_key(#[trigger] breakdown[i].0@)
            && breakdown[i].1.ai_accepted as int == accepted[breakdown[i].0@]
            && breakdown[i].1.ai_additions == breakdown[i].1.ai_accepted
    &&& forall|name: Seq<char>|
        #[trigger] accepted.contains_key(name) ==> exists|i: int|
            0 <= i < breakdown.len() && #[trigger] breakdown[i].0@ == name
}

/// The statistics of a commit whose diff adds `added` and deletes `deleted`
/// lines, of which the attestations credit `ai` to AI (`by_tool` of them per
/// `tool::model`) and `human` to known humans: AI additions are the AI lines,
/// human additions the known-human lines, and the rest of the added lines is
/// unknown; the breakdown is in name order.
pub open spec fn stats_match(
    r: CommitStats,
    added: int,
    deleted: int,
    ai: int,
    human: int,
    by_tool: Map<Seq<char>, int>,
) -> bool {
    &&& r.git_diff_added_lines == added
    &&& r.git_diff_deleted_lines == deleted
    &&& r.ai_accepted == ai
    &&& r.ai_additions == ai
    &&& r.human_additions == human
    &&& r.unknown_additions as int == sat_sub(sat_sub(added, ai), human)
    &&& breakdown_matches(r.tool_model_breakdown@, by_tool)
    &&& keys_in_order(r.tool_model_breakdown@)
}

proof fn lemma_counts_keys(s: Seq<(String, u32)>, name: Seq<char>)
    requires
        counts_map(s).contains_key(name),
    ensures
        exists|i: int| 0 <= i < s.len() && #[trigger] s[i].0@ == name,
    decreases s.len(),
{
    if s.last().0@ != name {
        lemma_counts_keys(s.drop_last(), name);
        let i = choose|i: int| 0 <= i < s.drop_last().len() && #[trigger] s.drop_last()[i].0@ == name;
        assert(s[i].0@ == name);
    } else {
        assert(s[s.len() - 1].0@ == name);
    }
}

proof fn lemma_counts_value(s: Seq<(String, u32)>, i: int)
    requires
        unique_names(s),
        0 <= i < s.len(),
    ensures
        counts_map(s).contains_key(s[i].0@),
        counts_map(s)[s[i].0@] == s[i].1 as int,
    decreases s.len(),
{
    if i < s.len() - 1 {
        lemma_counts_value(s.drop_last(), i);
    }
}

/// The log's contributors are well formed, when it has any.
pub open spec fn log_contributors_well_formed(log: Option<&AuthorshipLog>) -> bool {
    match log {
        Some(l) => match l.metadata.contributors {
            Some(c) => contributors_well_formed(c),
            None => true,
        },
        None => true,
    }
}

/// The contributors surfaced from the log: a copy of its contributors when
/// it has some, else none.
pub open spec fn contributors_surfaced(
    r: Option<StringMap<ContributorStats>>,
    log: Option<&AuthorshipLog>,
) -> bool {
    match log {
        Some(l) => match l.metadata.contributors {
            Some(c) => if c@ == Map::<Seq<char>, ContributorStats>::empty() {
                r is None
            } else {
                r matches Some(rc) && same_contributors(rc, c)
            },
            None => r is None,
        },
        None => r is None,
    }
}

/// Commit statistics from diff totals and attested line counts: AI additions
/// are the AI-accepted lines, human additions the known-human lines, and the
/// rest of the added lines is unknown. The log's contributors, if it has
/// any, are surfaced.
pub fn stats_from_authorship_log(
    authorship_log: Option<&AuthorshipLog>,
    git_diff_added_lines: u32,
    git_diff_deleted_lines: u32,
    ai_accepted: u32,
    known_human_accepted: u32,
    ai_accepted_by_tool: &ToolModelCounts,
) -> (r: CommitStats)
    requires
        ai_accepted_by_tool.well_formed(),
        log_contributors_well_formed(authorship_log),
    ensures
        stats_match(
            r,
            git_diff_added_lines as int,
            git_diff_deleted_lines as int,
            ai_accepted as int,
            known_human_accepted as int,
            ai_accepted_by_tool@,
        ),
        contributors_surfaced(r.contributors, authorship_log),
{
    let pairs = ai_accepted_by_tool.to_vec();
    let mut breakdown: Vec<(String, ToolModelHeadlineStats)> = Vec::new();
    let mut i: usize = 0;
    while i < pairs.len()
        invariant
            i <= pairs.len(),
            unique_names(pairs@),
            counts_map(pairs@) == ai_accepted_by_tool@,
            breakdown.len() == i,
            forall|k: int|
                0 <= k < i ==> #[trigger] breakdown@[k].0@ == pairs@[k].0@
                    && breakdown@[k].1.ai_accepted == pairs@[k].1
                    && breakdown@[k].1.ai_additions == pairs@[k].1,
        decreases pairs.len() - i,
    {
        let name = pairs[i].0.clone();
        let accepted = pairs[i].1;
        breakdown.push((name, ToolModelHeadlineStats { ai_additions: accepted, ai_accepted: accepted }));
        i = i + 1;
    }
    proof {
        assert forall|k: int| 0 <= k < breakdown.len() implies ai_accepted_by_tool@.contains_key(
            #[trigger] breakdown@[k].0@,
        ) && breakdown@[k].1.ai_accepted as int == ai_accepted_by_tool@[breakdown@[k].0@] by {
            lemma_counts_value(pairs@, k);
        }
        assert forall|a: int, b: int| 0 <= a < b < breakdown.len() implies chars_less(
            breakdown@[a].0@,
            breakdown@[b].0@,
        ) by {
            assert(breakdown@[a].0@ == pairs@[a].0@ && breakdown@[b].0@ == pairs@[b].0@);
        }
        assert forall|name: Seq<char>| #[trigger]
            ai_accepted_by_tool@.contains_key(name) implies exists|k: int|
            0 <= k < breakdown.len() && #[trigger] breakdown@[k].0@ == name by {
            lemma_counts_keys(pairs@, name);
            let k = choose|k: int| 0 <= k < pairs@.len() && #[trigger] pairs@[k].0@ == name;
            assert(breakdown@[k].0@ == name);
        }
    }
    let unknown_additions = git_diff_added_lines.saturating_sub(ai_accepted).saturating_sub(
        known_human_accepted,
    );
    let contributors = match authorship_log {
        Some(log) => match &log.metadata.contributors {
            Some(c) => {
                proof {
                    c.lemma_empty_iff_no_pairs();
                }
                if c.len() > 0 {
                    Some(copy_contributors(c))
                } else {
                    None
                }
            },
            None => None,
        },
        None => None,
    };
    CommitStats {
        human_additions: known_human_accepted,
        unknown_additions,
        ai_additions: ai_accepted,
        ai_accepted,
        git_diff_deleted_lines,
        git_diff_added_lines,
        tool_model_breakdown: breakdown,
        contributors,
    }
}

/// When the attested lines fit in the diff, human, unknown and AI additions
/// together are exactly the added lines.
pub proof fn lemma_additions_partition_diff(
    git_diff_added_lines: u32,
    ai_accepted: u32,
    known_human_accepted: u32,
)
    requires
        ai_accepted + known_human_accepted <= git_diff_added_lines,
    ensures
        known_human_accepted + sat_sub(
            sat_sub(git_diff_added_lines as int, ai_accepted as int),
            known_human_accepted as int,
        ) + ai_accepted == git_diff_added_lines,
{
}

/// Entry `i` is the last entry of its name.
pub open spec fn last_of_name(breakdown: Seq<(String, ToolModelHeadlineStats)>, i: int) -> bool {
    forall|j: int| i < j < breakdown.len() ==> breakdown[j].0@ != breakdown[i].0@
}

/// Entry `i` ranks at least as high as entry `j`: more accepted lines, or as
/// many and a name that does not come before.
pub open spec fn ranks_above(
    breakdown: Seq<(String, ToolModelHeadlineStats)>,
    i: int,
    j: int,
) -> bool {
    breakdown[j].1.ai_accepted < breakdown[i].1.ai_accepted || (breakdown[j].1.ai_accepted
        == breakdown[i].1.ai_accepted && !chars_less(breakdown[i].0@, breakdown[j].0@))
}

/// The model a summary names as top: of the last entry of each name, the
/// one with the most accepted lines, the greatest name among ties; none when
/// the breakdown is empty.
pub fn top_model(breakdown: &Vec<(String, ToolModelHeadlineStats)>) -> (r: Option<usize>)
    ensures
        r is None <==> breakdown.len() == 0,
        r matches Some(i) ==> i < breakdown.len() && last_of_name(breakdown@, i as int) && forall|
            j: int,
        |
            0 <= j < breakdown.len() && last_of_name(breakdown@, j) ==> #[trigger] ranks_above(
                breakdown@,
                i as int,
                j,
            ),
{
    let n = breakdown.len();
    let mut best: Option<usize> = None;
    let mut j: usize = n;
    while j > 0
        invariant
            j <= n,
            n == breakdown.len(),
            best is None <==> j == n,
            best matches Some(b) ==> j <= b < n && last_of_name(breakdown@, b as int) && forall|
                k: int,
            |
                j <= k < n && last_of_name(breakdown@, k) ==> #[trigger] ranks_above(
                    breakdown@,
                    b as int,
                    k,
                ),
        decreases j,
    {
        j = j - 1;
        let mut later = j + 1;
        let mut is_last = true;
        while later < n
            invariant
                j < n,
                n == breakdown.len(),
                j < later <= n,
                is_last == (forall|k: int| j < k < later ==> breakdown@[k].0@ != breakdown@[j as int].0@),
            decreases n - later,
        {
            if str_eq(breakdown[later].0.as_str(), breakdown[j].0.as_str()) {
                is_last = false;
            }
            later = later + 1;
        }
        if is_last {
            match best {
                None => {
                    best = Some(j);
                    proof {
                        lemma_chars_less_irreflexive(breakdown@[j as int].0@);
                        assert(ranks_above(breakdown@, j as int, j as int));
                    }
                },
                Some(b) => {
                    let vj = breakdown[j].1.ai_accepted;
                    let vb = breakdown[b].1.ai_accepted;
                    let ahead = vj > vb || (vj == vb && chars_lt(
                        breakdown[b].0.as_str(),
                        breakdown[j].0.as_str(),
                    ));
                    proof {
                        let x = breakdown@[j as int].0@;
                        let y = breakdown@[b as int].0@;
                        lemma_chars_less_total_from(x, y, 0);
                        lemma_chars_less_irreflexive(x);
                        assert(x != y);
                    }
                    if ahead {
                        best = Some(j);
                        proof {
                            assert forall|k: int|
                                j <= k < n && last_of_name(breakdown@, k) implies #[trigger] ranks_above(
                                breakdown@,
                                j as int,
                                k,
                            ) by {
                                if k == j {
                                    lemma_chars_less_irreflexive(breakdown@[j as int].0@);
                                } else {
                                    assert(ranks_above(breakdown@, b as int, k));
                                    if breakdown@[k].1.ai_accepted == breakdown@[j as int].1.ai_accepted
                                        && breakdown@[k].1.ai_accepted == breakdown@[b as int].1.ai_accepted {
                                        if chars_less(breakdown@[j as int].0@, breakdown@[k].0@) {
                                            lemma_chars_less_transitive(
                                                breakdown@[b as int].0@,
                                                breakdown@[j as int].0@,
                                                breakdown@[k].0@,
                                            );
                                        }
                                    }
                                }
                            }
                        }
                    } else {
                        proof {
                            assert(ranks_above(breakdown@, b as int, j as int));
                        }
                    }
                },
            }
        }
    }
    best
}

} // verus!
