//! Which added lines of a commit the authorship log attributes to AI and to
//! known humans.
use crate::attestation::{
    find_key, lookup, AttestationEntry, AuthorshipLog, AuthorshipMetadata, FileAttestation,
};
use crate::authorship_log::AgentId;
use crate::line_range::LineRange;
use crate::text::{before_double_colon, has_prefix, head_before_double_colon, join_double_colon};
use crate::tool_counts::{bump, ToolModelCounts};
use vstd::prelude::*;

verus! {

/// Non-decreasing line numbers.
pub open spec fn sorted(a: Seq<u32>) -> bool {
    forall|i: int, j: int| 0 <= i <= j < a.len() ==> a[i] <= a[j]
}

/// How many entries of `a` lie between `start` and `end` (inclusive).
pub open spec fn count_within(a: Seq<u32>, start: int, end: int) -> nat
    decreases a.len(),
{
    if a.len() == 0 {
        0
    } else {
        count_within(a.drop_last(), start, end) + if start <= a.last() <= end {
            1nat
        } else {
            0nat
        }
    }
}

/// How many of the added lines `added` a range claims: a single line counts
/// once if it was added, a range counts every added line inside it.
pub open spec fn overlap_count(range: LineRange, added: Seq<u32>) -> nat {
    match range {
        LineRange::Single(l) => if added.contains(l) {
            1nat
        } else {
            0nat
        },
        LineRange::Range(start, end) => count_within(added, start as int, end as int),
    }
}

/// How many added lines all the ranges of an entry claim together.
pub open spec fn entry_overlap(ranges: Seq<LineRange>, added: Seq<u32>) -> nat
    decreases ranges.len(),
{
    if ranges.len() == 0 {
        0
    } else {
        entry_overlap(ranges.drop_last(), added) + overlap_count(ranges.last(), added)
    }
}

/// Entries of known humans have hashes starting `h_`.
pub open spec fn human_prefix() -> Seq<char> {
    seq!['h', '_']
}

/// Entries of coding-agent sessions have hashes starting `s_`.
pub open spec fn session_prefix() -> Seq<char> {
    seq!['s', '_']
}

/// The `tool::model` name of an agent.
pub open spec fn tool_model_name(agent: AgentId) -> Seq<char> {
    agent.tool@ + seq![':', ':'] + agent.model@
}

/// The `tool::model` to credit for an AI entry: a session entry is looked up by
/// the part of its hash before `::` among the sessions, any other entry by its
/// hash among the prompts.
pub open spec fn attributed_tool_model(hash: Seq<char>, meta: AuthorshipMetadata) -> Option<
    Seq<char>,
> {
    if session_prefix().is_prefix_of(hash) {
        match lookup(meta.sessions@, before_double_colon(hash)) {
            Some(rec) => Some(tool_model_name(rec.agent_id)),
            None => None,
        }
    } else {
        match lookup(meta.prompts@, hash) {
            Some(rec) => Some(tool_model_name(rec.agent_id)),
            None => None,
        }
    }
}

/// Running totals: AI-accepted lines, known-human lines and AI lines per
/// `tool::model`.
pub type Tally = (int, int, Map<Seq<char>, int>);

/// Totals before any attestation is read.
pub open spec fn empty_tally() -> Tally {
    (0, 0, Map::empty())
}

/// The totals after one attestation entry of a file whose added lines are
/// `added`.
pub open spec fn tally_entry(
    t: Tally,
    entry: AttestationEntry,
    added: Seq<u32>,
    meta: AuthorshipMetadata,
) -> Tally {
    let acc = entry_overlap(entry.line_ranges@, added) as int;
    if human_prefix().is_prefix_of(entry.hash@) {
        (t.0, t.1 + acc, t.2)
    } else if acc == 0 {
        t
    } else {
        match attributed_tool_model(entry.hash@, meta) {
            Some(name) => (t.0 + acc, t.1, bump(t.2, name, acc)),
            None => (t.0 + acc, t.1, t.2),
        }
    }
}

/// The totals after the entries of one file, in order.
pub open spec fn tally_entries(
    t: Tally,
    entries: Seq<AttestationEntry>,
    added: Seq<u32>,
    meta: AuthorshipMetadata,
) -> Tally
    decreases entries.len(),
{
    if entries.len() == 0 {
        t
    } else {
        tally_entry(tally_entries(t, entries.drop_last(), added, meta), entries.last(), added, meta)
    }
}

/// The totals over the files, in order; files with no added lines are skipped.
pub open spec fn tally_files(
    files: Seq<FileAttestation>,
    added_by_file: Seq<(String, Vec<u32>)>,
    meta: AuthorshipMetadata,
) -> Tally
    decreases files.len(),
{
    if files.len() == 0 {
        empty_tally()
    } else {
        let t = tally_files(files.drop_last(), added_by_file, meta);
        match lookup(added_by_file, files.last().file_path@) {
            Some(added) => tally_entries(t, files.last().entries@, added@, meta),
            None => t,
        }
    }
}

/// What the attestations of a commit credit: nothing for a merge commit or a
/// commit without a log.
pub open spec fn accepted_tally(
    log: Option<AuthorshipLog>,
    added_by_file: Seq<(String, Vec<u32>)>,
    is_merge_commit: bool,
) -> Tally {
    if is_merge_commit {
        empty_tally()
    } else {
        match log {
            None => empty_tally(),
            Some(log) => tally_files(log.attestations@, added_by_file, log.metadata),
        }
    }
}

/// The added lines listed for `path`, if any, are sorted.
pub open spec fn listed_sorted(added_by_file: Seq<(String, Vec<u32>)>, path: Seq<char>) -> bool {
    match lookup(added_by_file, path) {
        Some(added) => sorted(added@),
        None => true,
    }
}

/// The added-line lists that counting reads are sorted: for a commit that is
/// not a merge and has a log, the list found for each attested file.
pub open spec fn read_lists_sorted(
    log: Option<AuthorshipLog>,
    added_by_file: Seq<(String, Vec<u32>)>,
    is_merge_commit: bool,
) -> bool {
    !is_merge_commit ==> match log {
        None => true,
        Some(log) => forall|j: int|
            0 <= j < log.attestations@.len() ==> #[trigger] listed_sorted(
                added_by_file,
                log.attestations@[j].file_path@,
            ),
    }
}

/// When every list is sorted, so is the one found for any path.
pub proof fn lemma_all_sorted_listed(added_by_file: Seq<(String, Vec<u32>)>, path: Seq<char>)
    requires
        forall|i: int| 0 <= i < added_by_file.len() ==> sorted(#[trigger] added_by_file[i].1@),
    ensures
        listed_sorted(added_by_file, path),
    decreases added_by_file.len(),
{
    if added_by_file.len() > 0 && added_by_file[0].0@ != path {
        assert forall|i: int| 0 <= i < added_by_file.drop_first().len() implies sorted(
            #[trigger] added_by_file.drop_first()[i].1@,
        ) by {
            assert(added_by_file.drop_first()[i] == added_by_file[i + 1]);
        }
        lemma_all_sorted_listed(added_by_file.drop_first(), path);
    }
}

/// A range claims as many lines as the added lines between its ends, both
/// included.
pub proof fn lemma_count_within_is_filter(a: Seq<u32>, start: int, end: int)
    ensures
        count_within(a, start, end) == a.filter(|x: u32| start <= x <= end).len(),
    decreases a.len(),
{
    reveal(Seq::filter);
    if a.len() > 0 {
        lemma_count_within_is_filter(a.drop_last(), start, end);
    }
}

/// The lines a list of ranges claims add up over the ranges: nothing for no
/// range, a range's own count for one, and the sum for a list made of two.
pub proof fn lemma_entry_overlap_adds(a: Seq<LineRange>, b: Seq<LineRange>, added: Seq<u32>)
    ensures
        entry_overlap(Seq::empty(), added) == 0,
        entry_overlap(a + b, added) == entry_overlap(a, added) + entry_overlap(b, added),
        forall|r: LineRange| #[trigger] entry_overlap(seq![r], added) == overlap_count(r, added),
    decreases b.len(),
{
    assert forall|r: LineRange| #[trigger] entry_overlap(seq![r], added) == overlap_count(r, added) by {
        assert(seq![r].drop_last() =~= Seq::<LineRange>::empty());
        assert(seq![r].last() == r);
        assert(entry_overlap(seq![r].drop_last(), added) == 0);
    }
    if b.len() == 0 {
        assert(a + b =~= a);
    } else {
        assert((a + b).drop_last() =~= a + b.drop_last());
        lemma_entry_overlap_adds(a, b.drop_last(), added);
    }
}

/// What one attestation entry adds to the totals, by its hash: an entry whose
/// hash starts `h_` credits its lines to known humans and nothing to AI; any
/// other entry credits its lines to AI and, when they are some, to its
/// `tool::model`. A session entry (`s_`) names the tool and model of the
/// session keyed by the part of its hash before `::`; any other entry those of
/// the prompt keyed by its whole hash; the name is the tool, `::` and the
/// model.
pub proof fn lemma_entry_credit(t: Tally, entry: AttestationEntry, added: Seq<u32>, meta: AuthorshipMetadata)
    ensures
        ({
            let acc = entry_overlap(entry.line_ranges@, added) as int;
            let r = tally_entry(t, entry, added, meta);
            let h = entry.hash@;
            let found: Option<AgentId> = if seq!['s', '_'].is_prefix_of(h) {
                match lookup(meta.sessions@, before_double_colon(h)) {
                    Some(rec) => Some(rec.agent_id),
                    None => None,
                }
            } else {
                match lookup(meta.prompts@, h) {
                    Some(rec) => Some(rec.agent_id),
                    None => None,
                }
            };
            &&& seq!['h', '_'].is_prefix_of(h) ==> r == (t.0, t.1 + acc, t.2)
            &&& !seq!['h', '_'].is_prefix_of(h) ==> r.0 == t.0 + acc && r.1 == t.1
            &&& !seq!['h', '_'].is_prefix_of(h) && acc > 0 ==> r.2 == match found {
                Some(agent) => {
                    let name = agent.tool@ + seq![':', ':'] + agent.model@;
                    t.2.insert(
                        name,
                        (if t.2.contains_key(name) {
                            t.2[name]
                        } else {
                            0
                        }) + acc,
                    )
                },
                None => t.2,
            }
            &&& acc == 0 ==> r.2 == t.2
        }),
{
    assert(human_prefix() == seq!['h', '_']);
    assert(session_prefix() == seq!['s', '_']);
}

/// Every per-tool total is between zero and the AI total.
pub open spec fn bounded(t: Tally) -> bool {
    forall|k: Seq<char>| #[trigger] t.2.contains_key(k) ==> 0 <= t.2[k] <= t.0
}

/// Totals `a` are at most totals `b`.
pub open spec fn tally_le(a: Tally, b: Tally) -> bool {
    a.0 <= b.0 && a.1 <= b.1
}

proof fn lemma_count_within_prefix(a: Seq<u32>, s: int, e: int, p1: int, p2: int, n: int)
    requires
        0 <= n <= a.len(),
        0 <= p1 <= a.len(),
        0 <= p2 <= a.len(),
        forall|k: int| 0 <= k < p1 ==> a[k] < s,
        forall|k: int| p1 <= k < a.len() ==> a[k] >= s,
        forall|k: int| 0 <= k < p2 ==> a[k] <= e,
        forall|k: int| p2 <= k < a.len() ==> a[k] > e,
    ensures
        count_within(a.take(n), s, e) == (if (if n < p2 {
            n
        } else {
            p2
        }) > p1 {
            (if n < p2 {
                n
            } else {
                p2
            }) - p1
        } else {
            0
        }),
    decreases n,
{
    if n > 0 {
        lemma_count_within_prefix(a, s, e, p1, p2, n - 1);
        assert(a.take(n).drop_last() =~= a.take(n - 1));
    }
}

proof fn lemma_entry_overlap_prefix(ranges: Seq<LineRange>, added: Seq<u32>, k: int)
    requires
        0 <= k <= ranges.len(),
    ensures
        entry_overlap(ranges.take(k), added) <= entry_overlap(ranges, added),
    decreases ranges.len(),
{
    if k < ranges.len() {
        assert(ranges.take(k) =~= ranges.drop_last().take(k));
        lemma_entry_overlap_prefix(ranges.drop_last(), added, k);
    } else {
        assert(ranges.take(k) =~= ranges);
    }
}

proof fn lemma_tally_entries_prefix(
    t: Tally,
    entries: Seq<AttestationEntry>,
    added: Seq<u32>,
    meta: AuthorshipMetadata,
    k: int,
)
    requires
        0 <= k <= entries.len(),
    ensures
        tally_le(tally_entries(t, entries.take(k), added, meta), tally_entries(t, entries, added, meta)),
        tally_le(t, tally_entries(t, entries, added, meta)),
        t.0 >= 0 && bounded(t) ==> bounded(tally_entries(t, entries, added, meta)),
    decreases entries.len(),
{
    if entries.len() > 0 {
        if k < entries.len() {
            assert(entries.take(k) =~= entries.drop_last().take(k));
            lemma_tally_entries_prefix(t, entries.drop_last(), added, meta, k);
        } else {
            assert(entries.take(k) =~= entries);
            lemma_tally_entries_prefix(t, entries.drop_last(), added, meta, 0);
        }
    } else {
        assert(entries.take(k) =~= entries);
    }
}

proof fn lemma_tally_files_prefix(
    files: Seq<FileAttestation>,
    added_by_file: Seq<(String, Vec<u32>)>,
    meta: AuthorshipMetadata,
    k: int,
)
    requires
        0 <= k <= files.len(),
    ensures
        tally_le(tally_files(files.take(k), added_by_file, meta), tally_files(files, added_by_file, meta)),
        bounded(tally_files(files, added_by_file, meta)),
        tally_files(files, added_by_file, meta).0 >= 0,
        tally_files(files, added_by_file, meta).1 >= 0,
    decreases files.len(),
{
    if files.len() > 0 {
        let t = tally_files(files.drop_last(), added_by_file, meta);
        if k < files.len() {
            assert(files.take(k) =~= files.drop_last().take(k));
        } else {
            assert(files.take(k) =~= files);
        }
        lemma_tally_files_prefix(files.drop_last(), added_by_file, meta, if k < files.len() {
            k
        } else {
            0
        });
        match lookup(added_by_file, files.last().file_path@) {
            Some(added) => {
                lemma_tally_entries_prefix(t, files.last().entries@, added@, meta, 0);
            },
            None => {},
        }
    } else {
        assert(files.take(k) =~= files);
    }
}

/// The index of the first line of sorted `a` that is not below `x`.
fn first_not_below(a: &[u32], x: u32) -> (p: usize)
    requires
        sorted(a@),
    ensures
        p <= a.len(),
        forall|k: int| 0 <= k < p ==> a@[k] < x,
        forall|k: int| p <= k < a.len() ==> a@[k] >= x,
{
    let mut lo: usize = 0;
    let mut hi: usize = a.len();
    while lo < hi
        invariant
            lo <= hi <= a.len(),
            sorted(a@),
            forall|k: int| 0 <= k < lo ==> a@[k] < x,
            forall|k: int| hi <= k < a.len() ==> a@[k] >= x,
        decreases hi - lo,
    {
        let mid = lo + (hi - lo) / 2;
        if a[mid] < x {
            lo = mid + 1;
        } else {
            hi = mid;
        }
    }
    lo
}

/// The index of the first line of sorted `a` above `x`.
fn first_above(a: &[u32], x: u32) -> (p: usize)
    requires
        sorted(a@),
    ensures
        p <= a.len(),
        forall|k: int| 0 <= k < p ==> a@[k] <= x,
        forall|k: int| p <= k < a.len() ==> a@[k] > x,
{
    let mut lo: usize = 0;
    let mut hi: usize = a.len();
    while lo < hi
        invariant
            lo <= hi <= a.len(),
            sorted(a@),
            forall|k: int| 0 <= k < lo ==> a@[k] <= x,
            forall|k: int| hi <= k < a.len() ==> a@[k] > x,
        decreases hi - lo,
    {
        let mid = lo + (hi - lo) / 2;
        if a[mid] <= x {
            lo = mid + 1;
        } else {
            hi = mid;
        }
    }
    lo
}

/// How many lines of the sorted `added_lines` the range claims.
pub fn line_range_overlap_len(range: &LineRange, added_lines: &[u32]) -> (r: u32)
    requires
        sorted(added_lines@),
    ensures
        r == overlap_count(*range, added_lines@) as u32,
{
    match range {
        LineRange::Single(line) => {
            let p = first_not_below(added_lines, *line);
            let found = p < added_lines.len() && added_lines[p] == *line;
            proof {
                if added_lines@.contains(*line) {
                    let k = choose|k: int| 0 <= k < added_lines@.len() && added_lines@[k] == *line;
                    assert(k >= p);
                }
            }
            if found {
                1
            } else {
                0
            }
        },
        LineRange::Range(start, end) => {
            let start_idx = first_not_below(added_lines, *start);
            let end_idx = first_above(added_lines, *end);
            proof {
                lemma_count_within_prefix(
                    added_lines@,
                    *start as int,
                    *end as int,
                    start_idx as int,
                    end_idx as int,
                    added_lines@.len() as int,
                );
                assert(added_lines@.take(added_lines@.len() as int) =~= added_lines@);
            }
            let n = end_idx.saturating_sub(start_idx);
            n as u32
        },
    }
}

/// How many added lines an entry's ranges claim together.
fn entry_accepted(ranges: &Vec<LineRange>, added: &[u32]) -> (r: u32)
    requires
        sorted(added@),
        entry_overlap(ranges@, added@) <= u32::MAX,
    ensures
        r == entry_overlap(ranges@, added@),
{
    let mut total: u32 = 0;
    let mut i: usize = 0;
    while i < ranges.len()
        invariant
            i <= ranges.len(),
            sorted(added@),
            entry_overlap(ranges@, added@) <= u32::MAX,
            total == entry_overlap(ranges@.take(i as int), added@),
        decreases ranges.len() - i,
    {
        proof {
            lemma_entry_overlap_prefix(ranges@, added@, i + 1);
            assert(ranges@.take(i + 1).drop_last() =~= ranges@.take(i as int));
        }
        let n = line_range_overlap_len(&ranges[i], added);
        total = total + n;
        i = i + 1;
    }
    assert(ranges@.take(i as int) =~= ranges@);
    total
}

/// The `tool::model` to credit for an AI entry, if its session or prompt is
/// known.
fn tool_model_for(hash: &String, meta: &AuthorshipMetadata) -> (r: Option<String>)
    ensures
        r is Some == attributed_tool_model(hash@, *meta) is Some,
        r is Some ==> r->0@ == attributed_tool_model(hash@, *meta)->0,
{
    proof {
        reveal_strlit("s_");
    }
    if has_prefix(hash.as_str(), "s_") {
        let key = head_before_double_colon(hash.as_str());
        match find_key(&meta.sessions, &key) {
            Some(j) => Some(
                join_double_colon(
                    &meta.sessions[j].1.agent_id.tool,
                    &meta.sessions[j].1.agent_id.model,
                ),
            ),
            None => None,
        }
    } else {
        match find_key(&meta.prompts, hash) {
            Some(j) => Some(
                join_double_colon(
                    &meta.prompts[j].1.agent_id.tool,
                    &meta.prompts[j].1.agent_id.model,
                ),
            ),
            None => None,
        }
    }
}

/// Count the added lines that attestations credit: returns the AI-accepted
/// lines, the known-human lines and the AI lines per `tool::model`.
///
/// `added_lines_by_file` pairs each file path with its added line numbers,
/// sorted; the first pair of a path counts.
pub fn accepted_lines_from_attestations(
    authorship_log: Option<&AuthorshipLog>,
    added_lines_by_file: &Vec<(String, Vec<u32>)>,
    is_merge_commit: bool,
) -> (r: (u32, u32, ToolModelCounts))
    requires
        read_lists_sorted(
            match authorship_log {
                Some(l) => Some(*l),
                None => None,
            },
            added_lines_by_file@,
            is_merge_commit,
        ),
        accepted_tally(
            match authorship_log {
                Some(l) => Some(*l),
                None => None,
            },
            added_lines_by_file@,
            is_merge_commit,
        ).0 <= u32::MAX,
        accepted_tally(
            match authorship_log {
                Some(l) => Some(*l),
                None => None,
            },
            added_lines_by_file@,
            is_merge_commit,
        ).1 <= u32::MAX,
    ensures
        ({
            let t = accepted_tally(
                match authorship_log {
                    Some(l) => Some(*l),
                    None => None,
                },
                added_lines_by_file@,
                is_merge_commit,
            );
            &&& r.0 as int == t.0
            &&& r.1 as int == t.1
            &&& r.2@ == t.2
            &&& r.2.well_formed()
        }),
        forall|name: Seq<char>| #[trigger] r.2@.contains_key(name) ==> r.2@[name] > 0,
        r.2.total() <= r.0,
{
    if is_merge_commit {
        return (0, 0, ToolModelCounts::new());
    }
    let log = match authorship_log {
        Some(log) => log,
        None => {
            return (0, 0, ToolModelCounts::new());
        },
    };
    let ghost files = log.attestations@;
    let ghost meta = log.metadata;
    let ghost fin = tally_files(files, added_lines_by_file@, meta);
    let mut total_ai_accepted: u32 = 0;
    let mut known_human_accepted: u32 = 0;
    let mut per_tool_model = ToolModelCounts::new();
    let mut i: usize = 0;
    proof {
        assert(files.take(0) =~= Seq::<FileAttestation>::empty());
    }
    while i < log.attestations.len()
        invariant
            i <= log.attestations.len(),
            files == log.attestations@,
            meta == log.metadata,
            fin == tally_files(files, added_lines_by_file@, meta),
            fin.0 <= u32::MAX,
            fin.1 <= u32::MAX,
            forall|j: int|
                0 <= j < files.len() ==> #[trigger] listed_sorted(
                    added_lines_by_file@,
                    files[j].file_path@,
                ),
            per_tool_model.well_formed(),
            forall|name: Seq<char>|
                #[trigger] per_tool_model@.contains_key(name) ==> per_tool_model@[name] > 0,
            per_tool_model.total() <= total_ai_accepted,
            ({
                let t = tally_files(files.take(i as int), added_lines_by_file@, meta);
                &&& total_ai_accepted as int == t.0
                &&& known_human_accepted as int == t.1
                &&& per_tool_model@ == t.2
            }),
        decreases log.attestations.len() - i,
    {
        let file_attestation = &log.attestations[i];
        proof {
            assert(files.take(i + 1).drop_last() =~= files.take(i as int));
            lemma_tally_files_prefix(files, added_lines_by_file@, meta, i + 1);
            lemma_tally_files_prefix(files.take(i as int), added_lines_by_file@, meta, 0);
        }
        match find_key(added_lines_by_file, &file_attestation.file_path) {
            None => {},
            Some(j) => {
                proof {
                    assert(listed_sorted(added_lines_by_file@, files[i as int].file_path@));
                }
                let added = added_lines_by_file[j].1.as_slice();
                let ghost start = tally_files(files.take(i as int), added_lines_by_file@, meta);
                let ghost entries = file_attestation.entries@;
                let ghost stop = tally_entries(start, entries, added@, meta);
                proof {
                    lemma_tally_entries_prefix(start, entries, added@, meta, 0);
                    assert(entries.take(0) =~= Seq::<AttestationEntry>::empty());
                }
                let mut k: usize = 0;
                while k < file_attestation.entries.len()
                    invariant
                        k <= file_attestation.entries.len(),
                        entries == file_attestation.entries@,
                        meta == log.metadata,
                        sorted(added@),
                        stop == tally_entries(start, entries, added@, meta),
                        stop.0 <= u32::MAX,
                        stop.1 <= u32::MAX,
                        start.0 >= 0,
                        bounded(start),
                        per_tool_model.well_formed(),
                        forall|name: Seq<char>|
                            #[trigger] per_tool_model@.contains_key(name) ==> per_tool_model@[name]
                                > 0,
                        per_tool_model.total() <= total_ai_accepted,
                        ({
                            let t = tally_entries(start, entries.take(k as int), added@, meta);
                            &&& total_ai_accepted as int == t.0
                            &&& known_human_accepted as int == t.1
                            &&& per_tool_model@ == t.2
                        }),
                    decreases file_attestation.entries.len() - k,
                {
                    let entry = &file_attestation.entries[k];
                    let ghost before = tally_entries(start, entries.take(k as int), added@, meta);
                    proof {
                        assert(entries.take(k + 1).drop_last() =~= entries.take(k as int));
                        lemma_tally_entries_prefix(start, entries, added@, meta, k + 1);
                        lemma_tally_entries_prefix(start, entries.take(k as int), added@, meta, 0);
                    }
                    proof {
                        reveal_strlit("h_");
                    }
                    let is_human = has_prefix(entry.hash.as_str(), "h_");
                    let tm = if is_human {
                        None
                    } else {
                        tool_model_for(&entry.hash, &log.metadata)
                    };
                    proof {
                        if !is_human && tm is None {
                            assert(entry_overlap(entry.line_ranges@, added@) <= stop.0);
                        }
                    }
                    let accepted = entry_accepted(&entry.line_ranges, added);
                    if is_human {
                        known_human_accepted = known_human_accepted + accepted;
                    } else if accepted > 0 {
                        total_ai_accepted = total_ai_accepted + accepted;
                        match tm {
                            Some(name) => {
                                per_tool_model.add(name, accepted);
                            },
                            None => {},
                        }
                    }
                    k = k + 1;
                }
                proof {
                    assert(entries.take(k as int) =~= entries);
                }
            },
        }
        i = i + 1;
    }
    proof {
        assert(files.take(i as int) =~= files);
    }
    (total_ai_accepted, known_human_accepted, per_tool_model)
}

} // verus!
