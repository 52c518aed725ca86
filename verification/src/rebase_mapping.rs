//! Pairing the commits a rebase rewrote with the commits it produced.
use crate::git_status::texts;
use crate::nul_fields::{bytes_of, pieces, split_bytes};
use crate::text::{push_char, str_eq, trim_text, trimmed};
use vstd::prelude::*;
use vstd::utf8::{decode_utf8, valid_utf8};
use vstd::string::*;

verus! {

/// An event of the rewrite log: a finished rebase or cherry-pick, an amended
/// commit, or something else.
#[derive(Debug, Clone)]
pub enum RewriteLogEvent {
    RebaseComplete { original_commits: Vec<String>, new_commits: Vec<String> },
    CherryPickComplete { source_commits: Vec<String>, new_commits: Vec<String> },
    CommitAmend { original_commit: String, amended_commit_sha: String },
    Other,
}

/// The first position of `commit` in `commits`, if any.
pub open spec fn position(commits: Seq<String>, commit: Seq<char>) -> Option<int>
    decreases commits.len(),
{
    if commits.len() == 0 {
        None
    } else if commits[0]@ == commit {
        Some(0)
    } else {
        match position(commits.drop_first(), commit) {
            Some(i) => Some(i + 1),
            None => None,
        }
    }
}

/// The commit at the same position of the paired list, if it has one.
pub open spec fn paired(from: Seq<String>, to: Seq<String>, commit: Seq<char>) -> Option<
    Option<Seq<char>>,
> {
    match position(from, commit) {
        Some(i) => Some(
            if i < to.len() {
                Some(to[i]@)
            } else {
                None
            },
        ),
        None => None,
    }
}

/// What the first event that rewrote into `commit` says it came from: the
/// original (or cherry-picked) commit at the same position, or the amended
/// commit's original. The first matching event decides, even when its paired
/// list is too short.
pub open spec fn original_equivalent(events: Seq<RewriteLogEvent>, commit: Seq<char>) -> Option<
    Seq<char>,
>
    decreases events.len(),
{
    if events.len() == 0 {
        None
    } else {
        let found = match events[0] {
            RewriteLogEvent::RebaseComplete { original_commits, new_commits } => paired(
                new_commits@,
                original_commits@,
                commit,
            ),
            RewriteLogEvent::CherryPickComplete { source_commits, new_commits } => paired(
                new_commits@,
                source_commits@,
                commit,
            ),
            RewriteLogEvent::CommitAmend { original_commit, amended_commit_sha } => if amended_commit_sha@
                == commit {
                Some(Some(original_commit@))
            } else {
                None
            },
            RewriteLogEvent::Other => None,
        };
        match found {
            Some(answer) => answer,
            None => original_equivalent(events.drop_first(), commit),
        }
    }
}

proof fn lemma_position_first(commits: Seq<String>, commit: Seq<char>, i: int)
    requires
        0 <= i < commits.len(),
        commits[i]@ == commit,
        forall|k: int| 0 <= k < i ==> commits[k]@ != commit,
    ensures
        position(commits, commit) == Some(i),
    decreases i,
{
    if i > 0 {
        assert forall|k: int| 0 <= k < i - 1 implies commits.drop_first()[k]@ != commit by {
            assert(commits.drop_first()[k] == commits[k + 1]);
        }
        lemma_position_first(commits.drop_first(), commit, i - 1);
    }
}

proof fn lemma_position_absent(commits: Seq<String>, commit: Seq<char>)
    requires
        forall|k: int| 0 <= k < commits.len() ==> commits[k]@ != commit,
    ensures
        position(commits, commit) is None,
    decreases commits.len(),
{
    if commits.len() > 0 {
        assert forall|k: int| 0 <= k < commits.drop_first().len() implies commits.drop_first()[k]@
            != commit by {
            assert(commits.drop_first()[k] == commits[k + 1]);
        }
        lemma_position_absent(commits.drop_first(), commit);
    }
}

/// A cherry-pick that produced `commit` as its `i`-th new commit (its first
/// occurrence there) answers for it when it is the first event: the source
/// commit at the same position, or nothing when the sources are fewer.
pub proof fn lemma_cherry_pick_answers(
    events: Seq<RewriteLogEvent>,
    source_commits: Vec<String>,
    new_commits: Vec<String>,
    commit: Seq<char>,
    i: int,
)
    requires
        events.len() > 0,
        events[0] == (RewriteLogEvent::CherryPickComplete { source_commits, new_commits }),
        0 <= i < new_commits.len(),
        new_commits@[i]@ == commit,
        forall|k: int| 0 <= k < i ==> new_commits@[k]@ != commit,
    ensures
        original_equivalent(events, commit) == if i < source_commits.len() {
            Some(source_commits@[i]@)
        } else {
            None::<Seq<char>>
        },
{
    lemma_position_first(new_commits@, commit, i);
}

/// A rebase that produced `commit` as its `i`-th new commit (its first
/// occurrence there) answers for it when it is the first event: the original
/// commit at the same position, or nothing when the originals are fewer.
pub proof fn lemma_rebase_answers(
    events: Seq<RewriteLogEvent>,
    original_commits: Vec<String>,
    new_commits: Vec<String>,
    commit: Seq<char>,
    i: int,
)
    requires
        events.len() > 0,
        events[0] == (RewriteLogEvent::RebaseComplete { original_commits, new_commits }),
        0 <= i < new_commits.len(),
        new_commits@[i]@ == commit,
        forall|k: int| 0 <= k < i ==> new_commits@[k]@ != commit,
    ensures
        original_equivalent(events, commit) == if i < original_commits.len() {
            Some(original_commits@[i]@)
        } else {
            None::<Seq<char>>
        },
{
    lemma_position_first(new_commits@, commit, i);
}

/// An amend that produced `commit` answers with the commit it amended.
pub proof fn lemma_amend_answers(
    events: Seq<RewriteLogEvent>,
    original_commit: String,
    amended_commit_sha: String,
)
    requires
        events.len() > 0,
        events[0] == (RewriteLogEvent::CommitAmend { original_commit, amended_commit_sha }),
    ensures
        original_equivalent(events, amended_commit_sha@) == Some(original_commit@),
{
}

/// A first event that did not produce `commit` leaves the answer to the rest
/// of the log, even when `commit` is among the commits it rewrote (the
/// originals of a rebase, the sources of a cherry-pick, the commit an amend
/// replaced).
pub proof fn lemma_other_events_pass(events: Seq<RewriteLogEvent>, commit: Seq<char>)
    requires
        events.len() > 0,
        match events[0] {
            RewriteLogEvent::RebaseComplete { original_commits, new_commits } => forall|k: int|
                0 <= k < new_commits.len() ==> new_commits@[k]@ != commit,
            RewriteLogEvent::CherryPickComplete { source_commits, new_commits } => forall|k: int|
                0 <= k < new_commits.len() ==> new_commits@[k]@ != commit,
            RewriteLogEvent::CommitAmend { original_commit, amended_commit_sha } =>
                amended_commit_sha@ != commit,
            RewriteLogEvent::Other => true,
        },
    ensures
        original_equivalent(events, commit) == original_equivalent(events.drop_first(), commit),
{
    match events[0] {
        RewriteLogEvent::RebaseComplete { original_commits, new_commits } => {
            lemma_position_absent(new_commits@, commit);
        },
        RewriteLogEvent::CherryPickComplete { source_commits, new_commits } => {
            lemma_position_absent(new_commits@, commit);
        },
        _ => {},
    }
}

/// The first position of `commit` in `commits`.
fn find_position(commits: &Vec<String>, commit: &String) -> (r: Option<usize>)
    ensures
        match r {
            Some(i) => position(commits@, commit@) == Some(i as int) && i < commits.len(),
            None => position(commits@, commit@) is None,
        },
{
    let mut i: usize = 0;
    assert(commits@.skip(0) =~= commits@);
    while i < commits.len()
        invariant
            i <= commits.len(),
            position(commits@, commit@) == match position(commits@.skip(i as int), commit@) {
                Some(k) => Some(k + i),
                None => None,
            },
        decreases commits.len() - i,
    {
        assert(commits@.skip(i as int).drop_first() =~= commits@.skip(i + 1));
        if commits[i] == *commit {
            return Some(i);
        }
        i = i + 1;
    }
    assert(commits@.skip(i as int).len() == 0);
    None
}

/// The commit at the same position in `to` as `commit` in `from`.
fn find_paired(from: &Vec<String>, to: &Vec<String>, commit: &String) -> (r: Option<Option<String>>)
    ensures
        match (r, paired(from@, to@, commit@)) {
            (None, None) => true,
            (Some(None), Some(None)) => true,
            (Some(Some(c)), Some(Some(v))) => c@ == v,
            _ => false,
        },
{
    match find_position(from, commit) {
        None => None,
        Some(i) => {
            if i < to.len() {
                Some(Some(to[i].clone()))
            } else {
                Some(None)
            }
        },
    }
}

/// The commit that `rewritten_commit` was rewritten from, according to the
/// first rewrite event that produced it.
pub fn original_equivalent_for_rewritten_commit(
    events: &Vec<RewriteLogEvent>,
    rewritten_commit: &String,
) -> (r: Option<String>)
    ensures
        r is Some == original_equivalent(events@, rewritten_commit@) is Some,
        r is Some ==> r->0@ == original_equivalent(events@, rewritten_commit@)->0,
{
    let mut i: usize = 0;
    assert(events@.skip(0) =~= events@);
    while i < events.len()
        invariant
            i <= events.len(),
            original_equivalent(events@, rewritten_commit@) == original_equivalent(
                events@.skip(i as int),
                rewritten_commit@,
            ),
        decreases events.len() - i,
    {
        assert(events@.skip(i as int).drop_first() =~= events@.skip(i + 1));
        assert(events@.skip(i as int)[0] == events@[i as int]);
        let found = match &events[i] {
            RewriteLogEvent::RebaseComplete { original_commits, new_commits } => find_paired(
                new_commits,
                original_commits,
                rewritten_commit,
            ),
            RewriteLogEvent::CherryPickComplete { source_commits, new_commits } => find_paired(
                new_commits,
                source_commits,
                rewritten_commit,
            ),
            RewriteLogEvent::CommitAmend { original_commit, amended_commit_sha } => {
                if *amended_commit_sha == *rewritten_commit {
                    Some(Some(original_commit.clone()))
                } else {
                    None
                }
            },
            RewriteLogEvent::Other => None,
        };
        match found {
            Some(answer) => {
                return answer;
            },
            None => {},
        }
        i = i + 1;
    }
    None
}

/// What is known when mapping commits: the heads before and after the rebase,
/// the rebase target if known, and whether that target is a full object id.
#[derive(Debug, Clone)]
pub struct RebaseMappingInputs {
    pub original_head: String,
    pub new_head: String,
    pub onto_head: Option<String>,
    pub onto_is_valid_oid: bool,
}

/// Where the commit mapping stands between two git queries.
#[derive(Debug)]
pub enum RebaseMappingState {
    /// Waiting for the merge base of the original and new heads.
    AwaitMergeBase,
    /// Waiting for the rewrite log, to find what the target was rewritten from.
    AwaitRewriteEvents { merge_base: String },
    /// Waiting to learn whether the target's original is an ancestor of the
    /// original head.
    AwaitOriginalBaseAncestry { merge_base: String, mapped: String },
    /// Waiting for the commits from the original head down to `original_base`.
    AwaitOriginalWalk { merge_base: String },
    /// Waiting to learn whether the target is an ancestor of the new head.
    AwaitOntoAncestry { merge_base: String, original_commits: Vec<String> },
    /// Waiting for the commits from the new head down to its base.
    AwaitNewWalk { original_commits: Vec<String> },
    /// Done.
    Finished,
}

/// The git query the mapping needs next, or its result.
#[derive(Debug)]
pub enum RebaseMappingRequest {
    /// The merge base of the original and new heads (both resolved first).
    MergeBase,
    /// The rewrite log of the repository.
    ReadRewriteEvents,
    /// Whether the first commit is an ancestor of the second.
    IsAncestor(String, String),
    /// The commits from the first commit down to (not including) the second,
    /// newest first.
    WalkToBase(String, String),
    /// At most that many first-parent commits from the first commit down to
    /// the second, newest first.
    WalkFirstParent(String, String, usize),
    /// The original commits and the new commits, oldest first, or the error.
    Done(Result<(Vec<String>, Vec<String>), String>),
}

/// What a git query gave.
#[derive(Debug)]
pub enum RebaseMappingEvent {
    MergeBase(Result<String, String>),
    /// The rewrite log, or `None` when it could not be read.
    RewriteEvents(Option<Vec<RewriteLogEvent>>),
    IsAncestor(bool),
    Walked(Result<Vec<String>, String>),
}

/// The commits in the opposite order.
pub open spec fn reversed(s: Seq<String>) -> Seq<String> {
    Seq::new(s.len(), |i: int| s[s.len() - 1 - i])
}

/// Reversing puts a last commit first, ahead of the rest reversed; nothing
/// stays nothing.
pub proof fn lemma_reversed_push(s: Seq<String>, x: String)
    ensures
        reversed(Seq::<String>::empty()) == Seq::<String>::empty(),
        reversed(s.push(x)) == seq![x] + reversed(s),
{
    assert(reversed(Seq::<String>::empty()) =~= Seq::<String>::empty());
    assert(reversed(s.push(x)) =~= seq![x] + reversed(s));
}

/// Reverse a list of commits.
pub fn reverse_commits(v: Vec<String>) -> (r: Vec<String>)
    ensures
        r@ == reversed(v@),
{
    let mut r: Vec<String> = Vec::new();
    let mut i: usize = v.len();
    while i > 0
        invariant
            i <= v.len(),
            r@ =~= reversed(v@).take(v.len() - i),
        decreases i,
    {
        i = i - 1;
        r.push(v[i].clone());
        assert(reversed(v@).take(v.len() - i) =~= reversed(v@).take(v.len() - i - 1).push(
            v@[i as int],
        ));
    }
    assert(reversed(v@).take(v.len() as int) =~= reversed(v@));
    r
}

/// The message of a rebase target that is not a full object id.
pub open spec fn unresolved_onto_message(onto: Seq<char>) -> Seq<char> {
    "rebase mapping expected resolved onto oid, got '"@ + onto + seq!['\'']
}

/// Start mapping the commits of a rebase: reject a target that is not a
/// full object id, else ask for the merge base.
pub fn build_rebase_commit_mappings(inputs: &RebaseMappingInputs) -> (r: (
    RebaseMappingState,
    RebaseMappingRequest,
))
    ensures
        match inputs.onto_head {
            Some(onto) => if !inputs.onto_is_valid_oid {
                r.0 is Finished && (r.1 matches RebaseMappingRequest::Done(Err(msg)) && msg@
                    == unresolved_onto_message(onto@))
            } else {
                r.0 is AwaitMergeBase && r.1 is MergeBase
            },
            None => r.0 is AwaitMergeBase && r.1 is MergeBase,
        },
{
    match &inputs.onto_head {
        Some(onto) => {
            if !inputs.onto_is_valid_oid {
                let mut msg = String::from_str("rebase mapping expected resolved onto oid, got '");
                msg.append(onto.as_str());
                push_char(&mut msg, '\'');
                return (RebaseMappingState::Finished, RebaseMappingRequest::Done(Err(msg)));
            }
        },
        None => {},
    }
    (RebaseMappingState::AwaitMergeBase, RebaseMappingRequest::MergeBase)
}

/// The event answers the query that the state waits for.
pub open spec fn mapping_awaits(state: RebaseMappingState, event: RebaseMappingEvent) -> bool {
    match state {
        RebaseMappingState::AwaitMergeBase => event is MergeBase,
        RebaseMappingState::AwaitRewriteEvents { .. } => event is RewriteEvents,
        RebaseMappingState::AwaitOriginalBaseAncestry { .. } => event is IsAncestor,
        RebaseMappingState::AwaitOriginalWalk { .. } => event is Walked,
        RebaseMappingState::AwaitOntoAncestry { .. } => event is IsAncestor,
        RebaseMappingState::AwaitNewWalk { .. } => event is Walked,
        RebaseMappingState::Finished => false,
    }
}

impl RebaseMappingState {
    /// Whether `event` answers the query this state waits for.
    pub fn accepts(&self, event: &RebaseMappingEvent) -> (r: bool)
        ensures
            r == mapping_awaits(*self, *event),
    {
        match self {
            RebaseMappingState::AwaitMergeBase => matches!(event, RebaseMappingEvent::MergeBase(_)),
            RebaseMappingState::AwaitRewriteEvents { .. } => matches!(
                event,
                RebaseMappingEvent::RewriteEvents(_)
            ),
            RebaseMappingState::AwaitOriginalBaseAncestry { .. } => matches!(
                event,
                RebaseMappingEvent::IsAncestor(_)
            ),
            RebaseMappingState::AwaitOriginalWalk { .. } => matches!(event, RebaseMappingEvent::Walked(_)),
            RebaseMappingState::AwaitOntoAncestry { .. } => matches!(
                event,
                RebaseMappingEvent::IsAncestor(_)
            ),
            RebaseMappingState::AwaitNewWalk { .. } => matches!(event, RebaseMappingEvent::Walked(_)),
            RebaseMappingState::Finished => false,
        }
    }
}

/// Once the lower bound of the original commits is known, walk down to it.
fn walk_original(merge_base: String, original_base: String, inputs: &RebaseMappingInputs) -> (r: (
    RebaseMappingState,
    RebaseMappingRequest,
))
    ensures
        r.0 == (RebaseMappingState::AwaitOriginalWalk { merge_base }),
        r.1 == RebaseMappingRequest::WalkToBase(inputs.original_head, original_base),
{
    let head = inputs.original_head.clone();
    (RebaseMappingState::AwaitOriginalWalk { merge_base }, RebaseMappingRequest::WalkToBase(head, original_base))
}

/// Once the original commits are known, choose the lower bound of the new
/// ones: the target when it is an ancestor of the new head and differs from
/// the merge base (full walk), else the merge base (first-parent walk capped
/// at the number of original commits).
fn walk_new(original_commits: Vec<String>, base: String, full: bool, inputs: &RebaseMappingInputs) -> (r: (
    RebaseMappingState,
    RebaseMappingRequest,
))
    ensures
        r.0 == (RebaseMappingState::AwaitNewWalk { original_commits }),
        full ==> r.1 == RebaseMappingRequest::WalkToBase(inputs.new_head, base),
        !full ==> r.1 == RebaseMappingRequest::WalkFirstParent(
            inputs.new_head,
            base,
            original_commits.len(),
        ),
{
    let head = inputs.new_head.clone();
    let n = original_commits.len();
    let request = if full {
        RebaseMappingRequest::WalkToBase(head, base)
    } else {
        RebaseMappingRequest::WalkFirstParent(head, base, n)
    };
    (RebaseMappingState::AwaitNewWalk { original_commits }, request)
}

/// The next step of mapping the commits of a rebase, once the query that
/// `state` waits for has given `event`.
///
/// The original commits run from the original head down to the original
/// counterpart of the rebase target when the rewrite log knows one that is an
/// ancestor of the original head (and not the head itself), else down to the
/// merge base. With no original commits the mapping is empty.
pub fn rebase_mapping_step(
    inputs: &RebaseMappingInputs,
    state: RebaseMappingState,
    event: RebaseMappingEvent,
) -> (r: (RebaseMappingState, RebaseMappingRequest))
    requires
        mapping_awaits(state, event),
    ensures
        r.1 is Done <==> r.0 is Finished,
        match (state, event) {
            (RebaseMappingState::AwaitMergeBase, RebaseMappingEvent::MergeBase(Err(e))) => r.1
                == RebaseMappingRequest::Done(Err(e)),
            (RebaseMappingState::AwaitMergeBase, RebaseMappingEvent::MergeBase(Ok(mb))) => match inputs.onto_head {
                Some(_) => r.0 == (RebaseMappingState::AwaitRewriteEvents { merge_base: mb })
                    && r.1 is ReadRewriteEvents,
                None => r.0 == (RebaseMappingState::AwaitOriginalWalk { merge_base: mb }) && r.1
                    == RebaseMappingRequest::WalkToBase(inputs.original_head, mb),
            },
            (
                RebaseMappingState::AwaitRewriteEvents { merge_base },
                RebaseMappingEvent::RewriteEvents(events),
            ) => {
                let mapped = match (events, inputs.onto_head) {
                    (Some(evs), Some(onto)) => original_equivalent(evs@, onto@),
                    _ => None,
                };
                match mapped {
                    Some(m) => if m != inputs.original_head@ {
                        (r.0 matches RebaseMappingState::AwaitOriginalBaseAncestry {
                            merge_base: mb,
                            mapped: mp,
                        } && mb == merge_base && mp@ == m) && (r.1 matches RebaseMappingRequest::IsAncestor(a, d)
                            && a@ == m && d == inputs.original_head)
                    } else {
                        r.0 == (RebaseMappingState::AwaitOriginalWalk { merge_base })
                            && r.1 == RebaseMappingRequest::WalkToBase(
                            inputs.original_head,
                            merge_base,
                        )
                    },
                    None => r.0 == (RebaseMappingState::AwaitOriginalWalk { merge_base }) && r.1
                        == RebaseMappingRequest::WalkToBase(inputs.original_head, merge_base),
                }
            },
            (
                RebaseMappingState::AwaitOriginalBaseAncestry { merge_base, mapped },
                RebaseMappingEvent::IsAncestor(is_ancestor),
            ) => r.0 == (RebaseMappingState::AwaitOriginalWalk { merge_base }) && r.1
                == RebaseMappingRequest::WalkToBase(
                inputs.original_head,
                if is_ancestor {
                    mapped
                } else {
                    merge_base
                },
            ),
            (RebaseMappingState::AwaitOriginalWalk { .. }, RebaseMappingEvent::Walked(Err(e))) => r.1
                == RebaseMappingRequest::Done(Err(e)),
            (
                RebaseMappingState::AwaitOriginalWalk { merge_base },
                RebaseMappingEvent::Walked(Ok(walked)),
            ) => if walked.len() == 0 {
                r.1 matches RebaseMappingRequest::Done(Ok((o, n))) && o@.len() == 0 && n@.len()
                    == 0
            } else {
                match inputs.onto_head {
                    Some(onto) => if onto@ != merge_base@ {
                        (r.0 matches RebaseMappingState::AwaitOntoAncestry {
                            merge_base: mb,
                            original_commits: oc,
                        } && mb == merge_base && oc@ == reversed(walked@)) && r.1
                            == RebaseMappingRequest::IsAncestor(onto, inputs.new_head)
                    } else {
                        (r.0 matches RebaseMappingState::AwaitNewWalk { original_commits: oc }
                            && oc@ == reversed(walked@)) && r.1 == RebaseMappingRequest::WalkFirstParent(
                            inputs.new_head,
                            merge_base,
                            walked.len(),
                        )
                    },
                    None => (r.0 matches RebaseMappingState::AwaitNewWalk { original_commits: oc }
                        && oc@ == reversed(walked@)) && r.1 == RebaseMappingRequest::WalkFirstParent(
                        inputs.new_head,
                        merge_base,
                        walked.len(),
                    ),
                }
            },
            (
                RebaseMappingState::AwaitOntoAncestry { merge_base, original_commits },
                RebaseMappingEvent::IsAncestor(is_ancestor),
            ) => r.0 == (RebaseMappingState::AwaitNewWalk { original_commits }) && if is_ancestor
                && inputs.onto_head is Some {
                r.1 == RebaseMappingRequest::WalkToBase(inputs.new_head, inputs.onto_head->0)
            } else {
                r.1 == RebaseMappingRequest::WalkFirstParent(
                    inputs.new_head,
                    merge_base,
                    original_commits.len(),
                )
            },
            (RebaseMappingState::AwaitNewWalk { .. }, RebaseMappingEvent::Walked(Err(e))) => r.1
                == RebaseMappingRequest::Done(Err(e)),
            (
                RebaseMappingState::AwaitNewWalk { original_commits },
                RebaseMappingEvent::Walked(Ok(walked)),
            ) => r.1 matches RebaseMappingRequest::Done(Ok((o, n))) && o == original_commits
                && n@ == reversed(walked@),
            _ => true,
        },
{
    match (state, event) {
        (RebaseMappingState::AwaitMergeBase, RebaseMappingEvent::MergeBase(mb)) => {
            match mb {
                Err(e) => (RebaseMappingState::Finished, RebaseMappingRequest::Done(Err(e))),
                Ok(mb) => {
                    if inputs.onto_head.is_some() {
                        (
                            RebaseMappingState::AwaitRewriteEvents { merge_base: mb },
                            RebaseMappingRequest::ReadRewriteEvents,
                        )
                    } else {
                        let base = mb.clone();
                        walk_original(mb, base, inputs)
                    }
                },
            }
        },
        (
            RebaseMappingState::AwaitRewriteEvents { merge_base },
            RebaseMappingEvent::RewriteEvents(events),
        ) => {
            let mapped = match (&events, &inputs.onto_head) {
                (Some(evs), Some(onto)) => original_equivalent_for_rewritten_commit(evs, onto),
                _ => None,
            };
            match mapped {
                Some(m) => {
                    if !str_eq(m.as_str(), inputs.original_head.as_str()) {
                        let head = inputs.original_head.clone();
                        let m2 = m.clone();
                        (
                            RebaseMappingState::AwaitOriginalBaseAncestry { merge_base, mapped: m },
                            RebaseMappingRequest::IsAncestor(m2, head),
                        )
                    } else {
                        let base = merge_base.clone();
                        walk_original(merge_base, base, inputs)
                    }
                },
                None => {
                    let base = merge_base.clone();
                    walk_original(merge_base, base, inputs)
                },
            }
        },
        (
            RebaseMappingState::AwaitOriginalBaseAncestry { merge_base, mapped },
            RebaseMappingEvent::IsAncestor(is_ancestor),
        ) => {
            let base = if is_ancestor {
                mapped
            } else {
                merge_base.clone()
            };
            walk_original(merge_base, base, inputs)
        },
        (RebaseMappingState::AwaitOriginalWalk { merge_base }, RebaseMappingEvent::Walked(walked)) => {
            match walked {
                Err(e) => (RebaseMappingState::Finished, RebaseMappingRequest::Done(Err(e))),
                Ok(walked) => {
                    if walked.len() == 0 {
                        return (
                            RebaseMappingState::Finished,
                            RebaseMappingRequest::Done(Ok((Vec::new(), Vec::new()))),
                        );
                    }
                    let original_commits = reverse_commits(walked);
                    match &inputs.onto_head {
                        Some(onto) => {
                            if !str_eq(onto.as_str(), merge_base.as_str()) {
                                let a = onto.clone();
                                let d = inputs.new_head.clone();
                                (
                                    RebaseMappingState::AwaitOntoAncestry {
                                        merge_base,
                                        original_commits,
                                    },
                                    RebaseMappingRequest::IsAncestor(a, d),
                                )
                            } else {
                                walk_new(original_commits, merge_base, false, inputs)
                            }
                        },
                        None => walk_new(original_commits, merge_base, false, inputs),
                    }
                },
            }
        },
        (
            RebaseMappingState::AwaitOntoAncestry { merge_base, original_commits },
            RebaseMappingEvent::IsAncestor(is_ancestor),
        ) => {
            match &inputs.onto_head {
                Some(onto) => {
                    if is_ancestor {
                        let base = onto.clone();
                        walk_new(original_commits, base, true, inputs)
                    } else {
                        walk_new(original_commits, merge_base, false, inputs)
                    }
                },
                None => walk_new(original_commits, merge_base, false, inputs),
            }
        },
        (RebaseMappingState::AwaitNewWalk { original_commits }, RebaseMappingEvent::Walked(walked)) => {
            match walked {
                Err(e) => (RebaseMappingState::Finished, RebaseMappingRequest::Done(Err(e))),
                Ok(walked) => {
                    let new_commits = reverse_commits(walked);
                    (
                        RebaseMappingState::Finished,
                        RebaseMappingRequest::Done(Ok((original_commits, new_commits))),
                    )
                },
            }
        },
        (_, _) => {
            assert(false);
            (RebaseMappingState::Finished, RebaseMappingRequest::Done(Err(String::new())))
        },
    }
}

/// A first-parent walk from `head` to `base` is needed: the two differ and
/// some commits are wanted.
pub fn walk_first_parent_commits_needed(head: &str, base: &str, max_count: usize) -> (r: bool)
    ensures
        r == (head@ != base@ && max_count != 0),
{
    !(str_eq(head, base) || max_count == 0)
}

/// The text of `bytes` when they are valid UTF-8: the characters they
/// encode.
pub open spec fn utf8_text(bytes: Seq<u8>) -> Option<Seq<char>> {
    if valid_utf8(bytes) {
        Some(decode_utf8(bytes))
    } else {
        None
    }
}

/// Read `bytes` as UTF-8, if they are valid.
///
/// Calls `String::from_utf8`, which fails exactly on bytes that are not valid
/// UTF-8 and otherwise gives the characters they encode; the contract claims
/// this of it.
#[verifier::external_body]
fn read_utf8(bytes: &Vec<u8>) -> (r: Option<String>)
    ensures
        match r {
            Some(s) => utf8_text(bytes@) == Some(s@),
            None => utf8_text(bytes@) is None,
        },
{
    String::from_utf8(bytes.clone()).ok()
}

/// The commit ids that the lines hold: each line trimmed, blank ones left
/// out; nothing when some line is not UTF-8.
pub open spec fn commit_lines(lines: Seq<Seq<u8>>) -> Option<Seq<Seq<char>>>
    decreases lines.len(),
{
    if lines.len() == 0 {
        Some(Seq::empty())
    } else {
        match (commit_lines(lines.drop_last()), utf8_text(lines.last())) {
            (Some(r), Some(t)) => if trimmed(t).len() > 0 {
                Some(r.push(trimmed(t)))
            } else {
                Some(r)
            },
            _ => None,
        }
    }
}

/// The commit ids of a `git rev-list` output, one per line, newest first;
/// `None` when the output is not UTF-8.
pub fn parse_commit_list(stdout: &Vec<u8>) -> (r: Option<Vec<String>>)
    ensures
        match r {
            Some(v) => commit_lines(pieces(stdout@, 10u8)) == Some(texts(v@)),
            None => commit_lines(pieces(stdout@, 10u8)) is None,
        },
{
    let lines = split_bytes(stdout, 10);
    let ghost ls = bytes_of(lines@);
    let mut r: Vec<String> = Vec::new();
    let mut i: usize = 0;
    while i < lines.len()
        invariant
            i <= lines.len(),
            ls == bytes_of(lines@),
            ls == pieces(stdout@, 10u8),
            commit_lines(ls.take(i as int)) == Some(texts(r@)),
        decreases lines.len() - i,
    {
        assert(ls.take(i + 1).drop_last() =~= ls.take(i as int));
        assert(ls.take(i + 1).last() == lines@[i as int]@);
        match read_utf8(&lines[i]) {
            None => {
                proof {
                    lemma_commit_lines_none_extends(ls, i as int + 1);
                }
                return None;
            },
            Some(text) => {
                let t = trim_text(text.as_str());
                if t.unicode_len() > 0 {
                    let ghost before = texts(r@);
                    r.push(t);
                    assert(texts(r@) =~= before.push(t@));
                }
            },
        }
        i = i + 1;
    }
    assert(ls.take(i as int) =~= ls);
    Some(r)
}

/// Once some line is not UTF-8, the longer lists of lines are not either.
proof fn lemma_commit_lines_none_extends(ls: Seq<Seq<u8>>, k: int)
    requires
        0 <= k <= ls.len(),
        commit_lines(ls.take(k)) is None,
    ensures
        commit_lines(ls) is None,
    decreases ls.len() - k,
{
    if k < ls.len() {
        assert(ls.take(k + 1).drop_last() =~= ls.take(k));
        lemma_commit_lines_none_extends(ls, k + 1);
    } else {
        assert(ls.take(k) =~= ls);
    }
}

} // verus!
