//! Bookkeeping of `install-hooks` and `uninstall-hooks`: the status recorded
//! for each coding agent and git client, the details kept for metrics, and the
//! closing notice.
use crate::attestation::{has_key, lemma_lookup_keys, lookup, unique_keys};
use crate::path_order::chars_less;
use crate::string_map::{keys_in_order, lemma_keys_in_order_unique, StringMap};
use crate::text::{contains_text, join_strings, joined, str_contains, str_eq, strings_view};
use vstd::prelude::*;
use vstd::string::*;

verus! {

/// Installation status for a tool
#[derive(Debug, Clone, Copy, PartialEq, Eq, Structural)]
pub enum InstallStatus {
    /// Tool was not detected on the machine
    NotFound,
    /// Hooks/extensions were successfully installed or updated
    Installed,
    /// Hooks/extensions were already up to date
    AlreadyInstalled,
    /// Installation attempted but failed
    Failed,
}

impl InstallStatus {
    /// The string form of a status.
    pub open spec fn name(self) -> Seq<char> {
        match self {
            InstallStatus::NotFound => "not_found"@,
            InstallStatus::Installed => "installed"@,
            InstallStatus::AlreadyInstalled => "already_installed"@,
            InstallStatus::Failed => "failed"@,
        }
    }

    /// Convert status to string representation
    pub fn as_str(&self) -> (r: &'static str)
        ensures
            r@ == self.name(),
    {
        match self {
            InstallStatus::NotFound => "not_found",
            InstallStatus::Installed => "installed",
            InstallStatus::AlreadyInstalled => "already_installed",
            InstallStatus::Failed => "failed",
        }
    }
}

/// Detailed install result for metrics tracking
#[derive(Debug, Clone)]
pub struct InstallResult {
    pub status: InstallStatus,
    pub error: Option<String>,
    pub warnings: Vec<String>,
}

impl InstallResult {
    pub fn installed() -> (r: InstallResult)
        ensures
            r.status == InstallStatus::Installed,
            r.error is None,
            r.warnings@.len() == 0,
    {
        InstallResult { status: InstallStatus::Installed, error: None, warnings: Vec::new() }
    }

    pub fn already_installed() -> (r: InstallResult)
        ensures
            r.status == InstallStatus::AlreadyInstalled,
            r.error is None,
            r.warnings@.len() == 0,
    {
        InstallResult { status: InstallStatus::AlreadyInstalled, error: None, warnings: Vec::new() }
    }

    pub fn not_found() -> (r: InstallResult)
        ensures
            r.status == InstallStatus::NotFound,
            r.error is None,
            r.warnings@.len() == 0,
    {
        InstallResult { status: InstallStatus::NotFound, error: None, warnings: Vec::new() }
    }

    pub fn failed(msg: String) -> (r: InstallResult)
        ensures
            r.status == InstallStatus::Failed,
            r.error == Some(msg),
            r.warnings@.len() == 0,
    {
        InstallResult { status: InstallStatus::Failed, error: Some(msg), warnings: Vec::new() }
    }

    pub fn with_warning(self, warning: String) -> (r: InstallResult)
        ensures
            r.status == self.status,
            r.error == self.error,
            r.warnings@ == self.warnings@.push(warning),
    {
        let mut s = self;
        s.warnings.push(warning);
        s
    }

    /// Message for metrics: the error if failed, else the warnings joined
    /// with `; `, else nothing.
    pub fn message_for_metrics(&self) -> (r: Option<String>)
        ensures
            match self.error {
                Some(e) => r == Some(e),
                None => if self.warnings@.len() > 0 {
                    r matches Some(m) && m@ == joined(strings_view(self.warnings@), "; "@)
                } else {
                    r is None
                },
            },
    {
        match &self.error {
            Some(err) => Some(err.clone()),
            None => {
                if self.warnings.len() > 0 {
                    Some(join_strings(&self.warnings, "; "))
                } else {
                    None
                }
            },
        }
    }
}

proof fn lemma_lookup_named(
    statuses: Seq<(String, InstallStatus)>,
    names: Seq<(String, String)>,
    key: Seq<char>,
)
    requires
        names.len() == statuses.len(),
        forall|i: int|
            0 <= i < names.len() ==> #[trigger] names[i].0@ == statuses[i].0@ && names[i].1@
                == statuses[i].1.name(),
    ensures
        lookup(names, key) is Some <==> lookup(statuses, key) is Some,
        lookup(statuses, key) is Some ==> lookup(names, key)->0@ == lookup(statuses, key)->0.name(),
    decreases statuses.len(),
{
    if statuses.len() > 0 {
        assert(names[0].0@ == statuses[0].0@);
        assert forall|i: int| 0 <= i < names.drop_first().len() implies #[trigger] names.drop_first()[i].0@
            == statuses.drop_first()[i].0@ && names.drop_first()[i].1@
            == statuses.drop_first()[i].1.name() by {
            assert(names[i + 1].0@ == statuses[i + 1].0@);
        }
        lemma_lookup_named(statuses.drop_first(), names.drop_first(), key);
    }
}

proof fn lemma_named_statuses(statuses: StringMap<InstallStatus>, named: Seq<(String, String)>)
    requires
        named.len() == statuses.pairs().len(),
        forall|i: int|
            0 <= i < named.len() ==> #[trigger] named[i].0@ == statuses.pairs()[i].0@ && named[i].1@
                == statuses.pairs()[i].1.name(),
    ensures
        forall|key: Seq<char>| #[trigger] has_key(named, key) <==> statuses@.contains_key(key),
        forall|key: Seq<char>|
            statuses@.contains_key(key) ==> (#[trigger] lookup(named, key) matches Some(v) && v@
                == statuses@[key].name()),
        statuses.well_formed() ==> keys_in_order(named) && unique_keys(named),
{
    let pairs = statuses.pairs();
    statuses.lemma_view_is_pairs();
    assert forall|key: Seq<char>|
        (lookup(named, key) is Some <==> lookup(pairs, key) is Some) && (lookup(pairs, key) is Some
            ==> lookup(named, key)->0@ == lookup(pairs, key)->0.name()) by {
        lemma_lookup_named(pairs, named, key);
    }
    assert forall|key: Seq<char>| #[trigger] has_key(named, key) <==> statuses@.contains_key(key) by {
        lemma_lookup_keys(pairs, key);
        lemma_lookup_keys(named, key);
    }
    assert forall|key: Seq<char>| statuses@.contains_key(key) implies (#[trigger] lookup(
        named,
        key,
    ) matches Some(v) && v@ == statuses@[key].name()) by {
        lemma_lookup_keys(pairs, key);
    }
    if statuses.well_formed() {
        assert forall|a: int, b: int| 0 <= a < b < named.len() implies chars_less(
            named[a].0@,
            named[b].0@,
        ) by {
            assert(named[a].0@ == pairs[a].0@);
            assert(named[b].0@ == pairs[b].0@);
        }
        lemma_keys_in_order_unique(named);
    }
}

/// Convert the statuses of tools to string keys and values: one pair per
/// tool, in key order, holding that tool's status name; looked up by key, each
/// tool gives its status name.
#[verifier::spinoff_prover]
pub fn to_hashmap(statuses: &StringMap<InstallStatus>) -> (r: Vec<(String, String)>)
    ensures
        r.len() == statuses.pairs().len(),
        forall|i: int|
            0 <= i < r.len() ==> #[trigger] r@[i].0@ == statuses.pairs()[i].0@ && r@[i].1@
                == statuses.pairs()[i].1.name(),
        forall|key: Seq<char>| #[trigger] has_key(r@, key) <==> statuses@.contains_key(key),
        forall|key: Seq<char>|
            statuses@.contains_key(key) ==> (#[trigger] lookup(r@, key) matches Some(v) && v@
                == statuses@[key].name()),
        statuses.well_formed() ==> keys_in_order(r@) && unique_keys(r@),
{
    let pairs = statuses.as_pairs();
    let mut r: Vec<(String, String)> = Vec::new();
    let mut i: usize = 0;
    while i < pairs.len()
        invariant
            i <= pairs.len(),
            pairs@ == statuses.pairs(),
            r.len() == i,
            forall|k: int|
                0 <= k < i ==> #[trigger] r@[k].0@ == pairs@[k].0@ && r@[k].1@ == pairs@[k].1.name(),
        decreases pairs.len() - i,
    {
        let key = pairs[i].0.clone();
        let value = String::from_str(pairs[i].1.as_str());
        r.push((key, value));
        i = i + 1;
    }
    proof {
        lemma_named_statuses(*statuses, r@);
    }
    r
}

/// One result of installing or removing an agent's extras (extensions,
/// `git.path` settings and the like).
#[derive(Debug, Clone)]
pub struct ExtraResult {
    pub changed: bool,
    pub message: String,
}

/// How updating an agent's config-file hooks went.
#[derive(Debug, Clone)]
pub enum HooksOutcome {
    /// The agent does not use config-file hooks.
    NotAttempted,
    /// Hooks were written (or would be, in a dry run).
    Updated,
    /// Hooks were already up to date.
    UpToDate,
    /// Updating them failed with this message.
    Failed(String),
}

/// What checking and installing one coding agent gave.
#[derive(Debug)]
pub enum AgentInstallOutcome {
    /// The version check failed with this message.
    CheckFailed(String),
    /// The agent is not installed.
    NotInstalled,
    /// The agent is installed: its hooks and its extras.
    Checked { hooks: HooksOutcome, extras: Result<Vec<ExtraResult>, String> },
}

/// What checking and configuring one git client gave.
#[derive(Debug)]
pub enum ClientInstallOutcome {
    /// Checking the client failed with this message.
    CheckFailed(String),
    /// The client is not installed.
    NotInstalled,
    /// Its preferences were updated (`Ok(true)`), already up to date
    /// (`Ok(false)`), or updating them failed.
    Checked(Result<bool, String>),
}

/// How an extra's message is shown.
#[derive(Debug, Clone, Copy, PartialEq, Eq, Structural)]
pub enum ExtraDisplay {
    Success,
    Pending,
    Hidden,
}

/// The message reports a problem worth keeping for metrics.
pub open spec fn is_warning_message(m: Seq<char>) -> bool {
    contains_text(m, "Unable"@) || contains_text(m, "manually"@) || contains_text(m, "Failed"@)
}

/// How an installed extra's message is shown: changes as done (or pending in
/// a dry run), "already" messages as done, messages asking for manual action
/// as pending, and nothing else.
pub fn extra_display(changed: bool, dry_run: bool, message: &str) -> (r: ExtraDisplay)
    ensures
        r == (if changed && !dry_run {
            ExtraDisplay::Success
        } else if changed && dry_run {
            ExtraDisplay::Pending
        } else if contains_text(message@, "already"@) {
            ExtraDisplay::Success
        } else if contains_text(message@, "Unable"@) || contains_text(message@, "manually"@) {
            ExtraDisplay::Pending
        } else {
            ExtraDisplay::Hidden
        }),
{
    if changed && !dry_run {
        ExtraDisplay::Success
    } else if changed && dry_run {
        ExtraDisplay::Pending
    } else if str_contains(message, "already") {
        ExtraDisplay::Success
    } else if str_contains(message, "Unable") || str_contains(message, "manually") {
        ExtraDisplay::Pending
    } else {
        ExtraDisplay::Hidden
    }
}

/// The index of the first occurrence of `id` in `ids`, if any.
pub open spec fn first_index(ids: Seq<Seq<char>>, id: Seq<char>) -> Option<int>
    decreases ids.len(),
{
    if ids.len() == 0 {
        None
    } else {
        match first_index(ids.drop_last(), id) {
            Some(i) => Some(i),
            None => if ids.last() == id {
                Some(ids.len() - 1)
            } else {
                None
            },
        }
    }
}

/// The tool ids of detailed results.
pub open spec fn result_ids(results: Seq<(String, InstallResult)>) -> Seq<Seq<char>> {
    results.map_values(|r: (String, InstallResult)| r.0@)
}

/// The warnings of detailed results.
pub open spec fn result_warnings(results: Seq<(String, InstallResult)>) -> Seq<Seq<Seq<char>>> {
    results.map_values(|r: (String, InstallResult)| strings_view(r.1.warnings@))
}

/// The status and error of detailed results.
pub open spec fn result_outcomes(results: Seq<(String, InstallResult)>) -> Seq<
    (InstallStatus, Option<String>),
> {
    results.map_values(|r: (String, InstallResult)| (r.1.status, r.1.error))
}

/// The warnings that extras results add: the messages that report problems.
pub open spec fn extras_warnings(results: Seq<ExtraResult>) -> Seq<Seq<char>>
    decreases results.len(),
{
    if results.len() == 0 {
        Seq::empty()
    } else if is_warning_message(results.last().message@) {
        extras_warnings(results.drop_last()).push(results.last().message@)
    } else {
        extras_warnings(results.drop_last())
    }
}

/// Some extras result changed something.
pub open spec fn any_changed(results: Seq<ExtraResult>) -> bool {
    exists|i: int| 0 <= i < results.len() && #[trigger] results[i].changed
}

/// The warnings that installing extras adds to a tool's result.
pub open spec fn extras_outcome_warnings(extras: Result<Vec<ExtraResult>, String>) -> Seq<
    Seq<char>,
> {
    match extras {
        Ok(results) => extras_warnings(results@),
        Err(e) => seq!["Extras install error: "@ + e@],
    }
}

/// The warnings `ws` of results with tool ids `ids`, with `extra` appended to
/// the first result of `id`; unchanged when `id` has none.
pub open spec fn add_warnings(
    ids: Seq<Seq<char>>,
    ws: Seq<Seq<Seq<char>>>,
    id: Seq<char>,
    extra: Seq<Seq<char>>,
) -> Seq<Seq<Seq<char>>> {
    Seq::new(
        ws.len(),
        |i: int|
            if first_index(ids, id) == Some(i) {
                ws[i] + extra
            } else {
                ws[i]
            },
    )
}

/// Statuses and metrics details collected while installing hooks.
pub struct InstallRun {
    /// Some agent or client was present (or its check failed).
    pub any_checked: bool,
    /// Something was (or, in a dry run, would be) changed.
    pub has_changes: bool,
    /// The status of each tool id.
    pub statuses: StringMap<InstallStatus>,
    /// Detailed results for metrics, in the order they were recorded.
    pub detailed_results: Vec<(String, InstallResult)>,
}

/// The status and the detailed result (status, error) recorded for an
/// installed agent's hooks, if any.
pub open spec fn hooks_result(hooks: HooksOutcome) -> Option<
    (InstallStatus, (InstallStatus, Option<String>)),
> {
    match hooks {
        HooksOutcome::NotAttempted => None,
        HooksOutcome::Updated => Some(
            (InstallStatus::Installed, (InstallStatus::Installed, None)),
        ),
        HooksOutcome::UpToDate => Some(
            (InstallStatus::AlreadyInstalled, (InstallStatus::AlreadyInstalled, None)),
        ),
        HooksOutcome::Failed(e) => Some((InstallStatus::NotFound, (InstallStatus::Failed, Some(e)))),
    }
}

/// What to print once every tool was visited.
#[derive(Debug, Clone, Copy, PartialEq, Eq, Structural)]
pub enum ClosingNotice {
    /// Nothing was detected (install) or no hooks were found (uninstall).
    NothingFound,
    /// A dry run found changes to make.
    DryRunPending,
    /// Uninstall removed everything without changes left to make.
    AllRemoved,
    /// Nothing more to say.
    Quiet,
}

impl InstallRun {
    /// A run that starts after the skills were installed; `skills_changed`
    /// tells whether that changed anything.
    pub fn new(skills_changed: bool) -> (r: InstallRun)
        ensures
            !r.any_checked,
            r.has_changes == skills_changed,
            r.statuses@ == Map::<Seq<char>, InstallStatus>::empty(),
            r.statuses.well_formed(),
            r.detailed_results@.len() == 0,
    {
        InstallRun {
            any_checked: false,
            has_changes: skills_changed,
            statuses: StringMap::new(),
            detailed_results: Vec::new(),
        }
    }

    /// Add `warnings` to the first detailed result of `id`, if there is one.
    fn add_warnings_for(&mut self, id: &String, warnings: Vec<String>)
        ensures
            final(self).any_checked == old(self).any_checked,
            final(self).has_changes == old(self).has_changes,
            final(self).statuses == old(self).statuses,
            final(self).detailed_results.len() == old(self).detailed_results.len(),
            result_ids(final(self).detailed_results@) == result_ids(old(self).detailed_results@),
            result_outcomes(final(self).detailed_results@) == result_outcomes(
                old(self).detailed_results@,
            ),
            result_warnings(final(self).detailed_results@) == add_warnings(
                result_ids(old(self).detailed_results@),
                result_warnings(old(self).detailed_results@),
                id@,
                strings_view(warnings@),
            ),
    {
        let ghost old_results = self.detailed_results@;
        let ghost old_ids = result_ids(old_results);
        let ghost extra = strings_view(warnings@);
        let mut i: usize = 0;
        while i < self.detailed_results.len()
            invariant
                i <= self.detailed_results.len(),
                self.detailed_results@ == old_results,
                self.any_checked == old(self).any_checked,
                self.has_changes == old(self).has_changes,
                self.statuses == old(self).statuses,
                old_results == old(self).detailed_results@,
                old_ids == result_ids(old_results),
                extra == strings_view(warnings@),
                forall|k: int| 0 <= k < i ==> self.detailed_results@[k].0@ != id@,
            decreases self.detailed_results.len() - i,
        {
            if self.detailed_results[i].0 == *id {
                proof {
                    assert forall|k: int| 0 <= k < i implies old_ids[k] != id@ by {
                        assert(old_ids[k] == old_results[k].0@);
                    }
                    lemma_first_index(old_ids, id@, i as int);
                }
                let mut entry = self.detailed_results.remove(i);
                let ghost before_warnings = entry.1.warnings@;
                let mut j: usize = 0;
                while j < warnings.len()
                    invariant
                        j <= warnings.len(),
                        strings_view(entry.1.warnings@) =~= strings_view(before_warnings)
                            + strings_view(warnings@.take(j as int)),
                        entry.0 == old_results[i as int].0,
                        entry.1.status == old_results[i as int].1.status,
                        entry.1.error == old_results[i as int].1.error,
                    decreases warnings.len() - j,
                {
                    let w = warnings[j].clone();
                    let ghost prev = entry.1.warnings@;
                    entry.1.warnings.push(w);
                    assert(warnings@.take(j + 1) =~= warnings@.take(j as int).push(warnings@[j as int]));
                    assert(strings_view(entry.1.warnings@) =~= strings_view(prev).push(w@));
                    j = j + 1;
                }
                assert(warnings@.take(j as int) =~= warnings@);
                self.detailed_results.insert(i, entry);
                proof {
                    let after = self.detailed_results@;
                    assert(after =~= old_results.update(i as int, entry));
                    assert(result_ids(after) =~= result_ids(old_results));
                    assert(result_outcomes(after) =~= result_outcomes(old_results));
                    assert(result_warnings(after) =~= add_warnings(
                        old_ids,
                        result_warnings(old_results),
                        id@,
                        extra,
                    ));
                }
                return ;
            }
            i = i + 1;
        }
        proof {
            assert forall|k: int| 0 <= k < old_ids.len() implies old_ids[k] != id@ by {
                assert(old_ids[k] == old_results[k].0@);
            }
            lemma_no_index(old_ids, id@);
            assert(result_warnings(self.detailed_results@) =~= add_warnings(
                old_ids,
                result_warnings(old_results),
                id@,
                extra,
            ));
        }
    }

    /// Record what checking and installing the coding agent `id` gave.
    pub fn record_agent(&mut self, id: String, outcome: AgentInstallOutcome)
        requires
            old(self).statuses.well_formed(),
        ensures
            final(self).statuses.well_formed(),
            match outcome {
                AgentInstallOutcome::CheckFailed(msg) => {
                    &&& final(self).any_checked
                    &&& final(self).has_changes == old(self).has_changes
                    &&& final(self).statuses@ == old(self).statuses@.insert(id@, InstallStatus::NotFound)
                    &&& final(self).detailed_results@.len() == old(self).detailed_results@.len() + 1
                    &&& final(self).detailed_results@.drop_last() == old(self).detailed_results@
                    &&& final(self).detailed_results@.last().0 == id
                    &&& final(self).detailed_results@.last().1.status == InstallStatus::Failed
                    &&& final(self).detailed_results@.last().1.error == Some(msg)
                    &&& final(self).detailed_results@.last().1.warnings@.len() == 0
                },
                AgentInstallOutcome::NotInstalled => {
                    &&& final(self).any_checked == old(self).any_checked
                    &&& final(self).has_changes == old(self).has_changes
                    &&& final(self).statuses@ == old(self).statuses@.insert(id@, InstallStatus::NotFound)
                    &&& final(self).detailed_results@.len() == old(self).detailed_results@.len() + 1
                    &&& final(self).detailed_results@.drop_last() == old(self).detailed_results@
                    &&& final(self).detailed_results@.last().0 == id
                    &&& final(self).detailed_results@.last().1.status == InstallStatus::NotFound
                    &&& final(self).detailed_results@.last().1.error is None
                    &&& final(self).detailed_results@.last().1.warnings@.len() == 0
                },
                AgentInstallOutcome::Checked { hooks, extras } => {
                    let base = old(self).detailed_results@;
                    let ids = match hooks_result(hooks) {
                        Some(_) => result_ids(base).push(id@),
                        None => result_ids(base),
                    };
                    let ws = match hooks_result(hooks) {
                        Some(_) => result_warnings(base).push(Seq::empty()),
                        None => result_warnings(base),
                    };
                    let outcomes = match hooks_result(hooks) {
                        Some((_, o)) => result_outcomes(base).push(o),
                        None => result_outcomes(base),
                    };
                    &&& final(self).any_checked
                    &&& final(self).has_changes == (old(self).has_changes || hooks is Updated
                        || (extras matches Ok(results) && any_changed(results@)))
                    &&& final(self).statuses@ == match hooks_result(hooks) {
                        Some((status, _)) => old(self).statuses@.insert(id@, status),
                        None => old(self).statuses@,
                    }
                    &&& result_ids(final(self).detailed_results@) == ids
                    &&& result_outcomes(final(self).detailed_results@) == outcomes
                    &&& result_warnings(final(self).detailed_results@) == add_warnings(
                        ids,
                        ws,
                        id@,
                        extras_outcome_warnings(extras),
                    )
                },
            },
    {
        match outcome {
            AgentInstallOutcome::CheckFailed(msg) => {
                self.any_checked = true;
                self.statuses.insert(id.clone(), InstallStatus::NotFound);
                self.detailed_results.push((id, InstallResult::failed(msg)));
            },
            AgentInstallOutcome::NotInstalled => {
                self.statuses.insert(id.clone(), InstallStatus::NotFound);
                self.detailed_results.push((id, InstallResult::not_found()));
            },
            AgentInstallOutcome::Checked { hooks, extras } => {
                self.any_checked = true;
                let ghost base = self.detailed_results@;
                let ghost pushed = hooks_result(hooks) is Some;
                match hooks {
                    HooksOutcome::NotAttempted => {},
                    HooksOutcome::Updated => {
                        self.has_changes = true;
                        self.statuses.insert(id.clone(), InstallStatus::Installed);
                        self.detailed_results.push((id.clone(), InstallResult::installed()));
                    },
                    HooksOutcome::UpToDate => {
                        self.statuses.insert(id.clone(), InstallStatus::AlreadyInstalled);
                        self.detailed_results.push((id.clone(), InstallResult::already_installed()));
                    },
                    HooksOutcome::Failed(e) => {
                        self.statuses.insert(id.clone(), InstallStatus::NotFound);
                        self.detailed_results.push((id.clone(), InstallResult::failed(e)));
                    },
                }
                let ghost with_hooks = self.detailed_results@;
                proof {
                    if pushed {
                        assert(result_ids(with_hooks) =~= result_ids(base).push(id@));
                        assert(with_hooks.last().1.warnings@.len() == 0);
                        assert(strings_view(with_hooks.last().1.warnings@) =~= Seq::<
                            Seq<char>,
                        >::empty());
                        assert(result_warnings(with_hooks) =~= result_warnings(base).push(
                            Seq::empty(),
                        ));
                    } else {
                        assert(with_hooks == base);
                    }
                }
                let ghost changed_before = self.has_changes;
                let ghost statuses_now = self.statuses;
                let warnings = match extras {
                    Ok(results) => {
                        let mut warnings: Vec<String> = Vec::new();
                        let mut k: usize = 0;
                        while k < results.len()
                            invariant
                                k <= results.len(),
                                self.any_checked,
                                self.statuses == statuses_now,
                                self.detailed_results@ == with_hooks,
                                self.has_changes == (changed_before || any_changed(results@.take(k as int))),
                                strings_view(warnings@) =~= extras_warnings(results@.take(k as int)),
                            decreases results.len() - k,
                        {
                            proof {
                                assert(results@.take(k + 1).drop_last() =~= results@.take(k as int));
                                assert(results@.take(k + 1).last() == results@[k as int]);
                            }
                            if results[k].changed {
                                self.has_changes = true;
                                assert(results@.take(k + 1)[k as int].changed);
                            }
                            proof {
                                assert(any_changed(results@.take(k + 1)) == (any_changed(
                                    results@.take(k as int),
                                ) || results@[k as int].changed)) by {
                                    if any_changed(results@.take(k + 1)) {
                                        let q = choose|q: int|
                                            0 <= q < k + 1 && #[trigger] results@.take(k + 1)[q].changed;
                                        if q < k {
                                            assert(results@.take(k as int)[q].changed);
                                        }
                                    }
                                    if any_changed(results@.take(k as int)) {
                                        let q = choose|q: int|
                                            0 <= q < k && #[trigger] results@.take(k as int)[q].changed;
                                        assert(results@.take(k + 1)[q].changed);
                                    }
                                }
                            }
                            let m = results[k].message.as_str();
                            if str_contains(m, "Unable") || str_contains(m, "manually")
                                || str_contains(m, "Failed") {
                                warnings.push(results[k].message.clone());
                            }
                            k = k + 1;
                        }
                        assert(results@.take(k as int) =~= results@);
                        warnings
                    },
                    Err(e) => {
                        let mut w = String::from_str("Extras install error: ");
                        w.append(e.as_str());
                        let mut warnings: Vec<String> = Vec::new();
                        warnings.push(w);
                        assert(strings_view(warnings@) =~= seq!["Extras install error: "@ + e@]);
                        warnings
                    },
                };
                self.add_warnings_for(&id, warnings);
            },
        }
    }

    /// Record what checking and configuring the git client `id` gave.
    pub fn record_client(&mut self, id: String, outcome: ClientInstallOutcome)
        requires
            old(self).statuses.well_formed(),
        ensures
            final(self).statuses.well_formed(),
            final(self).detailed_results@.len() == old(self).detailed_results@.len() + 1,
            final(self).detailed_results@.drop_last() == old(self).detailed_results@,
            final(self).detailed_results@.last().0 == id,
            final(self).detailed_results@.last().1.warnings@.len() == 0,
            match outcome {
                ClientInstallOutcome::CheckFailed(msg) => {
                    &&& final(self).any_checked
                    &&& final(self).has_changes == old(self).has_changes
                    &&& final(self).statuses@ == old(self).statuses@.insert(id@, InstallStatus::NotFound)
                    &&& final(self).detailed_results@.last().1.status == InstallStatus::Failed
                    &&& final(self).detailed_results@.last().1.error == Some(msg)
                },
                ClientInstallOutcome::NotInstalled => {
                    &&& final(self).any_checked == old(self).any_checked
                    &&& final(self).has_changes == old(self).has_changes
                    &&& final(self).statuses@ == old(self).statuses@.insert(id@, InstallStatus::NotFound)
                    &&& final(self).detailed_results@.last().1.status == InstallStatus::NotFound
                    &&& final(self).detailed_results@.last().1.error is None
                },
                ClientInstallOutcome::Checked(Ok(changed)) => {
                    &&& final(self).any_checked
                    &&& final(self).has_changes == (old(self).has_changes || changed)
                    &&& final(self).statuses@ == old(self).statuses@.insert(
                        id@,
                        if changed {
                            InstallStatus::Installed
                        } else {
                            InstallStatus::AlreadyInstalled
                        },
                    )
                    &&& final(self).detailed_results@.last().1.status == if changed {
                        InstallStatus::Installed
                    } else {
                        InstallStatus::AlreadyInstalled
                    }
                    &&& final(self).detailed_results@.last().1.error is None
                },
                ClientInstallOutcome::Checked(Err(msg)) => {
                    &&& final(self).any_checked
                    &&& final(self).has_changes == old(self).has_changes
                    &&& final(self).statuses@ == old(self).statuses@.insert(id@, InstallStatus::NotFound)
                    &&& final(self).detailed_results@.last().1.status == InstallStatus::Failed
                    &&& final(self).detailed_results@.last().1.error == Some(msg)
                },
            },
    {
        match outcome {
            ClientInstallOutcome::CheckFailed(msg) => {
                self.any_checked = true;
                self.statuses.insert(id.clone(), InstallStatus::NotFound);
                self.detailed_results.push((id, InstallResult::failed(msg)));
            },
            ClientInstallOutcome::NotInstalled => {
                self.statuses.insert(id.clone(), InstallStatus::NotFound);
                self.detailed_results.push((id, InstallResult::not_found()));
            },
            ClientInstallOutcome::Checked(Ok(changed)) => {
                self.any_checked = true;
                if changed {
                    self.has_changes = true;
                    self.statuses.insert(id.clone(), InstallStatus::Installed);
                    self.detailed_results.push((id, InstallResult::installed()));
                } else {
                    self.statuses.insert(id.clone(), InstallStatus::AlreadyInstalled);
                    self.detailed_results.push((id, InstallResult::already_installed()));
                }
            },
            ClientInstallOutcome::Checked(Err(msg)) => {
                self.any_checked = true;
                self.statuses.insert(id.clone(), InstallStatus::NotFound);
                self.detailed_results.push((id, InstallResult::failed(msg)));
            },
        }
    }

    /// What to print at the end: nothing detected, or the dry-run note when
    /// a dry run found changes.
    pub fn closing_notice(&self, dry_run: bool) -> (r: ClosingNotice)
        ensures
            r == (if !self.any_checked {
                ClosingNotice::NothingFound
            } else if self.has_changes && dry_run {
                ClosingNotice::DryRunPending
            } else {
                ClosingNotice::Quiet
            }),
    {
        if !self.any_checked {
            ClosingNotice::NothingFound
        } else if self.has_changes && dry_run {
            ClosingNotice::DryRunPending
        } else {
            ClosingNotice::Quiet
        }
    }
}

/// How a removed extra's message is shown: nothing for an empty message,
/// otherwise done when it changed something and pending when not.
pub fn uninstall_extra_display(changed: bool, message: &str) -> (r: ExtraDisplay)
    ensures
        r == (if message@.len() == 0 {
            ExtraDisplay::Hidden
        } else if changed {
            ExtraDisplay::Success
        } else {
            ExtraDisplay::Pending
        }),
{
    if message.unicode_len() == 0 {
        ExtraDisplay::Hidden
    } else if changed {
        ExtraDisplay::Success
    } else {
        ExtraDisplay::Pending
    }
}

/// What checking and uninstalling one coding agent gave.
#[derive(Debug)]
pub enum AgentUninstallOutcome {
    /// Checking the agent failed.
    CheckFailed,
    /// The agent is not installed.
    NotInstalled,
    /// The agent has no git-ai hooks.
    HooksAbsent,
    /// The hooks were removed (`Ok(true)`), there were none to remove
    /// (`Ok(false)`), or removing them failed; then the extras.
    Checked { removal: Result<bool, String>, extras: Result<Vec<ExtraResult>, String> },
}

/// What checking and unconfiguring one git client gave.
#[derive(Debug)]
pub enum ClientUninstallOutcome {
    /// Checking the client failed.
    CheckFailed,
    /// The client is not installed.
    NotInstalled,
    /// The client's preferences hold no git-ai settings.
    PrefsAbsent,
    /// The preferences were removed (`Ok(true)`), there were none to remove
    /// (`Ok(false)`), or removing them failed.
    Checked(Result<bool, String>),
}

/// The status recorded for a removal.
pub open spec fn removal_status(removal: Result<bool, String>) -> InstallStatus {
    match removal {
        Ok(true) => InstallStatus::Installed,
        Ok(false) => InstallStatus::AlreadyInstalled,
        Err(_) => InstallStatus::NotFound,
    }
}

/// Statuses collected while uninstalling hooks.
pub struct UninstallRun {
    /// Some agent with hooks or some configured client was found (or a
    /// client's check failed).
    pub any_checked: bool,
    /// Something was (or, in a dry run, would be) removed.
    pub has_changes: bool,
    /// The status of each tool id.
    pub statuses: StringMap<InstallStatus>,
}

impl UninstallRun {
    /// A run that starts after the skills were uninstalled: `skills` tells
    /// whether that changed anything, and is `None` when it failed.
    pub fn new(skills: Option<bool>) -> (r: UninstallRun)
        ensures
            !r.any_checked,
            r.statuses.well_formed(),
            match skills {
                None => !r.has_changes && r.statuses@ == Map::<Seq<char>, InstallStatus>::empty(),
                Some(changed) => r.has_changes == changed && r.statuses@ == Map::<
                    Seq<char>,
                    InstallStatus,
                >::empty().insert(
                    "skills"@,
                    if changed {
                        InstallStatus::Installed
                    } else {
                        InstallStatus::AlreadyInstalled
                    },
                ),
            },
    {
        let mut statuses = StringMap::new();
        let mut has_changes = false;
        match skills {
            None => {},
            Some(changed) => {
                if changed {
                    has_changes = true;
                    statuses.insert(String::from_str("skills"), InstallStatus::Installed);
                } else {
                    statuses.insert(String::from_str("skills"), InstallStatus::AlreadyInstalled);
                }
            },
        }
        UninstallRun { any_checked: false, has_changes, statuses }
    }

    /// Record what checking and uninstalling the coding agent `id` gave.
    pub fn record_agent(&mut self, id: String, outcome: AgentUninstallOutcome)
        requires
            old(self).statuses.well_formed(),
        ensures
            final(self).statuses.well_formed(),
            match outcome {
                AgentUninstallOutcome::Checked { removal, extras } => {
                    &&& final(self).any_checked
                    &&& final(self).has_changes == (old(self).has_changes || removal == Ok::<
                        bool,
                        String,
                    >(true) || (extras matches Ok(results) && any_changed(results@)))
                    &&& final(self).statuses@ == old(self).statuses@.insert(
                        id@,
                        removal_status(removal),
                    )
                },
                _ => {
                    &&& final(self).any_checked == old(self).any_checked
                    &&& final(self).has_changes == old(self).has_changes
                    &&& final(self).statuses@ == old(self).statuses@.insert(
                        id@,
                        InstallStatus::NotFound,
                    )
                },
            },
    {
        match outcome {
            AgentUninstallOutcome::Checked { removal, extras } => {
                self.any_checked = true;
                match removal {
                    Ok(true) => {
                        self.has_changes = true;
                        self.statuses.insert(id, InstallStatus::Installed);
                    },
                    Ok(false) => {
                        self.statuses.insert(id, InstallStatus::AlreadyInstalled);
                    },
                    Err(_) => {
                        self.statuses.insert(id, InstallStatus::NotFound);
                    },
                }
                match extras {
                    Ok(results) => {
                        let ghost changed_before = self.has_changes;
                        let ghost statuses_now = self.statuses;
                        let mut k: usize = 0;
                        while k < results.len()
                            invariant
                                k <= results.len(),
                                self.any_checked,
                                self.statuses == statuses_now,
                                self.has_changes == (changed_before || any_changed(
                                    results@.take(k as int),
                                )),
                            decreases results.len() - k,
                        {
                            if results[k].changed {
                                self.has_changes = true;
                                assert(results@.take(k + 1)[k as int].changed);
                            }
                            proof {
                                assert(any_changed(results@.take(k + 1)) == (any_changed(
                                    results@.take(k as int),
                                ) || results@[k as int].changed)) by {
                                    if any_changed(results@.take(k + 1)) {
                                        let q = choose|q: int|
                                            0 <= q < k + 1 && #[trigger] results@.take(
                                                k + 1,
                                            )[q].changed;
                                        if q < k {
                                            assert(results@.take(k as int)[q].changed);
                                        }
                                    }
                                    if any_changed(results@.take(k as int)) {
                                        let q = choose|q: int|
                                            0 <= q < k && #[trigger] results@.take(
                                                k as int,
                                            )[q].changed;
                                        assert(results@.take(k + 1)[q].changed);
                                    }
                                }
                            }
                            k = k + 1;
                        }
                        assert(results@.take(k as int) =~= results@);
                    },
                    Err(_) => {},
                }
            },
            _ => {
                self.statuses.insert(id, InstallStatus::NotFound);
            },
        }
    }

    /// Record what checking and unconfiguring the git client `id` gave.
    pub fn record_client(&mut self, id: String, outcome: ClientUninstallOutcome)
        requires
            old(self).statuses.well_formed(),
        ensures
            final(self).statuses.well_formed(),
            match outcome {
                ClientUninstallOutcome::CheckFailed => {
                    &&& final(self).any_checked
                    &&& final(self).has_changes == old(self).has_changes
                    &&& final(self).statuses@ == old(self).statuses@.insert(
                        id@,
                        InstallStatus::NotFound,
                    )
                },
                ClientUninstallOutcome::Checked(removal) => {
                    &&& final(self).any_checked
                    &&& final(self).has_changes == (old(self).has_changes || removal == Ok::<
                        bool,
                        String,
                    >(true))
                    &&& final(self).statuses@ == old(self).statuses@.insert(
                        id@,
                        removal_status(removal),
                    )
                },
                _ => {
                    &&& final(self).any_checked == old(self).any_checked
                    &&& final(self).has_changes == old(self).has_changes
                    &&& final(self).statuses@ == old(self).statuses@.insert(
                        id@,
                        InstallStatus::NotFound,
                    )
                },
            },
    {
        match outcome {
            ClientUninstallOutcome::CheckFailed => {
                self.any_checked = true;
                self.statuses.insert(id, InstallStatus::NotFound);
            },
            ClientUninstallOutcome::Checked(removal) => {
                self.any_checked = true;
                match removal {
                    Ok(true) => {
                        self.has_changes = true;
                        self.statuses.insert(id, InstallStatus::Installed);
                    },
                    Ok(false) => {
                        self.statuses.insert(id, InstallStatus::AlreadyInstalled);
                    },
                    Err(_) => {
                        self.statuses.insert(id, InstallStatus::NotFound);
                    },
                }
            },
            _ => {
                self.statuses.insert(id, InstallStatus::NotFound);
            },
        }
    }

    /// What to print at the end: no hooks found, the dry-run note when a dry
    /// run found changes, or that everything was removed when nothing was
    /// left to change.
    pub fn closing_notice(&self, dry_run: bool) -> (r: ClosingNotice)
        ensures
            r == (if !self.any_checked {
                ClosingNotice::NothingFound
            } else if self.has_changes && dry_run {
                ClosingNotice::DryRunPending
            } else if !self.has_changes {
                ClosingNotice::AllRemoved
            } else {
                ClosingNotice::Quiet
            }),
    {
        if !self.any_checked {
            ClosingNotice::NothingFound
        } else if self.has_changes && dry_run {
            ClosingNotice::DryRunPending
        } else if !self.has_changes {
            ClosingNotice::AllRemoved
        } else {
            ClosingNotice::Quiet
        }
    }
}

proof fn lemma_first_index(ids: Seq<Seq<char>>, id: Seq<char>, i: int)
    requires
        0 <= i < ids.len(),
        ids[i] == id,
        forall|k: int| 0 <= k < i ==> ids[k] != id,
    ensures
        first_index(ids, id) == Some(i),
    decreases ids.len(),
{
    if i < ids.len() - 1 {
        lemma_first_index(ids.drop_last(), id, i);
    } else {
        lemma_no_index(ids.drop_last(), id);
    }
}

proof fn lemma_no_index(ids: Seq<Seq<char>>, id: Seq<char>)
    requires
        forall|k: int| 0 <= k < ids.len() ==> ids[k] != id,
    ensures
        first_index(ids, id) is None,
    decreases ids.len(),
{
    if ids.len() > 0 {
        lemma_no_index(ids.drop_last(), id);
    }
}

/// Some argument asks for a dry run: `--dry-run` or `--dry-run=true`.
pub open spec fn asks_dry_run(args: Seq<String>) -> bool {
    exists|i: int|
        0 <= i < args.len() && (#[trigger] args[i]@ == "--dry-run"@ || args[i]@ == "--dry-run=true"@)
}

/// Some argument asks for verbose output: `--verbose` or `-v`.
pub open spec fn asks_verbose(args: Seq<String>) -> bool {
    exists|i: int| 0 <= i < args.len() && (#[trigger] args[i]@ == "--verbose"@ || args[i]@ == "-v"@)
}

/// The flags of `install-hooks` and `uninstall-hooks`: whether to make a
/// dry run, and whether to show the diffs.
pub fn parse_install_flags(args: &[String]) -> (r: (bool, bool))
    ensures
        r.0 == asks_dry_run(args@),
        r.1 == asks_verbose(args@),
{
    let mut dry_run = false;
    let mut verbose = false;
    let mut i: usize = 0;
    while i < args.len()
        invariant
            i <= args.len(),
            dry_run == asks_dry_run(args@.take(i as int)),
            verbose == asks_verbose(args@.take(i as int)),
        decreases args.len() - i,
    {
        let arg = args[i].as_str();
        let d = str_eq(arg, "--dry-run") || str_eq(arg, "--dry-run=true");
        let v = str_eq(arg, "--verbose") || str_eq(arg, "-v");
        proof {
            let before = args@.take(i as int);
            let after = args@.take(i + 1);
            assert(after =~= before.push(args@[i as int]));
            if asks_dry_run(after) && !d {
                let k = choose|k: int|
                    0 <= k < after.len() && (#[trigger] after[k]@ == "--dry-run"@ || after[k]@
                        == "--dry-run=true"@);
                assert(before[k] == after[k]);
            }
            if asks_verbose(after) && !v {
                let k = choose|k: int|
                    0 <= k < after.len() && (#[trigger] after[k]@ == "--verbose"@ || after[k]@
                        == "-v"@);
                assert(before[k] == after[k]);
            }
            if d {
                assert(after[i as int]@ == "--dry-run"@ || after[i as int]@ == "--dry-run=true"@);
            }
            if v {
                assert(after[i as int]@ == "--verbose"@ || after[i as int]@ == "-v"@);
            }
            if asks_dry_run(before) {
                let k = choose|k: int|
                    0 <= k < before.len() && (#[trigger] before[k]@ == "--dry-run"@ || before[k]@
                        == "--dry-run=true"@);
                assert(after[k] == before[k]);
            }
            if asks_verbose(before) {
                let k = choose|k: int|
                    0 <= k < before.len() && (#[trigger] before[k]@ == "--verbose"@ || before[k]@
                        == "-v"@);
                assert(after[k] == before[k]);
            }
        }
        dry_run = dry_run || d;
        verbose = verbose || v;
        i = i + 1;
    }
    assert(args@.take(args.len() as int) =~= args@);
    (dry_run, verbose)
}

/// The note printed after Amp's hooks are set up.
pub open spec fn amp_note() -> Seq<char> {
    "  Note: Amp plugins are experimental. Run amp with `PLUGINS=all amp`."@
}

/// The note to print after the hooks of `installer_id` are set up: one for
/// Amp, none for the others.
pub fn amp_plugins_note(installer_id: &str) -> (r: Option<String>)
    ensures
        installer_id@ == "amp"@ ==> (r matches Some(n) && n@ == amp_note()),
        installer_id@ != "amp"@ ==> r is None,
{
    if str_eq(installer_id, "amp") {
        Some(String::from_str("  Note: Amp plugins are experimental. Run amp with `PLUGINS=all amp`."))
    } else {
        None
    }
}

/// The metrics message of a result: its error, else its warnings joined
/// with `; `, else none.
pub open spec fn metrics_message(r: InstallResult) -> Option<Seq<char>> {
    match r.error {
        Some(e) => Some(e@),
        None => if r.warnings@.len() > 0 {
            Some(joined(strings_view(r.warnings@), "; "@))
        } else {
            None
        },
    }
}

/// The values of the metrics event recorded for each result of an install:
/// the tool id, the status as text, and the message (none when there is
/// nothing to report).
pub fn install_metrics_values(results: &Vec<(String, InstallResult)>) -> (r: Vec<
    (String, String, Option<String>),
>)
    ensures
        r.len() == results.len(),
        forall|i: int|
            0 <= i < r.len() ==> {
                &&& #[trigger] r@[i].0@ == results@[i].0@
                &&& r@[i].1@ == results@[i].1.status.name()
                &&& match r@[i].2 {
                    Some(m) => metrics_message(results@[i].1) == Some(m@),
                    None => metrics_message(results@[i].1) is None,
                }
            },
{
    let mut r: Vec<(String, String, Option<String>)> = Vec::new();
    let mut i: usize = 0;
    while i < results.len()
        invariant
            i <= results.len(),
            r.len() == i,
            forall|k: int|
                0 <= k < i ==> {
                    &&& #[trigger] r@[k].0@ == results@[k].0@
                    &&& r@[k].1@ == results@[k].1.status.name()
                    &&& match r@[k].2 {
                        Some(m) => metrics_message(results@[k].1) == Some(m@),
                        None => metrics_message(results@[k].1) is None,
                    }
                },
        decreases results.len() - i,
    {
        let (id, result) = &results[i];
        let status = String::from_str(result.status.as_str());
        let message = result.message_for_metrics();
        let item = (id.clone(), status, message);
        assert(item.0@ == results@[i as int].0@);
        assert(item.1@ == results@[i as int].1.status.name());
        let ghost before = r@;
        r.push(item);
        assert forall|k: int| 0 <= k < i implies r@[k] == before[k] by {}
        assert(r@[i as int] == item);
        i = i + 1;
    }
    r
}

} // verus!
