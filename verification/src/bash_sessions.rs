//! The bash tool calls in progress, keyed by session id and tool-use id.
use crate::authorship_log::AgentId;
use crate::bash_tool::StatSnapshot;
use crate::string_map::StringMap;
use crate::text::str_eq;
use vstd::prelude::*;

verus! {

/// A session that started this many seconds ago is stale.
pub const STALE_SESSION_SECS: u64 = 300;

/// A bash tool call in progress: its repository, agent, metadata and
/// pre-snapshot.
pub struct BashSession {
    pub repo_work_dir: String,
    pub agent_id: AgentId,
    pub metadata: StringMap<String>,
    pub stat_snapshot: StatSnapshot,
    /// When the call started, in nanoseconds of the caller's monotonic clock.
    pub started_at_nanos: u64,
}

/// The time since `started`, or zero when `now` is earlier.
pub open spec fn elapsed_nanos(started: u64, now: u64) -> int {
    if now >= started {
        now - started
    } else {
        0
    }
}

/// The session started less than `STALE_SESSION_SECS` before `now`.
pub open spec fn is_fresh(s: BashSession, now: u64) -> bool {
    elapsed_nanos(s.started_at_nanos, now) < STALE_SESSION_SECS as int * 1000000000
}

/// A session stays fresh for 300 seconds after it started, by the caller's
/// clock; a clock that reads earlier than the start counts no time.
pub proof fn lemma_fresh_for_five_minutes(s: BashSession, now: u64)
    ensures
        is_fresh(s, now) <==> (now < s.started_at_nanos || now - s.started_at_nanos
            < 300_000_000_000),
{
}

/// The key of a stored session: its session id and tool-use id.
pub open spec fn key_of(e: ((String, String), BashSession)) -> (Seq<char>, Seq<char>) {
    (e.0.0@, e.0.1@)
}

/// Some stored session has key `k`.
pub open spec fn holds_key(s: Seq<((String, String), BashSession)>, k: (Seq<char>, Seq<char>)) -> bool {
    exists|i: int| 0 <= i < s.len() && #[trigger] key_of(s[i]) == k
}

/// No key is stored twice.
pub open spec fn distinct_keys(s: Seq<((String, String), BashSession)>) -> bool {
    forall|i: int, j: int| 0 <= i < j < s.len() ==> key_of(s[i]) != key_of(s[j])
}

/// The session stored under `k`.
pub open spec fn session_for(s: Seq<((String, String), BashSession)>, k: (Seq<char>, Seq<char>)) -> BashSession {
    s[choose|i: int| 0 <= i < s.len() && #[trigger] key_of(s[i]) == k].1
}

/// The sessions, by key.
pub open spec fn sessions_map(s: Seq<((String, String), BashSession)>) -> Map<
    (Seq<char>, Seq<char>),
    BashSession,
> {
    Map::new(|k: (Seq<char>, Seq<char>)| holds_key(s, k), |k: (Seq<char>, Seq<char>)| session_for(s, k))
}

/// The sessions of `m` that are fresh at `now`.
pub open spec fn fresh_only(m: Map<(Seq<char>, Seq<char>), BashSession>, now: u64) -> Map<
    (Seq<char>, Seq<char>),
    BashSession,
> {
    Map::new(
        |k: (Seq<char>, Seq<char>)| m.contains_key(k) && is_fresh(m[k], now),
        |k: (Seq<char>, Seq<char>)| m[k],
    )
}

proof fn lemma_session_for(s: Seq<((String, String), BashSession)>, i: int)
    requires
        distinct_keys(s),
        0 <= i < s.len(),
    ensures
        holds_key(s, key_of(s[i])),
        session_for(s, key_of(s[i])) == s[i].1,
{
    let k = key_of(s[i]);
    assert(key_of(s[i]) == k);
    let j = choose|j: int| 0 <= j < s.len() && #[trigger] key_of(s[j]) == k;
    if j != i {
        if j < i {
            assert(key_of(s[j]) != key_of(s[i]));
        } else {
            assert(key_of(s[i]) != key_of(s[j]));
        }
    }
}

/// The stored sessions that are fresh at `now`, in order.
pub open spec fn fresh_filter(s: Seq<((String, String), BashSession)>, now: u64) -> Seq<
    ((String, String), BashSession),
>
    decreases s.len(),
{
    if s.len() == 0 {
        s
    } else {
        let r = fresh_filter(s.drop_last(), now);
        if is_fresh(s.last().1, now) {
            r.push(s.last())
        } else {
            r
        }
    }
}

/// Keeping the fresh sessions keeps their keys distinct and keeps exactly
/// the fresh entries of the map.
proof fn lemma_fresh_filter(s: Seq<((String, String), BashSession)>, now: u64)
    requires
        distinct_keys(s),
    ensures
        distinct_keys(fresh_filter(s, now)),
        forall|k: (Seq<char>, Seq<char>)|
            #[trigger] holds_key(fresh_filter(s, now), k) == (holds_key(s, k) && is_fresh(
                session_for(s, k),
                now,
            )),
        forall|k: (Seq<char>, Seq<char>)|
            holds_key(fresh_filter(s, now), k) ==> #[trigger] session_for(fresh_filter(s, now), k)
                == session_for(s, k),
    decreases s.len(),
{
    if s.len() > 0 {
        let p = s.drop_last();
        let r = fresh_filter(p, now);
        let f = fresh_filter(s, now);
        let last = s.last();
        let lk = key_of(last);
        assert(distinct_keys(p));
        lemma_fresh_filter(p, now);
        lemma_session_for(s, s.len() - 1);
        assert(!holds_key(p, lk)) by {
            if holds_key(p, lk) {
                let j = choose|j: int| 0 <= j < p.len() && #[trigger] key_of(p[j]) == lk;
                assert(key_of(s[j]) != key_of(s[s.len() - 1]));
            }
        }
        assert forall|k: (Seq<char>, Seq<char>)| #[trigger] holds_key(s, k) == (holds_key(p, k)
            || k == lk) by {
            if holds_key(s, k) {
                let j = choose|j: int| 0 <= j < s.len() && #[trigger] key_of(s[j]) == k;
                if j < p.len() {
                    assert(key_of(p[j]) == k);
                }
            }
            if holds_key(p, k) {
                let j = choose|j: int| 0 <= j < p.len() && #[trigger] key_of(p[j]) == k;
                assert(key_of(s[j]) == k);
            }
        }
        assert forall|k: (Seq<char>, Seq<char>)| holds_key(p, k) implies #[trigger] session_for(
            s,
            k,
        ) == session_for(p, k) by {
            let j = choose|j: int| 0 <= j < p.len() && #[trigger] key_of(p[j]) == k;
            lemma_session_for(p, j);
            assert(s[j] == p[j]);
            lemma_session_for(s, j);
        }
        if is_fresh(last.1, now) {
            assert(f == r.push(last));
            assert(!holds_key(r, lk));
            assert forall|a: int, b: int| 0 <= a < b < f.len() implies key_of(f[a]) != key_of(f[b])
                by {
                if b == r.len() {
                    assert(holds_key(r, key_of(r[a])));
                } else {
                    assert(key_of(r[a]) != key_of(r[b]));
                }
            }
            assert forall|k: (Seq<char>, Seq<char>)| #[trigger] holds_key(f, k) == (holds_key(r, k)
                || k == lk) by {
                if holds_key(f, k) {
                    let j = choose|j: int| 0 <= j < f.len() && #[trigger] key_of(f[j]) == k;
                    if j < r.len() {
                        assert(key_of(r[j]) == k);
                    }
                }
                if holds_key(r, k) {
                    let j = choose|j: int| 0 <= j < r.len() && #[trigger] key_of(r[j]) == k;
                    assert(key_of(f[j]) == k);
                }
                if k == lk {
                    assert(key_of(f[r.len() as int]) == k);
                }
            }
            assert forall|k: (Seq<char>, Seq<char>)| holds_key(f, k) implies #[trigger] session_for(
                f,
                k,
            ) == session_for(s, k) by {
                let j = choose|j: int| 0 <= j < f.len() && #[trigger] key_of(f[j]) == k;
                lemma_session_for(f, j);
                if j < r.len() {
                    assert(f[j] == r[j]);
                    lemma_session_for(r, j);
                    assert(holds_key(r, k));
                }
            }
        } else {
            assert(f == r);
        }
    }
}

/// After a session starts under a key, that key holds it, and every other
/// session kept is fresh.
pub proof fn lemma_started_session_found(
    before: Map<(Seq<char>, Seq<char>), BashSession>,
    now: u64,
    k: (Seq<char>, Seq<char>),
    s: BashSession,
)
    ensures
        fresh_only(before, now).insert(k, s).contains_key(k),
        fresh_only(before, now).insert(k, s)[k] == s,
        forall|other: (Seq<char>, Seq<char>)|
            #[trigger] fresh_only(before, now).insert(k, s).contains_key(other) && other != k
                ==> is_fresh(fresh_only(before, now).insert(k, s)[other], now),
{
}

/// After a session ends, its key holds nothing and the other sessions stay.
pub proof fn lemma_ended_session_gone(
    before: Map<(Seq<char>, Seq<char>), BashSession>,
    k: (Seq<char>, Seq<char>),
)
    ensures
        !before.remove(k).contains_key(k),
        forall|other: (Seq<char>, Seq<char>)|
            other != k ==> (#[trigger] before.remove(k).contains_key(other)
                == before.contains_key(other)),
{
}

/// The bash tool calls in progress.
pub struct BashSessionState {
    sessions: Vec<((String, String), BashSession)>,
}

impl Default for BashSessionState {
    fn default() -> (r: BashSessionState)
        ensures
            r.well_formed(),
            r@ == Map::<(Seq<char>, Seq<char>), BashSession>::empty(),
    {
        BashSessionState::new()
    }
}

impl BashSessionState {
    /// The sessions in progress, by session id and tool-use id.
    pub closed spec fn view(&self) -> Map<(Seq<char>, Seq<char>), BashSession> {
        sessions_map(self.sessions@)
    }

    /// Each key is stored once.
    pub closed spec fn well_formed(&self) -> bool {
        distinct_keys(self.sessions@)
    }

    /// No session in progress.
    pub fn new() -> (r: BashSessionState)
        ensures
            r.well_formed(),
            r@ == Map::<(Seq<char>, Seq<char>), BashSession>::empty(),
    {
        let r = BashSessionState { sessions: Vec::new() };
        assert(sessions_map(r.sessions@) =~= Map::<(Seq<char>, Seq<char>), BashSession>::empty());
        r
    }

    /// Drop the sessions that are stale at `now_nanos`.
    fn prune_stale_sessions(&mut self, now_nanos: u64)
        requires
            old(self).well_formed(),
        ensures
            final(self).well_formed(),
            final(self)@ == fresh_only(old(self)@, now_nanos),
    {
        let mut rest: Vec<((String, String), BashSession)> = Vec::new();
        std::mem::swap(&mut rest, &mut self.sessions);
        let ghost orig = rest@;
        let mut kept: Vec<((String, String), BashSession)> = Vec::new();
        let ghost mut i: int = 0;
        while rest.len() > 0
            invariant
                0 <= i <= orig.len(),
                rest@ == orig.skip(i),
                kept@ == fresh_filter(orig.take(i), now_nanos),
            decreases rest.len(),
        {
            let e = rest.remove(0);
            proof {
                assert(e == orig[i]);
                assert(orig.take(i + 1).drop_last() =~= orig.take(i));
                assert(orig.take(i + 1).last() == orig[i]);
                assert(orig.skip(i + 1) =~= orig.skip(i).remove(0));
            }
            if e.1.started_at_nanos > now_nanos || now_nanos - e.1.started_at_nanos < STALE_SESSION_SECS * 1000000000 {
                kept.push(e);
            }
            proof {
                i = i + 1;
            }
        }
        proof {
            assert(orig.take(i) =~= orig);
            lemma_fresh_filter(orig, now_nanos);
            assert(sessions_map(kept@) =~= fresh_only(sessions_map(orig), now_nanos));
        }
        self.sessions = kept;
    }

    /// The position of the session stored under the two ids, if any.
    fn position_of(&self, session_id: &str, tool_use_id: &str) -> (r: Option<usize>)
        ensures
            match r {
                Some(i) => i < self.sessions.len() && key_of(self.sessions@[i as int]) == (
                    session_id@,
                    tool_use_id@,
                ),
                None => !holds_key(self.sessions@, (session_id@, tool_use_id@)),
            },
    {
        let mut i: usize = 0;
        while i < self.sessions.len()
            invariant
                i <= self.sessions.len(),
                forall|j: int| 0 <= j < i ==> key_of(self.sessions@[j]) != (session_id@, tool_use_id@),
            decreases self.sessions.len() - i,
        {
            if str_eq(self.sessions[i].0.0.as_str(), session_id) && str_eq(
                self.sessions[i].0.1.as_str(),
                tool_use_id,
            ) {
                return Some(i);
            }
            i = i + 1;
        }
        None
    }

    /// Record a bash call that starts now: drop the stale sessions, then store
    /// this one under its ids, replacing any earlier one.
    pub fn start_session(
        &mut self,
        session_id: String,
        tool_use_id: String,
        repo_work_dir: String,
        agent_id: AgentId,
        metadata: StringMap<String>,
        stat_snapshot: StatSnapshot,
        now_nanos: u64,
    )
        requires
            old(self).well_formed(),
        ensures
            final(self).well_formed(),
            final(self)@ == fresh_only(old(self)@, now_nanos).insert(
                (session_id@, tool_use_id@),
                BashSession {
                    repo_work_dir,
                    agent_id,
                    metadata,
                    stat_snapshot,
                    started_at_nanos: now_nanos,
                },
            ),
    {
        self.prune_stale_sessions(now_nanos);
        let ghost k = (session_id@, tool_use_id@);
        let ghost pruned = self.sessions@;
        let found = self.position_of(session_id.as_str(), tool_use_id.as_str());
        let session = BashSession {
            repo_work_dir,
            agent_id,
            metadata,
            stat_snapshot,
            started_at_nanos: now_nanos,
        };
        let ghost v = session;
        match found {
            Some(i) => {
                self.sessions.set(i, ((session_id, tool_use_id), session));
                proof {
                    let after = self.sessions@;
                    assert forall|a: int, b: int| 0 <= a < b < after.len() implies key_of(after[a])
                        != key_of(after[b]) by {
                        assert(key_of(after[a]) == key_of(pruned[a]));
                        assert(key_of(after[b]) == key_of(pruned[b]));
                    }
                    assert forall|x: (Seq<char>, Seq<char>)| holds_key(after, x) == holds_key(pruned, x)
                        by {
                        if holds_key(after, x) {
                            let j = choose|j: int| 0 <= j < after.len() && #[trigger] key_of(after[j]) == x;
                            assert(key_of(pruned[j]) == x);
                        }
                        if holds_key(pruned, x) {
                            let j = choose|j: int| 0 <= j < pruned.len() && #[trigger] key_of(pruned[j]) == x;
                            assert(key_of(after[j]) == x);
                        }
                    }
                    assert forall|x: (Seq<char>, Seq<char>)| holds_key(after, x) implies session_for(
                        after,
                        x,
                    ) == (if x == k {
                        v
                    } else {
                        session_for(pruned, x)
                    }) by {
                        let j = choose|j: int| 0 <= j < after.len() && #[trigger] key_of(after[j]) == x;
                        lemma_session_for(after, j);
                        assert(key_of(pruned[j]) == x);
                        lemma_session_for(pruned, j);
                        if j != i {
                            assert(after[j] == pruned[j]);
                            assert(x != k) by {
                                if x == k {
                                    assert(key_of(after[i as int]) == key_of(after[j]));
                                }
                            }
                        }
                    }
                    assert(key_of(after[i as int]) == k);
                    assert(holds_key(after, k));
                    assert(sessions_map(after) =~= sessions_map(pruned).insert(k, v));
                }
            },
            None => {
                self.sessions.push(((session_id, tool_use_id), session));
                proof {
                    let after = self.sessions@;
                    assert forall|a: int, b: int| 0 <= a < b < after.len() implies key_of(after[a])
                        != key_of(after[b]) by {
                        if b == pruned.len() {
                            assert(key_of(pruned[a]) != k);
                        } else {
                            assert(key_of(pruned[a]) != key_of(pruned[b]));
                        }
                    }
                    assert forall|x: (Seq<char>, Seq<char>)| holds_key(after, x) == (holds_key(
                        pruned,
                        x,
                    ) || x == k) by {
                        if holds_key(after, x) {
                            let j = choose|j: int| 0 <= j < after.len() && #[trigger] key_of(after[j]) == x;
                            if j < pruned.len() {
                                assert(key_of(pruned[j]) == x);
                            }
                        }
                        if holds_key(pruned, x) {
                            let j = choose|j: int| 0 <= j < pruned.len() && #[trigger] key_of(pruned[j]) == x;
                            assert(key_of(after[j]) == x);
                        }
                        if x == k {
                            assert(key_of(after[pruned.len() as int]) == x);
                        }
                    }
                    assert forall|x: (Seq<char>, Seq<char>)| holds_key(after, x) implies session_for(
                        after,
                        x,
                    ) == (if x == k {
                        v
                    } else {
                        session_for(pruned, x)
                    }) by {
                        let j = choose|j: int| 0 <= j < after.len() && #[trigger] key_of(after[j]) == x;
                        lemma_session_for(after, j);
                        if j < pruned.len() {
                            assert(key_of(pruned[j]) == x);
                            lemma_session_for(pruned, j);
                        }
                    }
                    assert(sessions_map(after) =~= sessions_map(pruned).insert(k, v));
                }
            },
        }
    }

    /// End the bash call stored under the two ids, giving back its session.
    pub fn end_session(&mut self, session_id: &str, tool_use_id: &str) -> (r: Option<BashSession>)
        requires
            old(self).well_formed(),
        ensures
            final(self).well_formed(),
            final(self)@ == old(self)@.remove((session_id@, tool_use_id@)),
            match r {
                Some(s) => old(self)@.contains_key((session_id@, tool_use_id@)) && s == old(
                    self,
                )@[(session_id@, tool_use_id@)],
                None => !old(self)@.contains_key((session_id@, tool_use_id@)),
            },
    {
        let ghost k = (session_id@, tool_use_id@);
        let ghost before = self.sessions@;
        match self.position_of(session_id, tool_use_id) {
            None => {
                assert(sessions_map(before) =~= sessions_map(before).remove(k));
                None
            },
            Some(i) => {
                let e = self.sessions.remove(i);
                proof {
                    let after = self.sessions@;
                    lemma_session_for(before, i as int);
                    assert forall|a: int, b: int| 0 <= a < b < after.len() implies key_of(after[a])
                        != key_of(after[b]) by {
                        let a2 = if a < i { a } else { a + 1 };
                        let b2 = if b < i { b } else { b + 1 };
                        assert(after[a] == before[a2]);
                        assert(after[b] == before[b2]);
                    }
                    assert forall|x: (Seq<char>, Seq<char>)| holds_key(after, x) == (holds_key(
                        before,
                        x,
                    ) && x != k) by {
                        if holds_key(after, x) {
                            let j = choose|j: int| 0 <= j < after.len() && #[trigger] key_of(after[j]) == x;
                            let j2 = if j < i { j } else { j + 1 };
                            assert(after[j] == before[j2]);
                            assert(key_of(before[j2]) == x);
                            assert(j2 != i);
                        }
                        if holds_key(before, x) && x != k {
                            let j = choose|j: int| 0 <= j < before.len() && #[trigger] key_of(before[j]) == x;
                            assert(j != i);
                            let j2 = if j < i { j } else { j - 1 };
                            assert(after[j2] == before[j]);
                            assert(key_of(after[j2]) == x);
                        }
                    }
                    assert forall|x: (Seq<char>, Seq<char>)| holds_key(after, x) implies session_for(
                        after,
                        x,
                    ) == session_for(before, x) by {
                        let j = choose|j: int| 0 <= j < after.len() && #[trigger] key_of(after[j]) == x;
                        let j2 = if j < i { j } else { j + 1 };
                        assert(after[j] == before[j2]);
                        lemma_session_for(after, j);
                        lemma_session_for(before, j2);
                    }
                    assert(sessions_map(after) =~= sessions_map(before).remove(k));
                }
                Some(e.1)
            },
        }
    }

    /// A bash call in progress in `repo_work_dir`, if there is one.
    pub fn query_active_for_repo(&self, repo_work_dir: &str) -> (r: Option<
        (&(String, String), &BashSession),
    >)
        requires
            self.well_formed(),
        ensures
            r is None <==> !exists|k: (Seq<char>, Seq<char>)|
                #[trigger] self@.contains_key(k) && self@[k].repo_work_dir@ == repo_work_dir@,
            r matches Some((key, s)) ==> self@.contains_key((key.0@, key.1@)) && self@[(
                key.0@,
                key.1@,
            )] == *s && s.repo_work_dir@ == repo_work_dir@,
    {
        let mut i: usize = 0;
        while i < self.sessions.len()
            invariant
                i <= self.sessions.len(),
                distinct_keys(self.sessions@),
                forall|j: int|
                    0 <= j < i ==> self.sessions@[j].1.repo_work_dir@ != repo_work_dir@,
            decreases self.sessions.len() - i,
        {
            if str_eq(self.sessions[i].1.repo_work_dir.as_str(), repo_work_dir) {
                proof {
                    lemma_session_for(self.sessions@, i as int);
                    let k = key_of(self.sessions@[i as int]);
                    assert(self@.contains_key(k));
                    assert(self@[k].repo_work_dir@ == repo_work_dir@);
                }
                return Some((&self.sessions[i].0, &self.sessions[i].1));
            }
            i = i + 1;
        }
        proof {
            assert forall|k: (Seq<char>, Seq<char>)| #[trigger]
                self@.contains_key(k) implies self@[k].repo_work_dir@ != repo_work_dir@ by {
                let j = choose|j: int|
                    0 <= j < self.sessions@.len() && #[trigger] key_of(self.sessions@[j]) == k;
                lemma_session_for(self.sessions@, j);
            }
        }
        None
    }

    /// The pre-snapshot of the bash call stored under the two ids.
    pub fn get_snapshot(&self, session_id: &str, tool_use_id: &str) -> (r: Option<&StatSnapshot>)
        requires
            self.well_formed(),
        ensures
            match r {
                Some(s) => self@.contains_key((session_id@, tool_use_id@)) && *s == self@[(
                    session_id@,
                    tool_use_id@,
                )].stat_snapshot,
                None => !self@.contains_key((session_id@, tool_use_id@)),
            },
    {
        match self.position_of(session_id, tool_use_id) {
            Some(i) => {
                proof {
                    lemma_session_for(self.sessions@, i as int);
                }
                Some(&self.sessions[i].1.stat_snapshot)
            },
            None => None,
        }
    }
}

} // verus!
