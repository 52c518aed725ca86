//! The `git-ai d` front end of the background service: which subcommand runs
//! with which arguments, and the start-up protocol that waits for the
//! service's sockets.
use crate::text::{str_eq, trim_text, trimmed};
use vstd::prelude::*;
use vstd::string::*;

verus! {

/// `value` asks for help.
pub open spec fn help_word(value: Seq<char>) -> bool {
    value == "help"@ || value == "--help"@ || value == "-h"@
}

/// Whether `value` asks for help: `help`, `--help` or `-h`.
pub fn is_help(value: &str) -> (r: bool)
    ensures
        r == help_word(value@),
{
    str_eq(value, "help") || str_eq(value, "--help") || str_eq(value, "-h")
}

/// Some argument is `flag`.
pub open spec fn flag_given(args: Seq<String>, flag: Seq<char>) -> bool {
    exists|i: int| 0 <= i < args.len() && #[trigger] args[i]@ == flag
}

/// Whether some argument is exactly `flag`.
pub fn has_flag(args: &[String], flag: &str) -> (r: bool)
    ensures
        r == flag_given(args@, flag@),
{
    let mut i: usize = 0;
    while i < args.len()
        invariant
            i <= args.len(),
            forall|k: int| 0 <= k < i ==> args@[k]@ != flag@,
        decreases args.len() - i,
    {
        if str_eq(args[i].as_str(), flag) {
            return true;
        }
        i = i + 1;
    }
    false
}

/// The value after the first `--repo` that has one, from position `i` on.
pub open spec fn repo_arg_from(args: Seq<String>, i: int) -> Option<Seq<char>>
    decreases args.len() - i,
{
    if i < 0 || i >= args.len() {
        None
    } else if args[i]@ == "--repo"@ && i + 1 < args.len() {
        Some(args[i + 1]@)
    } else {
        repo_arg_from(args, i + 1)
    }
}

/// The repository given with `--repo <path>`: the value after the first
/// `--repo` that is followed by one.
pub fn parse_repo_arg(args: &[String]) -> (r: Option<String>)
    ensures
        match r {
            Some(p) => repo_arg_from(args@, 0) == Some(p@),
            None => repo_arg_from(args@, 0) is None,
        },
{
    let mut i: usize = 0;
    while i < args.len()
        invariant
            i <= args.len(),
            repo_arg_from(args@, 0) == repo_arg_from(args@, i as int),
        decreases args.len() - i,
    {
        if str_eq(args[i].as_str(), "--repo") && i + 1 < args.len() {
            return Some(args[i + 1].clone());
        }
        i = i + 1;
    }
    None
}

/// Exactly `help`, `--help` and `-h` ask for help.
pub proof fn lemma_help_words(value: Seq<char>)
    ensures
        help_word(value) <==> set!["help"@, "--help"@, "-h"@].contains(value),
{
}

/// The repository is the argument right after the first `--repo` that has
/// an argument after it; there is none when no `--repo` has one.
pub proof fn lemma_repo_arg_first(args: Seq<String>, i: int)
    requires
        0 <= i,
        i + 1 < args.len(),
        args[i]@ == "--repo"@,
        forall|j: int| 0 <= j < i ==> #[trigger] args[j]@ != "--repo"@,
    ensures
        repo_arg_from(args, 0) == Some(args[i + 1]@),
{
    lemma_repo_arg_skips(args, 0, i);
}

/// Without a `--repo` that has an argument after it, there is no repository.
pub proof fn lemma_repo_arg_none(args: Seq<String>)
    requires
        forall|j: int| 0 <= j < args.len() - 1 ==> #[trigger] args[j]@ != "--repo"@,
    ensures
        repo_arg_from(args, 0) is None,
{
    lemma_repo_arg_skips(args, 0, args.len() as int);
}

proof fn lemma_repo_arg_skips(args: Seq<String>, from: int, to: int)
    requires
        0 <= from <= to <= args.len(),
        forall|j: int| from <= j < to && j + 1 < args.len() ==> #[trigger] args[j]@ != "--repo"@,
    ensures
        repo_arg_from(args, from) == repo_arg_from(args, to),
    decreases to - from,
{
    if from < to {
        lemma_repo_arg_skips(args, from + 1, to);
    }
}

/// What `git-ai d` was asked to do.
#[derive(Debug)]
pub enum DaemonCommand {
    /// Print the usage (no subcommand, or a request for help).
    Help,
    /// Start the service in the background, with the remaining arguments.
    Start(Vec<String>),
    /// Run the service in the foreground, with the remaining arguments.
    Run(Vec<String>),
    /// Report the service's state for a repository (`--repo`, else the
    /// current directory).
    Status(Option<String>),
    /// Stop the service.
    Shutdown,
    /// A subcommand that does not exist.
    Unknown(String),
}

/// The arguments after the first.
pub open spec fn rest_args(args: Seq<String>) -> Seq<Seq<char>> {
    args.skip(1).map_values(|a: String| a@)
}

/// The arguments after the first, copied.
fn tail_args(args: &[String]) -> (r: Vec<String>)
    requires
        args.len() >= 1,
    ensures
        r@.map_values(|a: String| a@) == rest_args(args@),
{
    let mut r: Vec<String> = Vec::new();
    let mut i: usize = 1;
    while i < args.len()
        invariant
            1 <= i <= args.len(),
            r@.map_values(|a: String| a@) =~= args@.subrange(1, i as int).map_values(
                |a: String| a@,
            ),
        decreases args.len() - i,
    {
        let ghost before = r@;
        let a = args[i].clone();
        r.push(a);
        assert(r@.map_values(|a: String| a@) =~= before.map_values(|a: String| a@).push(a@));
        assert(args@.subrange(1, i + 1) =~= args@.subrange(1, i as int).push(args@[i as int]));
        assert(args@.subrange(1, i + 1).map_values(|a: String| a@) =~= args@.subrange(
            1,
            i as int,
        ).map_values(|a: String| a@).push(args@[i as int]@));
        i = i + 1;
    }
    assert(args@.subrange(1, args.len() as int) =~= args@.skip(1));
    r
}

/// Which subcommand `args` asks for: help when there is none or the first
/// argument asks for it; `start` and `run` with the arguments after them;
/// `status` with the repository of `--repo`; `shutdown`; anything else is
/// unknown.
pub fn daemon_command(args: &[String]) -> (r: DaemonCommand)
    ensures
        args.len() == 0 || help_word(args@[0]@) ==> r is Help,
        args.len() > 0 && !help_word(args@[0]@) ==> if args@[0]@ == "start"@ {
            r matches DaemonCommand::Start(rest) && rest@.map_values(|a: String| a@)
                == rest_args(args@)
        } else if args@[0]@ == "run"@ {
            r matches DaemonCommand::Run(rest) && rest@.map_values(|a: String| a@) == rest_args(
                args@,
            )
        } else if args@[0]@ == "status"@ {
            r matches DaemonCommand::Status(repo) && match repo {
                Some(p) => repo_arg_from(args@.skip(1), 0) == Some(p@),
                None => repo_arg_from(args@.skip(1), 0) is None,
            }
        } else if args@[0]@ == "shutdown"@ {
            r is Shutdown
        } else {
            r matches DaemonCommand::Unknown(name) && name@ == args@[0]@
        },
{
    if args.len() == 0 || is_help(args[0].as_str()) {
        return DaemonCommand::Help;
    }
    let first = args[0].as_str();
    if str_eq(first, "start") {
        DaemonCommand::Start(tail_args(args))
    } else if str_eq(first, "run") {
        DaemonCommand::Run(tail_args(args))
    } else if str_eq(first, "status") {
        let rest = tail_args(args);
        let repo = parse_repo_arg(rest.as_slice());
        proof {
            assert(rest@.map_values(|a: String| a@) == args@.skip(1).map_values(|a: String| a@));
            assert forall|i: int| 0 <= i <= rest@.len() implies repo_arg_from(rest@, i)
                == repo_arg_from(args@.skip(1), i) by {
                lemma_repo_arg_same_text(rest@, args@.skip(1), i);
            }
        }
        DaemonCommand::Status(repo)
    } else if str_eq(first, "shutdown") {
        DaemonCommand::Shutdown
    } else {
        DaemonCommand::Unknown(args[0].clone())
    }
}

/// `--repo` lookups agree on argument lists with the same text.
proof fn lemma_repo_arg_same_text(a: Seq<String>, b: Seq<String>, i: int)
    requires
        a.map_values(|s: String| s@) == b.map_values(|s: String| s@),
        0 <= i <= a.len(),
    ensures
        repo_arg_from(a, i) == repo_arg_from(b, i),
    decreases a.len() - i,
{
    assert(a.len() == b.map_values(|s: String| s@).len());
    if i < a.len() {
        assert(a.map_values(|s: String| s@)[i] == b.map_values(|s: String| s@)[i]);
        if i + 1 < a.len() {
            assert(a.map_values(|s: String| s@)[i + 1] == b.map_values(|s: String| s@)[i + 1]);
        }
        lemma_repo_arg_same_text(a, b, i + 1);
    }
}

/// The refusal of the retired `--mode` flag.
pub open spec fn mode_flag_message() -> Seq<char> {
    "--mode is no longer supported; daemon always runs in write mode"@
}

/// `start` and `run` refuse the retired `--mode` flag.
pub fn reject_mode_flag(args: &[String]) -> (r: Result<(), String>)
    ensures
        r is Err <==> flag_given(args@, "--mode"@),
        r matches Err(m) ==> m@ == mode_flag_message(),
{
    if has_flag(args, "--mode") {
        Err(String::from_str("--mode is no longer supported; daemon always runs in write mode"))
    } else {
        Ok(())
    }
}

/// How long to wait for the service to come up, in milliseconds: on Windows
/// 12 s under tests or CI and 5 s otherwise, elsewhere 2 s.
pub fn startup_timeout_millis(on_windows: bool, test_or_ci: bool) -> (r: u64)
    ensures
        r == (if on_windows {
            if test_or_ci {
                12000u64
            } else {
                5000u64
            }
        } else {
            2000u64
        }),
{
    if on_windows {
        if test_or_ci {
            12000
        } else {
            5000
        }
    } else {
        2000
    }
}

/// Where the service keeps its lock file and its two sockets.
#[derive(Debug, Clone)]
pub struct DaemonPaths {
    pub lock_path: String,
    pub control_socket_path: String,
    pub trace_socket_path: String,
}

/// How the service is being started: attached (the child's start-up
/// failures are reported) or detached, and the allowed wait as text.
#[derive(Debug, Clone)]
pub struct StartupInputs {
    pub attached: bool,
    pub timeout_text: String,
}

/// Where the start-up protocol stands.
#[derive(Debug)]
pub enum StartupState {
    /// Waiting for the service's configuration.
    AwaitConfig,
    /// Waiting to learn whether both sockets accept connections.
    AwaitSocketProbe { paths: DaemonPaths },
    /// Waiting to learn whether another process holds the start-up lock.
    AwaitLockProbe { paths: DaemonPaths },
    /// Waiting for the service process to be spawned.
    AwaitSpawn { paths: DaemonPaths },
    /// Waiting for the next look at the sockets, the child and the clock.
    AwaitPoll { paths: DaemonPaths },
    /// Done.
    Finished,
}

/// What the protocol needs next, or its outcome.
#[derive(Debug)]
pub enum StartupRequest {
    /// Read the service's configuration.
    LoadConfig,
    /// Try to connect to both sockets.
    ProbeSockets,
    /// Try to take (and release) the start-up lock.
    ProbeLock,
    /// Spawn `git-ai d run` with its error output piped back.
    SpawnAttached,
    /// Spawn `git-ai d run` fully detached.
    SpawnDetached,
    /// After waiting that many milliseconds, look at the sockets, the child
    /// and the deadline.
    Poll { after_millis: u64 },
    /// The service is up at these paths, or why it is not.
    Done(Result<DaemonPaths, String>),
}

/// The spawned child, as a poll finds it.
#[derive(Debug)]
pub enum ChildStatus {
    Running,
    ExitedOk,
    /// It exited with a failure: its status as text and its error output.
    ExitedWithError { status: String, stderr: String },
}

/// What a request found.
#[derive(Debug)]
pub enum StartupEvent {
    Config(Result<DaemonPaths, String>),
    SocketsUp(bool),
    LockHeld(bool),
    Spawned(Result<(), String>),
    Polled { sockets_up: bool, child: ChildStatus, deadline_passed: bool },
}

/// The event answers the request the state waits on.
pub open spec fn startup_awaits(state: StartupState, event: StartupEvent) -> bool {
    match state {
        StartupState::AwaitConfig => event is Config,
        StartupState::AwaitSocketProbe { .. } => event is SocketsUp,
        StartupState::AwaitLockProbe { .. } => event is LockHeld,
        StartupState::AwaitSpawn { .. } => event is Spawned,
        StartupState::AwaitPoll { .. } => event is Polled,
        StartupState::Finished => false,
    }
}

impl StartupState {
    /// Whether `event` answers the request this state waits on.
    pub fn accepts(&self, event: &StartupEvent) -> (r: bool)
        ensures
            r == startup_awaits(*self, *event),
    {
        match self {
            StartupState::AwaitConfig => matches!(event, StartupEvent::Config(_)),
            StartupState::AwaitSocketProbe { .. } => matches!(event, StartupEvent::SocketsUp(_)),
            StartupState::AwaitLockProbe { .. } => matches!(event, StartupEvent::LockHeld(_)),
            StartupState::AwaitSpawn { .. } => matches!(event, StartupEvent::Spawned(_)),
            StartupState::AwaitPoll { .. } => matches!(event, StartupEvent::Polled { .. }),
            StartupState::Finished => false,
        }
    }
}

/// The refusal while another process holds the start-up lock.
pub open spec fn blocked_message(lock_path: Seq<char>) -> Seq<char> {
    "daemon startup blocked: lock held at "@ + lock_path
}

/// The refusal after the wait ran out.
pub open spec fn timed_out_message(timeout: Seq<char>, paths: DaemonPaths) -> Seq<char> {
    "timed out after "@ + timeout + " waiting for daemon sockets "@ + paths.control_socket_path@
        + " and "@ + paths.trace_socket_path@
}

/// The refusal when the child exited with a failure: its trimmed error output,
/// or its exit status when that output is blank.
pub open spec fn child_failed_message(status: Seq<char>, stderr: Seq<char>) -> Seq<char> {
    "daemon failed to start: "@ + if trimmed(stderr).len() == 0 {
        "daemon process exited with "@ + status
    } else {
        trimmed(stderr)
    }
}

/// The refusal when the child exited cleanly before the sockets came up.
pub open spec fn exited_early_message() -> Seq<char> {
    "daemon process exited before sockets were ready"@
}

/// Start the protocol that makes sure the service runs: first read its
/// configuration.
pub fn ensure_daemon_running() -> (r: (StartupState, StartupRequest))
    ensures
        r.0 is AwaitConfig,
        r.1 is LoadConfig,
{
    (StartupState::AwaitConfig, StartupRequest::LoadConfig)
}

fn concat3(a: &str, b: &str, c: &str) -> (r: String)
    ensures
        r@ == a@ + b@ + c@,
{
    let mut r = String::from_str(a);
    r.append(b);
    r.append(c);
    r
}

/// The next step of starting the service, once the request that `state`
/// waits on has given `event`.
///
/// A running service is kept; a held lock is refused; otherwise the service
/// is spawned and polled (at once, then every 50 ms) until its sockets come
/// up, an attached child exits, or the wait runs out.
pub fn daemon_startup_step(inputs: &StartupInputs, state: StartupState, event: StartupEvent) -> (r: (
    StartupState,
    StartupRequest,
))
    requires
        startup_awaits(state, event),
    ensures
        r.0 is Finished <==> r.1 is Done,
        match (state, event) {
            (StartupState::AwaitConfig, StartupEvent::Config(Err(e))) => r.1
                == StartupRequest::Done(Err(e)),
            (StartupState::AwaitConfig, StartupEvent::Config(Ok(paths))) => r.0
                == (StartupState::AwaitSocketProbe { paths }) && r.1 is ProbeSockets,
            (StartupState::AwaitSocketProbe { paths }, StartupEvent::SocketsUp(up)) => if up {
                r.1 == StartupRequest::Done(Ok(paths))
            } else {
                r.0 == (StartupState::AwaitLockProbe { paths }) && r.1 is ProbeLock
            },
            (StartupState::AwaitLockProbe { paths }, StartupEvent::LockHeld(held)) => if held {
                r.1 matches StartupRequest::Done(Err(m)) && m@ == blocked_message(
                    paths.lock_path@,
                )
            } else {
                r.0 == (StartupState::AwaitSpawn { paths }) && if inputs.attached {
                    r.1 is SpawnAttached
                } else {
                    r.1 is SpawnDetached
                }
            },
            (StartupState::AwaitSpawn { .. }, StartupEvent::Spawned(Err(e))) => r.1
                == StartupRequest::Done(Err(e)),
            (StartupState::AwaitSpawn { paths }, StartupEvent::Spawned(Ok(()))) => r.0
                == (StartupState::AwaitPoll { paths }) && r.1 == (StartupRequest::Poll {
                after_millis: 0,
            }),
            (
                StartupState::AwaitPoll { paths },
                StartupEvent::Polled { sockets_up, child, deadline_passed },
            ) => if sockets_up {
                r.1 == StartupRequest::Done(Ok(paths))
            } else if inputs.attached && child is ExitedWithError {
                r.1 matches StartupRequest::Done(Err(m)) && m@ == child_failed_message(
                    child->status@,
                    child->stderr@,
                )
            } else if inputs.attached && child is ExitedOk {
                r.1 matches StartupRequest::Done(Err(m)) && m@ == exited_early_message()
            } else if deadline_passed {
                r.1 matches StartupRequest::Done(Err(m)) && m@ == timed_out_message(
                    inputs.timeout_text@,
                    paths,
                )
            } else {
                r.0 == (StartupState::AwaitPoll { paths }) && r.1 == (StartupRequest::Poll {
                    after_millis: 50,
                })
            },
            _ => true,
        },
{
    match (state, event) {
        (StartupState::AwaitConfig, StartupEvent::Config(config)) => match config {
            Err(e) => (StartupState::Finished, StartupRequest::Done(Err(e))),
            Ok(paths) => (StartupState::AwaitSocketProbe { paths }, StartupRequest::ProbeSockets),
        },
        (StartupState::AwaitSocketProbe { paths }, StartupEvent::SocketsUp(up)) => {
            if up {
                (StartupState::Finished, StartupRequest::Done(Ok(paths)))
            } else {
                (StartupState::AwaitLockProbe { paths }, StartupRequest::ProbeLock)
            }
        },
        (StartupState::AwaitLockProbe { paths }, StartupEvent::LockHeld(held)) => {
            if held {
                let mut m = String::from_str("daemon startup blocked: lock held at ");
                m.append(paths.lock_path.as_str());
                (StartupState::Finished, StartupRequest::Done(Err(m)))
            } else if inputs.attached {
                (StartupState::AwaitSpawn { paths }, StartupRequest::SpawnAttached)
            } else {
                (StartupState::AwaitSpawn { paths }, StartupRequest::SpawnDetached)
            }
        },
        (StartupState::AwaitSpawn { paths }, StartupEvent::Spawned(spawned)) => match spawned {
            Err(e) => (StartupState::Finished, StartupRequest::Done(Err(e))),
            Ok(()) => (StartupState::AwaitPoll { paths }, StartupRequest::Poll { after_millis: 0 }),
        },
        (
            StartupState::AwaitPoll { paths },
            StartupEvent::Polled { sockets_up, child, deadline_passed },
        ) => {
            if sockets_up {
                return (StartupState::Finished, StartupRequest::Done(Ok(paths)));
            }
            if inputs.attached {
                match child {
                    ChildStatus::ExitedWithError { status, stderr } => {
                        let detail = trim_text(stderr.as_str());
                        let mut m = String::from_str("daemon failed to start: ");
                        if detail.unicode_len() == 0 {
                            m.append("daemon process exited with ");
                            m.append(status.as_str());
                        } else {
                            m.append(detail.as_str());
                        }
                        return (StartupState::Finished, StartupRequest::Done(Err(m)));
                    },
                    ChildStatus::ExitedOk => {
                        let m = String::from_str("daemon process exited before sockets were ready");
                        return (StartupState::Finished, StartupRequest::Done(Err(m)));
                    },
                    ChildStatus::Running => {},
                }
            }
            if deadline_passed {
                let mut m = concat3(
                    "timed out after ",
                    inputs.timeout_text.as_str(),
                    " waiting for daemon sockets ",
                );
                m.append(paths.control_socket_path.as_str());
                m.append(" and ");
                m.append(paths.trace_socket_path.as_str());
                (StartupState::Finished, StartupRequest::Done(Err(m)))
            } else {
                (StartupState::AwaitPoll { paths }, StartupRequest::Poll { after_millis: 50 })
            }
        },
        (_, _) => {
            assert(false);
            (StartupState::Finished, StartupRequest::Done(Err(String::new())))
        },
    }
}

} // verus!
