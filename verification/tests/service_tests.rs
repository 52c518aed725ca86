use git_ai::daemon_cli::{
    daemon_command, daemon_startup_step, ensure_daemon_running, has_flag, is_help,
    parse_repo_arg, reject_mode_flag, startup_timeout_millis, ChildStatus, DaemonCommand,
    DaemonPaths, StartupEvent, StartupInputs, StartupRequest, StartupState,
};

fn args(list: &[&str]) -> Vec<String> {
    list.iter().map(|s| s.to_string()).collect()
}

fn paths() -> DaemonPaths {
    DaemonPaths {
        lock_path: "/run/ga/lock".to_string(),
        control_socket_path: "/run/ga/control.sock".to_string(),
        trace_socket_path: "/run/ga/trace.sock".to_string(),
    }
}

fn inputs(attached: bool) -> StartupInputs {
    StartupInputs { attached, timeout_text: "2s".to_string() }
}

fn up_to_poll(attached: bool) -> StartupState {
    let i = inputs(attached);
    let (state, request) = ensure_daemon_running();
    assert!(matches!(request, StartupRequest::LoadConfig));
    let (state, request) = daemon_startup_step(&i, state, StartupEvent::Config(Ok(paths())));
    assert!(matches!(request, StartupRequest::ProbeSockets));
    let (state, request) = daemon_startup_step(&i, state, StartupEvent::SocketsUp(false));
    assert!(matches!(request, StartupRequest::ProbeLock));
    let (state, request) = daemon_startup_step(&i, state, StartupEvent::LockHeld(false));
    if attached {
        assert!(matches!(request, StartupRequest::SpawnAttached));
    } else {
        assert!(matches!(request, StartupRequest::SpawnDetached));
    }
    let (state, request) = daemon_startup_step(&i, state, StartupEvent::Spawned(Ok(())));
    assert!(matches!(request, StartupRequest::Poll { after_millis: 0 }));
    state
}

fn done_error(request: StartupRequest) -> String {
    match request {
        StartupRequest::Done(Err(e)) => e,
        other => panic!("unexpected {:?}", other),
    }
}

#[test]
fn help_words() {
    assert!(is_help("help"));
    assert!(is_help("--help"));
    assert!(is_help("-h"));
    assert!(!is_help("start"));
}

#[test]
fn flags_and_repo_argument() {
    assert!(has_flag(&args(&["--x", "--mode"]), "--mode"));
    assert!(!has_flag(&args(&["--mode=write"]), "--mode"));
    assert_eq!(parse_repo_arg(&args(&["--repo", "/a", "--repo", "/b"])), Some("/a".to_string()));
    assert_eq!(parse_repo_arg(&args(&["--json", "--repo"])), None);
    assert_eq!(parse_repo_arg(&args(&[])), None);
}

#[test]
fn subcommands_are_dispatched() {
    assert!(matches!(daemon_command(&args(&[])), DaemonCommand::Help));
    assert!(matches!(daemon_command(&args(&["-h", "start"])), DaemonCommand::Help));
    match daemon_command(&args(&["start", "--mode", "x"])) {
        DaemonCommand::Start(rest) => assert_eq!(rest, args(&["--mode", "x"])),
        other => panic!("unexpected {:?}", other),
    }
    assert!(matches!(daemon_command(&args(&["run"])), DaemonCommand::Run(rest) if rest.is_empty()));
    match daemon_command(&args(&["status", "--repo", "/work"])) {
        DaemonCommand::Status(repo) => assert_eq!(repo, Some("/work".to_string())),
        other => panic!("unexpected {:?}", other),
    }
    assert!(matches!(daemon_command(&args(&["status"])), DaemonCommand::Status(None)));
    assert!(matches!(daemon_command(&args(&["shutdown"])), DaemonCommand::Shutdown));
    match daemon_command(&args(&["restart"])) {
        DaemonCommand::Unknown(name) => assert_eq!(name, "restart"),
        other => panic!("unexpected {:?}", other),
    }
}

#[test]
fn retired_mode_flag_is_refused() {
    assert_eq!(
        reject_mode_flag(&args(&["--mode", "read"])),
        Err("--mode is no longer supported; daemon always runs in write mode".to_string())
    );
    assert_eq!(reject_mode_flag(&args(&["--verbose"])), Ok(()));
}

#[test]
fn startup_timeouts() {
    assert_eq!(startup_timeout_millis(false, true), 2000);
    assert_eq!(startup_timeout_millis(true, false), 5000);
    assert_eq!(startup_timeout_millis(true, true), 12000);
}

#[test]
fn running_service_is_kept() {
    let i = inputs(true);
    let (state, _) = ensure_daemon_running();
    let (state, _) = daemon_startup_step(&i, state, StartupEvent::Config(Ok(paths())));
    let (state, request) = daemon_startup_step(&i, state, StartupEvent::SocketsUp(true));
    assert!(matches!(state, StartupState::Finished));
    match request {
        StartupRequest::Done(Ok(p)) => assert_eq!(p.lock_path, "/run/ga/lock"),
        other => panic!("unexpected {:?}", other),
    }
}

#[test]
fn startup_states_accept_only_their_answers() {
    let (state, _) = ensure_daemon_running();
    assert!(state.accepts(&StartupEvent::Config(Err("x".to_string()))));
    assert!(!state.accepts(&StartupEvent::SocketsUp(true)));
    assert!(!StartupState::Finished.accepts(&StartupEvent::LockHeld(false)));
}

#[test]
fn held_lock_blocks_startup() {
    let i = inputs(false);
    let (state, _) = ensure_daemon_running();
    let (state, _) = daemon_startup_step(&i, state, StartupEvent::Config(Ok(paths())));
    let (state, _) = daemon_startup_step(&i, state, StartupEvent::SocketsUp(false));
    let (_, request) = daemon_startup_step(&i, state, StartupEvent::LockHeld(true));
    assert_eq!(done_error(request), "daemon startup blocked: lock held at /run/ga/lock");
}

#[test]
fn config_and_spawn_errors_end_startup() {
    let i = inputs(true);
    let (state, _) = ensure_daemon_running();
    let (_, request) = daemon_startup_step(&i, state, StartupEvent::Config(Err("no home".to_string())));
    assert_eq!(done_error(request), "no home");
    let (state, _) = ensure_daemon_running();
    let (state, _) = daemon_startup_step(&i, state, StartupEvent::Config(Ok(paths())));
    let (state, _) = daemon_startup_step(&i, state, StartupEvent::SocketsUp(false));
    let (state, _) = daemon_startup_step(&i, state, StartupEvent::LockHeld(false));
    let (_, request) = daemon_startup_step(&i, state, StartupEvent::Spawned(Err("ENOENT".to_string())));
    assert_eq!(done_error(request), "ENOENT");
}

#[test]
fn polling_waits_then_succeeds() {
    let i = inputs(true);
    let state = up_to_poll(true);
    let (state, request) = daemon_startup_step(
        &i,
        state,
        StartupEvent::Polled { sockets_up: false, child: ChildStatus::Running, deadline_passed: false },
    );
    assert!(matches!(request, StartupRequest::Poll { after_millis: 50 }));
    let (_, request) = daemon_startup_step(
        &i,
        state,
        StartupEvent::Polled { sockets_up: true, child: ChildStatus::Running, deadline_passed: true },
    );
    assert!(matches!(request, StartupRequest::Done(Ok(_))));
}

#[test]
fn attached_child_failure_reports_its_error_output() {
    let i = inputs(true);
    let state = up_to_poll(true);
    let (_, request) = daemon_startup_step(
        &i,
        state,
        StartupEvent::Polled {
            sockets_up: false,
            child: ChildStatus::ExitedWithError {
                status: "exit status: 1".to_string(),
                stderr: "  address in use \n".to_string(),
            },
            deadline_passed: false,
        },
    );
    assert_eq!(done_error(request), "daemon failed to start: address in use");
}

#[test]
fn attached_child_failure_without_output_reports_its_status() {
    let i = inputs(true);
    let state = up_to_poll(true);
    let (_, request) = daemon_startup_step(
        &i,
        state,
        StartupEvent::Polled {
            sockets_up: false,
            child: ChildStatus::ExitedWithError {
                status: "exit status: 3".to_string(),
                stderr: " \n\t".to_string(),
            },
            deadline_passed: true,
        },
    );
    assert_eq!(
        done_error(request),
        "daemon failed to start: daemon process exited with exit status: 3"
    );
}

#[test]
fn attached_child_clean_exit_is_reported() {
    let i = inputs(true);
    let state = up_to_poll(true);
    let (_, request) = daemon_startup_step(
        &i,
        state,
        StartupEvent::Polled { sockets_up: false, child: ChildStatus::ExitedOk, deadline_passed: false },
    );
    assert_eq!(done_error(request), "daemon process exited before sockets were ready");
}

#[test]
fn detached_startup_times_out() {
    let i = inputs(false);
    let state = up_to_poll(false);
    let (_, request) = daemon_startup_step(
        &i,
        state,
        StartupEvent::Polled { sockets_up: false, child: ChildStatus::ExitedOk, deadline_passed: true },
    );
    assert_eq!(
        done_error(request),
        "timed out after 2s waiting for daemon sockets /run/ga/control.sock and /run/ga/trace.sock"
    );
}
