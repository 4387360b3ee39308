use rto_agent::staging::Action;
use rto_agent::staging::Condition;
use rto_agent::staging::Directive;
use rto_agent::staging::Engine;
use rto_agent::staging::Env;
use rto_agent::staging::Event;
use rto_agent::staging::Input;
use rto_agent::staging::Output;
use rto_agent::staging::RunSpec;
use rto_agent::staging::StepResult;
use rto_agent::staging::User;
use rto_agent::staging::exit_status_ok;
use rto_agent::staging::kill_soon;

fn user() -> User {
    User { uid: 1000, gid: 1000, umask: None, additional_gids: Vec::new() }
}

fn run_true(stdin: Input) -> Directive {
    Directive::Run {
        run: RunSpec {
            bin: "/bin/true".to_string(),
            cwd: "/".to_string(),
            user: user(),
            stdin,
            stdout: Output::Ignore,
            stderr: Output::Ignore,
            args: Vec::new(),
            env: Vec::new(),
            ignore_code: false,
            success_codes: None,
            fail_codes: None,
        },
    }
}

#[test]
fn exit_policy_success_list() {
    let success = Some(vec![0]);
    assert!(exit_status_ok(Some(0), false, &success, &None));
    assert!(!exit_status_ok(Some(1), false, &success, &None));
    assert!(!exit_status_ok(Some(-1), false, &success, &None));
}

#[test]
fn exit_policy_fail_list_with_ignore() {
    let fail = Some(vec![1]);
    assert!(exit_status_ok(Some(2), true, &None, &fail));
    assert!(!exit_status_ok(Some(1), true, &None, &fail));
}

#[test]
fn exit_policy_defaults() {
    assert!(exit_status_ok(Some(0), false, &None, &None));
    assert!(!exit_status_ok(Some(3), false, &None, &None));
    assert!(exit_status_ok(Some(3), true, &None, &None));
    assert!(!exit_status_ok(None, false, &None, &None));
    assert!(exit_status_ok(None, true, &None, &None));
}

#[test]
fn exit_policy_fail_list_beats_success_list() {
    let success = Some(vec![0, 1]);
    let fail = Some(vec![1]);
    assert!(exit_status_ok(Some(0), false, &success, &fail));
    assert!(!exit_status_ok(Some(1), false, &success, &fail));
}

#[test]
fn env_strings_and_streams() {
    let mut env = Env::new();
    let name = "greeting".to_string();
    assert!(env.get_string(&name).is_none());
    env.set_string(&name, b"hi".to_vec());
    assert_eq!(env.get_string(&name).unwrap(), b"hi".to_vec());
    env.set_string(&name, b"ho".to_vec());
    assert_eq!(env.get_string(&name).unwrap(), b"ho".to_vec());

    let stream = "x".to_string();
    assert!(!env.stream_is_closed(&stream));
    assert!(env.feed_stream(&stream, b"abc"));
    assert_eq!(env.drain_stream(&stream).unwrap(), b"abc".to_vec());
    assert_eq!(env.drain_stream(&stream).unwrap(), Vec::<u8>::new());
    env.close_stream(&stream);
    assert!(env.stream_is_closed(&stream));
    // Once closed it stays closed and rejects new bytes.
    assert!(!env.feed_stream(&stream, b"late"));
    env.close_stream(&stream);
    assert!(env.stream_is_closed(&stream));
}

/// Run the engine until it finishes, answering every write with success
/// and every process with exit code 0. Returns (finished_failed, the
/// actions seen, the kills seen).
fn drive_ok(engine: &mut Engine) -> (bool, Vec<Action>, Vec<usize>) {
    let mut actions = Vec::new();
    let mut kills = Vec::new();
    let mut guard = 0usize;
    loop {
        guard += 1;
        assert!(guard < 10_000, "engine did not settle");
        match engine.step() {
            StepResult::Finished { failed } => return (failed, actions, kills),
            StepResult::Progress => {}
            StepResult::Idle => panic!("engine idle with nothing outstanding"),
            StepResult::Kill { pid } => kills.push(pid),
            StepResult::Acted { branch, action } => {
                let reply = match &action {
                    Action::DoWriteFile { .. } => Some(Event::WriteDone { ok: true }),
                    Action::DoReadFile { .. } => Some(Event::ReadDone {
                        bytes: Some(b"file-bytes".to_vec()),
                    }),
                    Action::DoRun { .. } => Some(Event::ProcDone {
                        code: Some(0),
                        stdout: Vec::new(),
                        stderr: Vec::new(),
                    }),
                    Action::DoSpawn { .. } => Some(Event::SpawnDone { ok: true }),
                    Action::DoKill { .. } | Action::DoTeardown { .. } => None,
                };
                actions.push(action);
                if let Some(ev) = reply {
                    engine.deliver(branch, ev);
                }
            }
        }
    }
}

#[test]
fn write_file_const_resolves() {
    let staging = vec![Directive::WriteFile {
        file: "/in".to_string(),
        src: Input::Const { bytes: b"payload".to_vec() },
        append: false,
        exists: None,
    }];
    let mut engine = Engine::new(staging, 1);
    let (failed, actions, _) = drive_ok(&mut engine);
    assert!(!failed);
    assert_eq!(actions.len(), 1);
    match &actions[0] {
        Action::DoWriteFile { case, file, bytes, append, exists } => {
            assert_eq!(*case, 0);
            assert_eq!(file, "/in");
            assert_eq!(bytes, &b"payload".to_vec());
            assert!(!append);
            assert!(exists.is_none());
        }
        other => panic!("unexpected action {other:?}"),
    }
}

#[test]
fn unknown_string_ref_fails_branch() {
    let staging = vec![Directive::WriteFile {
        file: "/in".to_string(),
        src: Input::StringRef { id: "missing".to_string() },
        append: false,
        exists: None,
    }];
    let mut engine = Engine::new(staging, 1);
    let (failed, actions, _) = drive_ok(&mut engine);
    assert!(failed);
    assert!(actions.is_empty());
}

#[test]
fn wait_stream_released_exactly_by_close() {
    // One block waits on "x", its sibling closes "x": the waiter is
    // released exactly once the close executes, whatever the order the
    // blocks were scheduled in.
    let staging = vec![Directive::Simul {
        blocks: vec![
            vec![Directive::WaitStream { id: "x".to_string() }],
            vec![Directive::CloseStream { id: "x".to_string() }],
        ],
        finish_on_first_fail: false,
        kill_on_first_fail: false,
        stop_file_io_on_first_fail: false,
    }];
    let mut engine = Engine::new(staging, 1);
    let (failed, actions, kills) = drive_ok(&mut engine);
    assert!(!failed);
    assert!(actions.is_empty());
    assert!(kills.is_empty());
}

#[test]
fn wait_stream_blocks_while_open() {
    let staging = vec![Directive::WaitStream { id: "never".to_string() }];
    let mut engine = Engine::new(staging, 1);
    // Without a close the branch must suspend: the engine goes idle.
    let mut saw_idle = false;
    for _ in 0..10 {
        match engine.step() {
            StepResult::Idle => {
                saw_idle = true;
                break;
            }
            StepResult::Progress => {}
            other => panic!("unexpected result {other:?}"),
        }
    }
    assert!(saw_idle);
}

#[test]
fn stream_input_blocks_then_resumes_on_feed() {
    // A Run whose stdin comes from stream "in": blocked until the
    // sibling block forwards bytes there.
    let staging = vec![Directive::Simul {
        blocks: vec![
            vec![run_true(Input::Stream { id: "in".to_string() })],
            vec![Directive::OutputFile {
                file: "/out".to_string(),
                dst: Output::ToStream { id: "in".to_string() },
            }],
        ],
        finish_on_first_fail: false,
        kill_on_first_fail: false,
        stop_file_io_on_first_fail: false,
    }];
    let mut engine = Engine::new(staging, 1);
    let (failed, actions, _) = drive_ok(&mut engine);
    assert!(!failed);
    // The read happened, and the run received the forwarded file bytes.
    let mut saw_run = false;
    for a in &actions {
        if let Action::DoRun { stdin, .. } = a {
            assert_eq!(stdin, &b"file-bytes".to_vec());
            saw_run = true;
        }
    }
    assert!(saw_run);
}

#[test]
fn kill_on_first_fail_terminates_all_processes() {
    // Two concurrent Runs under kill_on_first_fail: when the first exits
    // with a failing code, the other live process receives a termination
    // signal before the block returns.
    let staging = vec![Directive::Simul {
        blocks: vec![
            vec![run_true(Input::Const { bytes: Vec::new() })],
            vec![run_true(Input::Const { bytes: Vec::new() })],
        ],
        finish_on_first_fail: false,
        kill_on_first_fail: true,
        stop_file_io_on_first_fail: false,
    }];
    let mut engine = Engine::new(staging, 1);
    // Step until both processes are started.
    let mut started: Vec<(usize, usize)> = Vec::new();
    let mut guard = 0;
    while started.len() < 2 {
        guard += 1;
        assert!(guard < 100);
        match engine.step() {
            StepResult::Acted { branch, action: Action::DoRun { pid, .. } } => {
                started.push((branch, pid));
            }
            StepResult::Progress => {}
            other => panic!("unexpected result while starting {other:?}"),
        }
    }
    let (branch0, _pid0) = started[0];
    let (_branch1, pid1) = started[1];
    // First process fails.
    engine.deliver(
        branch0,
        Event::ProcDone { code: Some(1), stdout: Vec::new(), stderr: Vec::new() },
    );
    // The very next work the engine does is issuing the kill for the
    // other live process.
    match engine.step() {
        StepResult::Kill { pid } => assert_eq!(pid, pid1),
        _ => panic!("expected a termination signal first"),
    }
}

#[test]
fn fork_cases_runs_once_per_case_with_inputs() {
    // One Run per case; the per-case containers see their own case index.
    let staging = vec![Directive::ForkCases {
        directives: vec![run_true(Input::Const { bytes: b"go".to_vec() })],
        simul: true,
    }];
    let mut engine = Engine::new(staging, 2);
    let (failed, actions, _) = drive_ok(&mut engine);
    assert!(!failed);
    let mut cases: Vec<usize> = actions
        .iter()
        .filter_map(|a| match a {
            Action::DoRun { case, .. } => Some(*case),
            _ => None,
        })
        .collect();
    cases.sort();
    assert_eq!(cases, vec![0, 1]);
}

#[test]
fn conditional_follows_stream_state() {
    let staging = vec![
        Directive::CloseStream { id: "flag".to_string() },
        Directive::Conditional {
            condition: Condition::StreamClosed { id: "flag".to_string() },
            directives: vec![Directive::WriteFile {
                file: "/c".to_string(),
                src: Input::Const { bytes: b"y".to_vec() },
                append: false,
                exists: None,
            }],
        },
        Directive::Conditional {
            condition: Condition::StreamOpen { id: "flag".to_string() },
            directives: vec![Directive::WriteFile {
                file: "/never".to_string(),
                src: Input::Const { bytes: b"n".to_vec() },
                append: false,
                exists: None,
            }],
        },
    ];
    let mut engine = Engine::new(staging, 1);
    let (failed, actions, _) = drive_ok(&mut engine);
    assert!(!failed);
    assert_eq!(actions.len(), 1);
    match &actions[0] {
        Action::DoWriteFile { file, .. } => assert_eq!(file, "/c"),
        _ => panic!("expected the guarded write"),
    }
}

#[test]
fn spawned_container_is_torn_down() {
    let staging = vec![Directive::SpawnContainer {
        directives: vec![Directive::WriteFile {
            file: "/nested".to_string(),
            src: Input::Const { bytes: b"n".to_vec() },
            append: false,
            exists: None,
        }],
        diffs: vec!["base".to_string()],
    }];
    let mut engine = Engine::new(staging, 1);
    let (failed, actions, _) = drive_ok(&mut engine);
    assert!(!failed);
    let mut spawn_case = None;
    let mut write_case = None;
    let mut teardown_case = None;
    for a in &actions {
        match a {
            Action::DoSpawn { case, .. } => spawn_case = Some(*case),
            Action::DoWriteFile { case, .. } => write_case = Some(*case),
            Action::DoTeardown { case } => teardown_case = Some(*case),
            _ => {}
        }
    }
    // The nested work ran against the fresh case, which was then torn
    // down when its sub-tree completed.
    assert_eq!(spawn_case, Some(1));
    assert_eq!(write_case, Some(1));
    assert_eq!(teardown_case, Some(1));
}

#[test]
fn capture_string_feeds_later_input() {
    let staging = vec![
        Directive::OutputFile {
            file: "/src".to_string(),
            dst: Output::CaptureString { id: "grabbed".to_string() },
        },
        Directive::WriteFile {
            file: "/dst".to_string(),
            src: Input::StringRef { id: "grabbed".to_string() },
            append: false,
            exists: None,
        },
    ];
    let mut engine = Engine::new(staging, 1);
    let (failed, actions, _) = drive_ok(&mut engine);
    assert!(!failed);
    match &actions[1] {
        Action::DoWriteFile { bytes, .. } => assert_eq!(bytes, &b"file-bytes".to_vec()),
        _ => panic!("expected the write"),
    }
}

#[test]
fn sequential_fork_waits_for_predecessor() {
    let staging = vec![Directive::ForkCases {
        directives: vec![run_true(Input::Const { bytes: Vec::new() })],
        simul: false,
    }];
    let mut engine = Engine::new(staging, 2);
    // Step until case 0's process starts.
    let b0 = loop {
        match engine.step() {
            StepResult::Acted { branch, action: Action::DoRun { case, .. } } => {
                assert_eq!(case, 0);
                break branch;
            }
            StepResult::Progress => {}
            other => panic!("unexpected result {other:?}"),
        }
    };
    // While case 0 runs, case 1 must not be scheduled: the engine idles.
    loop {
        match engine.step() {
            StepResult::Idle => break,
            StepResult::Progress => {}
            other => panic!("case order violated: {other:?}"),
        }
    }
    // Case 0 finishes; only then does case 1 start.
    engine.deliver(b0, Event::ProcDone { code: Some(0), stdout: Vec::new(), stderr: Vec::new() });
    let b1 = loop {
        match engine.step() {
            StepResult::Acted { branch, action: Action::DoRun { case, .. } } => {
                assert_eq!(case, 1);
                break branch;
            }
            StepResult::Progress => {}
            other => panic!("unexpected result {other:?}"),
        }
    };
    engine.deliver(b1, Event::ProcDone { code: Some(0), stdout: Vec::new(), stderr: Vec::new() });
    loop {
        match engine.step() {
            StepResult::Finished { failed } => {
                assert!(!failed);
                break;
            }
            StepResult::Progress => {}
            other => panic!("unexpected result {other:?}"),
        }
    }
}

#[test]
fn stop_file_io_after_first_failure() {
    // One block fails a process under stop_file_io_on_first_fail; the
    // sibling's file write must then fail without touching the
    // filesystem.
    let staging = vec![Directive::Simul {
        blocks: vec![
            vec![run_true(Input::Const { bytes: Vec::new() })],
            vec![
                Directive::WaitStream { id: "gate".to_string() },
                Directive::WriteFile {
                    file: "/late".to_string(),
                    src: Input::Const { bytes: b"x".to_vec() },
                    append: false,
                    exists: None,
                },
            ],
        ],
        finish_on_first_fail: false,
        kill_on_first_fail: false,
        stop_file_io_on_first_fail: true,
    }];
    let mut engine = Engine::new(staging, 1);
    let b0 = loop {
        match engine.step() {
            StepResult::Acted { branch, action: Action::DoRun { .. } } => break branch,
            StepResult::Progress => {}
            other => panic!("unexpected result {other:?}"),
        }
    };
    engine.deliver(b0, Event::ProcDone { code: Some(1), stdout: Vec::new(), stderr: Vec::new() });
    assert!(engine.io_stopped);
    // Release the sibling; its write now fails fast: no write action is
    // ever issued and the whole tree fails.
    let close = "gate".to_string();
    engine.env.close_stream(&close);
    let mut guard = 0;
    loop {
        guard += 1;
        assert!(guard < 100);
        match engine.step() {
            StepResult::Finished { failed } => {
                assert!(failed);
                break;
            }
            StepResult::Progress => {}
            StepResult::Acted { .. } => panic!("file io should have stopped"),
            other => panic!("unexpected result {other:?}"),
        }
    }
}

#[test]
fn finish_on_first_fail_cancels_siblings() {
    // The failing block abandons its blocked sibling instead of letting
    // it wait forever.
    let staging = vec![Directive::Simul {
        blocks: vec![
            vec![run_true(Input::Const { bytes: Vec::new() })],
            vec![Directive::WaitStream { id: "never".to_string() }],
        ],
        finish_on_first_fail: true,
        kill_on_first_fail: false,
        stop_file_io_on_first_fail: false,
    }];
    let mut engine = Engine::new(staging, 1);
    let b0 = loop {
        match engine.step() {
            StepResult::Acted { branch, action: Action::DoRun { .. } } => break branch,
            StepResult::Progress => {}
            other => panic!("unexpected result {other:?}"),
        }
    };
    engine.deliver(b0, Event::ProcDone { code: Some(1), stdout: Vec::new(), stderr: Vec::new() });
    let mut guard = 0;
    loop {
        guard += 1;
        assert!(guard < 100);
        match engine.step() {
            StepResult::Finished { failed } => {
                assert!(failed);
                break;
            }
            StepResult::Progress => {}
            other => panic!("unexpected result {other:?}"),
        }
    }
}

#[test]
fn run_on_exhausted_stream_fails() {
    // The stream is closed and empty before the Run resolves its stdin:
    // a read past exhaustion fails the directive, it does not block or
    // proceed with empty input.
    let staging = vec![
        Directive::CloseStream { id: "in".to_string() },
        run_true(Input::Stream { id: "in".to_string() }),
    ];
    let mut engine = Engine::new(staging, 1);
    let (failed, actions, _) = drive_ok(&mut engine);
    assert!(failed);
    assert!(actions.is_empty());
}

#[test]
fn kill_soon_releases_stream_waiters() {
    // Instance-level cancellation: the branch blocked on WaitStream is
    // released with a cancellation failure, not left blocked.
    let staging = vec![Directive::WaitStream { id: "never".to_string() }];
    let mut engine = Engine::new(staging, 1);
    loop {
        match engine.step() {
            StepResult::Idle => break,
            StepResult::Progress => {}
            other => panic!("unexpected result {other:?}"),
        }
    }
    kill_soon(&mut engine);
    loop {
        match engine.step() {
            StepResult::Finished { failed } => {
                assert!(failed);
                break;
            }
            StepResult::Progress => {}
            other => panic!("unexpected result {other:?}"),
        }
    }
}

#[test]
fn kill_soon_queues_every_live_process() {
    let mut engine = Engine::new(Vec::new(), 1);
    engine.live = vec![4, 7, 9];
    kill_soon(&mut engine);
    assert!(engine.live.is_empty());
    let mut queued = engine.kills.clone();
    queued.sort();
    assert_eq!(queued, vec![4, 7, 9]);
    // The queued signals drain before anything else.
    match engine.step() {
        StepResult::Kill { pid } => assert!([4, 7, 9].contains(&pid)),
        _ => panic!("expected a kill first"),
    }
}
