use rto_agent::container::Container;
use rto_agent::container::ProvisionError;
use rto_agent::container::RunState;
use rto_agent::container::StepOutcome;
use rto_agent::dispatch::Command;
use rto_agent::dispatch::ProtocolError;
use rto_agent::dispatch::Registry;
use rto_agent::dispatch::be_bytes;
use rto_agent::dispatch::create_err_response;
use rto_agent::dispatch::create_ok_response;
use rto_agent::dispatch::read_command;
use rto_agent::dispatch::start_response;
use rto_agent::inst::Config;
use rto_agent::inst::InstFront;
use rto_agent::inst::InstState;
use rto_agent::inst::Mode;
use rto_agent::inst::StartError;
use rto_agent::inst::split_start_inputs;
use rto_agent::io_bin::ByteCursor;
use rto_agent::io_bin::ByteSink;
use rto_agent::io_bin::OutputStream;
use rto_agent::oci::case_hostname;
use rto_agent::oci::oci_config_for_case;

fn provisioned(inst_id: &str, case_id: usize) -> Container {
    let mut p = Container::init(
        inst_id.to_string(),
        case_id.to_string(),
        vec!["base".to_string()],
        "{}".to_string(),
    );
    for _ in 0..4 {
        p.apply(StepOutcome::Succeeded);
    }
    p.apply(StepOutcome::Exited(Some(0)));
    p.into_container()
}

fn ready_front(id: &str, mode: Mode) -> InstFront {
    let n = match mode {
        Mode::MultiCase(n) => n,
        _ => 1,
    };
    let mut front = InstFront::init(
        id.to_string(),
        Config { diffs: vec!["base".to_string(), "lang".to_string()], staging: Vec::new() },
        mode,
    );
    for i in 0..n {
        front.add_container(provisioned(id, i));
    }
    front.complete_provisioning();
    front
}

#[test]
fn mode_case_counts() {
    assert!(!Mode::SingleCase.is_multi());
    assert!(Mode::MultiCase(3).is_multi());
    assert!(!Mode::Tty.is_multi());
    assert_eq!(Mode::SingleCase.case_count(), 1);
    assert_eq!(Mode::Tty.case_count(), 1);
    assert_eq!(Mode::MultiCase(3).case_count(), 3);
}

#[test]
fn ready_instance_owns_one_container_per_case() {
    let front = ready_front("i1", Mode::MultiCase(3));
    assert_eq!(front.inner.state, InstState::Ready);
    assert_eq!(front.inner.conts.len(), 3);
    let single = ready_front("i2", Mode::SingleCase);
    assert_eq!(single.inner.conts.len(), 1);
    let tty = ready_front("i3", Mode::Tty);
    assert_eq!(tty.inner.conts.len(), 1);
}

#[test]
fn aborted_provisioning_exposes_no_partial_instance() {
    let mut front = InstFront::init(
        "i4".to_string(),
        Config { diffs: Vec::new(), staging: Vec::new() },
        Mode::MultiCase(3),
    );
    front.add_container(provisioned("i4", 0));
    front.add_container(provisioned("i4", 1));
    // The third container failed to provision: the instance fails and
    // the two siblings come back for teardown, in creation order.
    let torn = front.abort_provisioning();
    assert_eq!(front.inner.state, InstState::Failed);
    assert!(front.inner.conts.is_empty());
    assert_eq!(torn.len(), 2);
}

#[test]
fn multi_case_start_splits_common_and_per_case() {
    let mut sink = ByteSink::new();
    sink.output_string(b"42").unwrap();
    sink.output_string(b"a").unwrap();
    sink.output_string(b"b").unwrap();
    let payload = sink.into_bytes();

    let split = split_start_inputs(&payload, 2).unwrap();
    assert_eq!(split, vec![b"42a".to_vec(), b"42b".to_vec()]);

    let mut front = ready_front("i5", Mode::MultiCase(2));
    front.start(&payload).unwrap();
    assert_eq!(front.inner.state, InstState::Running);
    // Case 0 received "42a" and case 1 received "42b", both started.
    assert_eq!(front.inner.conts[0].received(), &b"42a".to_vec());
    assert_eq!(front.inner.conts[1].received(), &b"42b".to_vec());
    assert_eq!(front.inner.conts[0].state(), RunState::Started);
    assert_eq!(front.inner.conts[1].state(), RunState::Started);
    front.mark_finished();
    assert_eq!(front.inner.state, InstState::Finished);
}

#[test]
fn engine_outcome_decides_terminal_state() {
    let mut ok_front = ready_front("i10", Mode::SingleCase);
    ok_front.start(b"").unwrap();
    ok_front.record_outcome(false);
    assert_eq!(ok_front.inner.state, InstState::Finished);
    let mut bad_front = ready_front("i11", Mode::SingleCase);
    bad_front.start(b"").unwrap();
    bad_front.record_outcome(true);
    assert_eq!(bad_front.inner.state, InstState::Failed);
}

#[test]
fn single_case_start_forwards_verbatim() {
    let mut front = ready_front("i6", Mode::SingleCase);
    front.start(b"raw-bytes").unwrap();
    assert_eq!(front.inner.state, InstState::Running);
    assert_eq!(front.inner.conts[0].received(), &b"raw-bytes".to_vec());
}

#[test]
fn start_rejects_unready_instance() {
    let mut front = InstFront::init(
        "i7".to_string(),
        Config { diffs: Vec::new(), staging: Vec::new() },
        Mode::SingleCase,
    );
    assert_eq!(front.start(b""), Err(StartError::NotReady));
}

#[test]
fn start_rejects_malformed_multi_payload() {
    let mut sink = ByteSink::new();
    sink.output_string(b"42").unwrap();
    sink.output_string(b"a").unwrap();
    // Second per-case string missing for a two-case instance.
    let payload = sink.into_bytes();
    let mut front = ready_front("i8", Mode::MultiCase(2));
    match front.start(&payload) {
        Err(StartError::Malformed(_)) => {}
        other => panic!("expected a malformed payload, got {other:?}"),
    }
    assert_eq!(front.inner.state, InstState::Ready);
}

#[test]
fn read_command_create_inline() {
    let mut sink = ByteSink::new();
    sink.output_byte(0x01).unwrap();
    sink.output_string(b"{\"diffs\":[]}").unwrap();
    sink.output_byte(0x01).unwrap(); // MultiCase mode
    sink.output_size(2).unwrap();
    let mut cur = ByteCursor::new(sink.into_bytes());
    match read_command(&mut cur).unwrap() {
        Command::CreateInline { config_json, mode } => {
            assert_eq!(config_json, b"{\"diffs\":[]}".to_vec());
            assert!(matches!(mode, Mode::MultiCase(2)));
        }
        _ => panic!("wrong command"),
    }
}

#[test]
fn read_command_create_from_lang_single() {
    let mut sink = ByteSink::new();
    sink.output_byte(0x00).unwrap();
    sink.output_string(b"python").unwrap();
    sink.output_byte(0x00).unwrap(); // SingleCase mode
    let mut cur = ByteCursor::new(sink.into_bytes());
    match read_command(&mut cur).unwrap() {
        Command::CreateFromLang { lang_id, mode } => {
            assert_eq!(lang_id, b"python".to_vec());
            assert!(matches!(mode, Mode::SingleCase));
        }
        _ => panic!("wrong command"),
    }
}

#[test]
fn read_command_start_feed_stop() {
    let mut sink = ByteSink::new();
    sink.output_byte(0x10).unwrap();
    sink.output_size(7).unwrap();
    sink.output_string(b"input").unwrap();
    sink.output_byte(0x11).unwrap();
    sink.output_size(7).unwrap();
    sink.output_size(1).unwrap();
    sink.output_string(b"fed").unwrap();
    sink.output_byte(0x12).unwrap();
    sink.output_size(7).unwrap();
    let mut cur = ByteCursor::new(sink.into_bytes());
    match read_command(&mut cur).unwrap() {
        Command::StartInst { instance_id, inputs } => {
            assert_eq!(instance_id, 7);
            assert_eq!(inputs, b"input".to_vec());
        }
        _ => panic!("wrong command"),
    }
    match read_command(&mut cur).unwrap() {
        Command::FeedInput { instance_id, stream_index, data } => {
            assert_eq!(instance_id, 7);
            assert_eq!(stream_index, 1);
            assert_eq!(data, b"fed".to_vec());
        }
        _ => panic!("wrong command"),
    }
    match read_command(&mut cur).unwrap() {
        Command::StopInst { instance_id } => assert_eq!(instance_id, 7),
        _ => panic!("wrong command"),
    }
}

#[test]
fn read_command_rejects_unknown_opcode() {
    let mut cur = ByteCursor::new(vec![0x42]);
    assert_eq!(read_command(&mut cur), Err(ProtocolError::BadOpcode(0x42)));
}

#[test]
fn read_command_rejects_unknown_mode() {
    let mut sink = ByteSink::new();
    sink.output_byte(0x01).unwrap();
    sink.output_string(b"{}").unwrap();
    sink.output_byte(0x07).unwrap();
    let mut cur = ByteCursor::new(sink.into_bytes());
    assert_eq!(read_command(&mut cur), Err(ProtocolError::BadMode(0x07)));
}

#[test]
fn response_frames() {
    assert_eq!(be_bytes(0x0102030405060708), vec![1, 2, 3, 4, 5, 6, 7, 8]);
    assert_eq!(
        create_ok_response(9),
        vec![0x80, 0x00, 0, 0, 0, 0, 0, 0, 0, 9]
    );
    let err = create_err_response(9, b"Mount(2)");
    assert_eq!(&err[..2], &[0x80, 0x01]);
    assert_eq!(&err[2..10], &[0, 0, 0, 0, 0, 0, 0, 9]);
    assert_eq!(&err[10..], b"Mount(2)");
    let ok = start_response(9, true, b"");
    assert_eq!(&ok[..2], &[0x81, 0x00]);
    let bad = start_response(9, false, b"boom");
    assert_eq!(&bad[..2], &[0x81, 0x01]);
    assert_eq!(&bad[10..], b"boom");
}

#[test]
fn mount_failure_reports_frame_and_leaves_nothing() {
    // Provisioning fails at the mount step: the error carries the OS
    // code, nothing remains on disk, and the host sees the failure frame.
    let mut p = Container::init(
        "i9".to_string(),
        "0".to_string(),
        vec!["no-such-layer".to_string()],
        "{}".to_string(),
    );
    p.apply(StepOutcome::Succeeded); // base dir
    p.apply(StepOutcome::Succeeded); // subdirs
    p.apply(StepOutcome::Failed(2)); // mount: ENOENT
    p.apply(StepOutcome::Succeeded); // remove tree
    assert_eq!(p.error().unwrap(), ProvisionError::Mount(2));
    assert!(p.footprint.clean());
    let frame = create_err_response(9, p.error().unwrap().describe().as_bytes());
    assert_eq!(&frame[..2], &[0x80, 0x01]);
    assert!(frame.len() > 10);
}

#[test]
fn registry_random_ids_avoid_collisions() {
    let mut reg = Registry::new();
    let id = reg.random_inst_id(8).unwrap();
    let front = InstFront::init(
        id.to_string(),
        Config { diffs: Vec::new(), staging: Vec::new() },
        Mode::SingleCase,
    );
    reg.insert(id, front);
    let second = reg.random_inst_id(8).unwrap();
    assert_ne!(id, second);
    assert!(reg.remove(id).is_some());
    assert!(reg.remove(id).is_none());
}

#[test]
fn oci_config_rewrites_hostname() {
    let cfg = oci_config_for_case("{\"hostname\":\"rto\",\"ociVersion\":\"1.0.2\"}", "i1", "0")
        .unwrap();
    assert!(cfg.contains("\"hostname\":\"rto-i1-0\""));
    assert!(cfg.contains("\"ociVersion\":\"1.0.2\""));
    assert_eq!(case_hostname("rto", "i1", "0"), "rto-i1-0");
}

#[test]
fn oci_config_preserves_non_string_entries() {
    // The rewrite touches exactly the hostname entry: nested objects and
    // arrays of the runtime configuration come through untouched.
    let base = "{\"hostname\":\"rto\",\"mounts\":[{\"destination\":\"/proc\"}],\
\"root\":{\"path\":\"rootfs\",\"readonly\":false}}";
    let cfg = oci_config_for_case(base, "i", "1").unwrap();
    assert!(cfg.contains("\"hostname\":\"rto-i-1\""));
    assert!(cfg.contains("\"root\":{\"path\":\"rootfs\",\"readonly\":false}"));
    assert!(cfg.contains("\"mounts\":[{\"destination\":\"/proc\"}]"));
}

#[test]
fn oci_config_requires_string_hostname() {
    assert!(oci_config_for_case("{\"hostname\":3}", "i", "0").is_none());
    assert!(oci_config_for_case("{}", "i", "0").is_none());
    assert!(oci_config_for_case("not json", "i", "0").is_none());
    assert!(oci_config_for_case("[1,2]", "i", "0").is_none());
}
