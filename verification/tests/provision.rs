use rto_agent::container::Container;
use rto_agent::container::ProvisionError;
use rto_agent::container::ProvisionStep;
use rto_agent::container::Provisioner;
use rto_agent::container::StepOutcome;
use rto_agent::container::cont_config_path;
use rto_agent::container::cont_dir;
use rto_agent::container::cont_root_dir;
use rto_agent::container::cont_top_dir;
use rto_agent::container::cont_work_dir;
use rto_agent::container::diff_path;
use rto_agent::container::lang_config_path;
use rto_agent::container::lowerdir_from_diffs;
use rto_agent::container::mount_options;
use rto_agent::container::runtime_name;

fn fresh(diffs: &[&str]) -> Provisioner {
    Container::init(
        "inst7".to_string(),
        "3".to_string(),
        diffs.iter().map(|d| d.to_string()).collect(),
        "{}".to_string(),
    )
}

/// Drive the machine to completion, answering the creation step at
/// position `fail_at` (0-based) with `failure` and every other step with
/// success.
fn drive(p: &mut Provisioner, fail_at: Option<usize>, failure: StepOutcome) {
    let mut creation_steps = 0usize;
    let mut guard = 0usize;
    while let Some(step) = p.next_step() {
        guard += 1;
        assert!(guard < 100, "provisioner did not settle");
        let outcome = match step {
            ProvisionStep::CreateBaseDir
            | ProvisionStep::CreateSubDirs
            | ProvisionStep::MountOverlay
            | ProvisionStep::WriteConfig => {
                let this = creation_steps;
                creation_steps += 1;
                if Some(this) == fail_at {
                    failure
                } else {
                    StepOutcome::Succeeded
                }
            }
            ProvisionStep::RuntimeCreate => {
                let this = creation_steps;
                creation_steps += 1;
                if Some(this) == fail_at {
                    failure
                } else {
                    StepOutcome::Exited(Some(0))
                }
            }
            ProvisionStep::Unmount | ProvisionStep::RemoveTree => StepOutcome::Succeeded,
        };
        p.apply(outcome);
    }
}

#[test]
fn provision_success_builds_everything() {
    let mut p = fresh(&["base"]);
    drive(&mut p, None, StepOutcome::Succeeded);
    assert!(p.succeeded());
    assert!(p.error().is_none());
    let fp = p.footprint;
    assert!(fp.base_dir && fp.subdirs && fp.mounted && fp.config_written && fp.runtime_created);
    let c = p.into_container();
    let _ = c;
}

#[test]
fn provision_step_order() {
    let mut p = fresh(&["base"]);
    let expected = [
        ProvisionStep::CreateBaseDir,
        ProvisionStep::CreateSubDirs,
        ProvisionStep::MountOverlay,
        ProvisionStep::WriteConfig,
        ProvisionStep::RuntimeCreate,
    ];
    for want in expected {
        assert_eq!(p.next_step().unwrap(), want);
        let outcome = if want == ProvisionStep::RuntimeCreate {
            StepOutcome::Exited(Some(0))
        } else {
            StepOutcome::Succeeded
        };
        p.apply(outcome);
    }
    assert!(p.next_step().is_none());
}

#[test]
fn provision_atomicity_under_each_failure() {
    // Inject a failure at each of the five provisioning steps; whatever
    // the step, after rollback no directory and no mount remains.
    let failures = [
        (0, StepOutcome::Failed(13), ProvisionError::Dir),
        (1, StepOutcome::Failed(13), ProvisionError::SubDir),
        (2, StepOutcome::Failed(19), ProvisionError::Mount(19)),
        (3, StepOutcome::Failed(28), ProvisionError::WriteConfig),
        (4, StepOutcome::Exited(Some(1)), ProvisionError::RuntimeCreate(Some(1))),
    ];
    for (at, failure, want) in failures {
        let mut p = fresh(&["base", "lang"]);
        drive(&mut p, Some(at), failure);
        assert!(!p.succeeded());
        assert!(!p.is_fatal());
        assert_eq!(p.error().unwrap(), want);
        assert!(p.footprint.clean(), "residue after failure at step {at}");
    }
}

#[test]
fn provision_runtime_spawn_and_wait_failures_roll_back() {
    for (failure, want) in [
        (StepOutcome::SpawnFailed, ProvisionError::RuntimeSpawn),
        (StepOutcome::WaitFailed, ProvisionError::RuntimeWait),
        (StepOutcome::Exited(None), ProvisionError::RuntimeCreate(None)),
    ] {
        let mut p = fresh(&["base"]);
        drive(&mut p, Some(4), failure);
        assert_eq!(p.error().unwrap(), want);
        assert!(p.footprint.clean());
    }
}

#[test]
fn provision_unmount_failure_is_fatal() {
    let mut p = fresh(&["base"]);
    // Succeed through the config write, fail runtime create, then fail
    // the rollback unmount: an unrecoverable inconsistency.
    for _ in 0..4 {
        p.apply(StepOutcome::Succeeded);
    }
    p.apply(StepOutcome::Exited(Some(2)));
    assert_eq!(p.next_step().unwrap(), ProvisionStep::Unmount);
    p.apply(StepOutcome::Failed(16));
    assert!(p.is_fatal());
    assert!(p.next_step().is_none());
}

#[test]
fn container_start_records_inputs() {
    let mut p = fresh(&["base"]);
    drive(&mut p, None, StepOutcome::Succeeded);
    let mut c = p.into_container();
    c.start(b"42a");
}

#[test]
fn paths_follow_fixed_layout() {
    assert_eq!(cont_dir("9"), "/rto/conts/9");
    assert_eq!(cont_work_dir("9"), "/rto/conts/9/work");
    assert_eq!(cont_top_dir("9"), "/rto/conts/9/top");
    assert_eq!(cont_root_dir("9"), "/rto/conts/9/root");
    assert_eq!(cont_config_path("9"), "/rto/conts/9/config.json");
    assert_eq!(diff_path("base"), "/rto/imgs/diffs/base");
    assert_eq!(lang_config_path("python"), "/rto/imgs/configs/python.json");
    assert_eq!(runtime_name("9"), "rto_9");
}

#[test]
fn lowerdir_keeps_list_order() {
    let diffs = vec!["base".to_string(), "lang".to_string()];
    assert_eq!(
        lowerdir_from_diffs(&diffs),
        "/rto/imgs/diffs/base:/rto/imgs/diffs/lang"
    );
    assert_eq!(lowerdir_from_diffs(&Vec::new()), "");
    assert_eq!(lowerdir_from_diffs(&vec!["x".to_string()]), "/rto/imgs/diffs/x");
}

#[test]
fn mount_options_compose() {
    let diffs = vec!["base".to_string(), "lang".to_string()];
    let want = [
        "lowerdir=/rto/imgs/diffs/base:/rto/imgs/diffs/lang",
        ",upperdir=/rto/conts/3/top",
        ",workdir=/rto/conts/3/work",
        ",volatile",
    ]
    .concat();
    assert_eq!(mount_options(&diffs, "3"), want);
}
