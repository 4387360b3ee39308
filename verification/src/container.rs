//! Transactional container provisioning and the per-case container handle.
//!
//! Provisioning composes an overlay filesystem from named diff layers,
//! writes the serialized runtime configuration and asks the external OCI
//! runtime to create (not start) the container. Every step is guarded: a
//! failure at any step unwinds exactly the steps already completed, so a
//! failed provisioning run leaves no directory and no mount behind.
//!
//! The decisions live here as a step machine: [`Provisioner`] names the
//! next filesystem or runtime action to perform and consumes its outcome.
//! The caller performs the actions (they are OS calls) and reports back;
//! the machine's bookkeeping of what exists on disk — its [`Footprint`] —
//! and its rollback ordering are verified.

use vstd::prelude::*;
use vstd::string::StringExecFns;

verus! {

/// Why provisioning failed, by the step that failed. `Mount` carries the
/// OS error code; `RuntimeCreate` carries the runtime's exit code, `None`
/// for abnormal termination without one.
#[derive(Clone, Copy, Debug, PartialEq, Eq, Structural)]
pub enum ProvisionError {
    Dir,
    SubDir,
    Mount(i32),
    WriteConfig,
    RuntimeSpawn,
    RuntimeWait,
    RuntimeCreate(Option<i32>),
}

/// What of one container's on-disk and runtime footprint exists right now.
/// `subdirs` covers `work`, `top` and `root` together: removing the base
/// directory tree removes any partial subset as well.
#[derive(Clone, Copy, Debug, PartialEq, Eq, Structural)]
pub struct Footprint {
    pub base_dir: bool,
    pub subdirs: bool,
    pub mounted: bool,
    pub config_written: bool,
    pub runtime_created: bool,
}

impl Footprint {
    /// No directory, no mount, nothing created.
    pub open spec fn spec_clean(self) -> bool {
        !self.base_dir && !self.subdirs && !self.mounted && !self.config_written
            && !self.runtime_created
    }

    /// No directory, no mount, nothing created.
    pub fn clean(&self) -> (r: bool)
        ensures
            r == self.spec_clean(),
    {
        !self.base_dir && !self.subdirs && !self.mounted && !self.config_written
            && !self.runtime_created
    }

    /// Everything a created container owns exists.
    pub open spec fn spec_complete(self) -> bool {
        self.base_dir && self.subdirs && self.mounted && self.config_written
            && self.runtime_created
    }
}

/// Where a provisioning run stands.
#[derive(Clone, Copy, Debug, PartialEq, Eq, Structural)]
pub enum Phase {
    NeedBase,
    NeedSubdirs,
    NeedMount,
    NeedConfig,
    NeedCreate,
    RollbackUnmount(ProvisionError),
    RollbackRemove(ProvisionError),
    Complete,
    Aborted(ProvisionError),
    Fatal,
}

/// The next action the caller must perform against the OS or the runtime.
#[derive(Clone, Copy, Debug, PartialEq, Eq, Structural)]
pub enum ProvisionStep {
    CreateBaseDir,
    CreateSubDirs,
    MountOverlay,
    WriteConfig,
    RuntimeCreate,
    Unmount,
    RemoveTree,
}

/// What a performed step came back with. `Succeeded`/`Failed` answer filesystem
/// steps (`Failed` carries the OS error code); the runtime-create step
/// answers with `SpawnFailed`, `WaitFailed` or the process's exit status.
#[derive(Clone, Copy, Debug, PartialEq, Eq, Structural)]
pub enum StepOutcome {
    Succeeded,
    Failed(i32),
    SpawnFailed,
    WaitFailed,
    Exited(Option<i32>),
}

/// Which outcomes answer which phase.
pub open spec fn outcome_fits(phase: Phase, o: StepOutcome) -> bool {
    match phase {
        Phase::NeedCreate => o is SpawnFailed || o is WaitFailed || o is Exited,
        Phase::NeedBase
        | Phase::NeedSubdirs
        | Phase::NeedMount
        | Phase::NeedConfig
        | Phase::RollbackUnmount(_)
        | Phase::RollbackRemove(_) => o is Succeeded || o is Failed,
        _ => false,
    }
}

/// The transition table of one provisioning step: the next phase and the
/// footprint after the reported outcome.
pub open spec fn step_transition(phase: Phase, fp: Footprint, o: StepOutcome) -> (
    Phase,
    Footprint,
) {
    match (phase, o) {
        (Phase::NeedBase, StepOutcome::Succeeded) => (
            Phase::NeedSubdirs,
            Footprint { base_dir: true, ..fp },
        ),
        (Phase::NeedBase, _) => (Phase::Aborted(ProvisionError::Dir), fp),
        (Phase::NeedSubdirs, StepOutcome::Succeeded) => (
            Phase::NeedMount,
            Footprint { subdirs: true, ..fp },
        ),
        (Phase::NeedSubdirs, _) => (Phase::RollbackRemove(ProvisionError::SubDir), fp),
        (Phase::NeedMount, StepOutcome::Succeeded) => (
            Phase::NeedConfig,
            Footprint { mounted: true, ..fp },
        ),
        (Phase::NeedMount, StepOutcome::Failed(e)) => (
            Phase::RollbackRemove(ProvisionError::Mount(e)),
            fp,
        ),
        (Phase::NeedMount, _) => (Phase::Fatal, fp),
        (Phase::NeedConfig, StepOutcome::Succeeded) => (
            Phase::NeedCreate,
            Footprint { config_written: true, ..fp },
        ),
        (Phase::NeedConfig, _) => (Phase::RollbackUnmount(ProvisionError::WriteConfig), fp),
        (Phase::NeedCreate, StepOutcome::Exited(Some(0))) => (
            Phase::Complete,
            Footprint { runtime_created: true, ..fp },
        ),
        (Phase::NeedCreate, StepOutcome::Exited(code)) => (
            Phase::RollbackUnmount(ProvisionError::RuntimeCreate(code)),
            fp,
        ),
        (Phase::NeedCreate, StepOutcome::SpawnFailed) => (
            Phase::RollbackUnmount(ProvisionError::RuntimeSpawn),
            fp,
        ),
        (Phase::NeedCreate, _) => (Phase::RollbackUnmount(ProvisionError::RuntimeWait), fp),
        (Phase::RollbackUnmount(e), StepOutcome::Succeeded) => (
            Phase::RollbackRemove(e),
            Footprint { mounted: false, ..fp },
        ),
        (Phase::RollbackUnmount(_), _) => (Phase::Fatal, fp),
        (Phase::RollbackRemove(e), StepOutcome::Succeeded) => (
            Phase::Aborted(e),
            Footprint { base_dir: false, subdirs: false, config_written: false, ..fp },
        ),
        (Phase::RollbackRemove(_), _) => (Phase::Fatal, fp),
        (p, _) => (p, fp),
    }
}

/// The transactional provisioner for one container: five guarded creation
/// steps, rolled back in reverse order from the point of failure.
pub struct Provisioner {
    pub inst_id: String,
    pub id: String,
    pub diffs: Vec<String>,
    pub config: String,
    pub phase: Phase,
    /// The model of what the run has created so far.
    pub footprint: Footprint,
}

impl Provisioner {
    /// The current phase.
    pub open spec fn spec_phase(&self) -> Phase {
        self.phase
    }

    /// The container id this run provisions.
    pub open spec fn spec_id(&self) -> Seq<char> {
        self.id@
    }

    /// The owning instance id.
    pub open spec fn spec_inst_id(&self) -> Seq<char> {
        self.inst_id@
    }

    /// The diff-layer names, lowest priority first.
    pub open spec fn spec_diffs(&self) -> Seq<Seq<char>> {
        self.diffs.deep_view()
    }

    /// The serialized runtime configuration to write.
    pub open spec fn spec_config(&self) -> Seq<char> {
        self.config@
    }

    /// The footprint matches the phase: each phase owns exactly the
    /// residue of the steps completed and not yet unwound.
    pub open spec fn wf(&self) -> bool {
        match self.spec_phase() {
            Phase::NeedBase => self.footprint.spec_clean(),
            Phase::NeedSubdirs => self.footprint == (Footprint {
                base_dir: true,
                subdirs: false,
                mounted: false,
                config_written: false,
                runtime_created: false,
            }),
            Phase::NeedMount => self.footprint == (Footprint {
                base_dir: true,
                subdirs: true,
                mounted: false,
                config_written: false,
                runtime_created: false,
            }),
            Phase::NeedConfig => self.footprint == (Footprint {
                base_dir: true,
                subdirs: true,
                mounted: true,
                config_written: false,
                runtime_created: false,
            }),
            Phase::NeedCreate => self.footprint == (Footprint {
                base_dir: true,
                subdirs: true,
                mounted: true,
                config_written: true,
                runtime_created: false,
            }),
            Phase::RollbackUnmount(_) => self.footprint.base_dir && self.footprint.subdirs
                && self.footprint.mounted && !self.footprint.runtime_created,
            Phase::RollbackRemove(_) => self.footprint.base_dir && !self.footprint.mounted
                && !self.footprint.runtime_created,
            Phase::Complete => self.footprint.spec_complete(),
            Phase::Aborted(_) => self.footprint.spec_clean(),
            Phase::Fatal => true,
        }
    }

    /// Still has steps to perform (creation or rollback).
    pub open spec fn spec_in_progress(&self) -> bool {
        !(self.spec_phase() is Complete || self.spec_phase() is Aborted || self.spec_phase()
            is Fatal)
    }

    /// Still has steps to perform (creation or rollback).
    pub fn in_progress(&self) -> (r: bool)
        ensures
            r == self.spec_in_progress(),
    {
        !(matches!(self.phase, Phase::Complete | Phase::Aborted(_) | Phase::Fatal))
    }

    /// The run hit a rollback failure it cannot recover from: an unmount
    /// or removal that itself failed. The caller must escalate.
    pub fn is_fatal(&self) -> (r: bool)
        ensures
            r == (self.spec_phase() is Fatal),
    {
        matches!(self.phase, Phase::Fatal)
    }

    /// How the run ended: `None` while in progress or on success, the
    /// provisioning error once aborted.
    pub fn error(&self) -> (r: Option<ProvisionError>)
        ensures
            match r {
                Some(e) => self.spec_phase() == Phase::Aborted(e),
                None => !(self.spec_phase() is Aborted),
            },
    {
        match self.phase {
            Phase::Aborted(e) => Some(e),
            _ => None,
        }
    }

    /// All five steps succeeded: the container exists, created but not
    /// started.
    pub fn succeeded(&self) -> (r: bool)
        ensures
            r == (self.spec_phase() is Complete),
    {
        matches!(self.phase, Phase::Complete)
    }

    /// The next action the caller must perform, `None` once the run is
    /// over (successfully, aborted with rollback done, or fatal).
    pub fn next_step(&self) -> (r: Option<ProvisionStep>)
        ensures
            match r {
                Some(s) => self.spec_in_progress() && s == match self.spec_phase() {
                    Phase::NeedBase => ProvisionStep::CreateBaseDir,
                    Phase::NeedSubdirs => ProvisionStep::CreateSubDirs,
                    Phase::NeedMount => ProvisionStep::MountOverlay,
                    Phase::NeedConfig => ProvisionStep::WriteConfig,
                    Phase::NeedCreate => ProvisionStep::RuntimeCreate,
                    Phase::RollbackUnmount(_) => ProvisionStep::Unmount,
                    _ => ProvisionStep::RemoveTree,
                },
                None => !self.spec_in_progress(),
            },
    {
        match self.phase {
            Phase::NeedBase => Some(ProvisionStep::CreateBaseDir),
            Phase::NeedSubdirs => Some(ProvisionStep::CreateSubDirs),
            Phase::NeedMount => Some(ProvisionStep::MountOverlay),
            Phase::NeedConfig => Some(ProvisionStep::WriteConfig),
            Phase::NeedCreate => Some(ProvisionStep::RuntimeCreate),
            Phase::RollbackUnmount(_) => Some(ProvisionStep::Unmount),
            Phase::RollbackRemove(_) => Some(ProvisionStep::RemoveTree),
            Phase::Complete | Phase::Aborted(_) | Phase::Fatal => None,
        }
    }

    /// Consume the outcome of the step last named by `next_step`,
    /// advancing creation on success and walking the rollback chain on
    /// failure, exactly as `step_transition` says.
    pub fn apply(&mut self, o: StepOutcome)
        requires
            old(self).spec_in_progress(),
            outcome_fits(old(self).spec_phase(), o),
        ensures
            ({
                let (p2, f2) = step_transition(
                    old(self).spec_phase(),
                    old(self).footprint,
                    o,
                );
                final(self).spec_phase() == p2 && final(self).footprint == f2
            }),
            old(self).wf() ==> final(self).wf(),
            final(self).spec_id() == old(self).spec_id(),
            final(self).spec_inst_id() == old(self).spec_inst_id(),
            final(self).spec_diffs() == old(self).spec_diffs(),
            final(self).spec_config() == old(self).spec_config(),
    {
        let (p2, f2) = match (self.phase, o) {
            (Phase::NeedBase, StepOutcome::Succeeded) => (
                Phase::NeedSubdirs,
                Footprint { base_dir: true, ..self.footprint },
            ),
            (Phase::NeedBase, _) => (Phase::Aborted(ProvisionError::Dir), self.footprint),
            (Phase::NeedSubdirs, StepOutcome::Succeeded) => (
                Phase::NeedMount,
                Footprint { subdirs: true, ..self.footprint },
            ),
            (Phase::NeedSubdirs, _) => (
                Phase::RollbackRemove(ProvisionError::SubDir),
                self.footprint,
            ),
            (Phase::NeedMount, StepOutcome::Succeeded) => (
                Phase::NeedConfig,
                Footprint { mounted: true, ..self.footprint },
            ),
            (Phase::NeedMount, StepOutcome::Failed(e)) => (
                Phase::RollbackRemove(ProvisionError::Mount(e)),
                self.footprint,
            ),
            (Phase::NeedMount, _) => (Phase::Fatal, self.footprint),
            (Phase::NeedConfig, StepOutcome::Succeeded) => (
                Phase::NeedCreate,
                Footprint { config_written: true, ..self.footprint },
            ),
            (Phase::NeedConfig, _) => (
                Phase::RollbackUnmount(ProvisionError::WriteConfig),
                self.footprint,
            ),
            (Phase::NeedCreate, StepOutcome::Exited(Some(0))) => (
                Phase::Complete,
                Footprint { runtime_created: true, ..self.footprint },
            ),
            (Phase::NeedCreate, StepOutcome::Exited(code)) => (
                Phase::RollbackUnmount(ProvisionError::RuntimeCreate(code)),
                self.footprint,
            ),
            (Phase::NeedCreate, StepOutcome::SpawnFailed) => (
                Phase::RollbackUnmount(ProvisionError::RuntimeSpawn),
                self.footprint,
            ),
            (Phase::NeedCreate, _) => (
                Phase::RollbackUnmount(ProvisionError::RuntimeWait),
                self.footprint,
            ),
            (Phase::RollbackUnmount(e), StepOutcome::Succeeded) => (
                Phase::RollbackRemove(e),
                Footprint { mounted: false, ..self.footprint },
            ),
            (Phase::RollbackUnmount(_), _) => (Phase::Fatal, self.footprint),
            (Phase::RollbackRemove(e), StepOutcome::Succeeded) => (
                Phase::Aborted(e),
                Footprint {
                    base_dir: false,
                    subdirs: false,
                    config_written: false,
                    ..self.footprint
                },
            ),
            (Phase::RollbackRemove(_), _) => (Phase::Fatal, self.footprint),
            (p, _) => (p, self.footprint),
        };
        self.phase = p2;
        self.footprint = f2;
    }

    /// Surrender the created container handle once every step succeeded.
    pub fn into_container(self) -> (r: Container)
        requires
            self.spec_phase() is Complete,
        ensures
            r.spec_inst_id() == self.spec_inst_id(),
            r.spec_id() == self.spec_id(),
            r.spec_state() is Created,
    {
        Container { inst_id: self.inst_id, id: self.id, state: RunState::Created, received: Vec::new() }
    }
}

/// The OCI runtime's view of a container's process.
#[derive(Clone, Copy, Debug, PartialEq, Eq, Structural)]
pub enum RunState {
    Created,
    Started,
    Exited(Option<i32>),
}

/// A created container: identity `(instance id, case id)`, its runtime
/// process state, and the input bytes handed to its start operation.
pub struct Container {
    inst_id: String,
    id: String,
    state: RunState,
    received: Vec<u8>,
}

impl Container {
    /// The owning instance id.
    pub closed spec fn spec_inst_id(&self) -> Seq<char> {
        self.inst_id@
    }

    /// The case/container id.
    pub closed spec fn spec_id(&self) -> Seq<char> {
        self.id@
    }

    /// The runtime process state.
    pub closed spec fn spec_state(&self) -> RunState {
        self.state
    }

    /// The input bytes handed to the start operation so far.
    pub closed spec fn spec_received(&self) -> Seq<u8> {
        self.received@
    }

    /// The owning instance id.
    pub fn inst_id(&self) -> (r: &String)
        ensures
            r@ == self.spec_inst_id(),
    {
        &self.inst_id
    }

    /// The case/container id.
    pub fn id(&self) -> (r: &String)
        ensures
            r@ == self.spec_id(),
    {
        &self.id
    }

    /// The runtime process state.
    pub fn state(&self) -> (r: RunState)
        ensures
            r == self.spec_state(),
    {
        self.state
    }

    /// The input bytes handed to the start operation so far.
    pub fn received(&self) -> (r: &Vec<u8>)
        ensures
            r@ == self.spec_received(),
    {
        &self.received
    }

    /// Begin provisioning a container: the returned step machine drives
    /// the five guarded creation steps and any rollback.
    pub fn init(inst_id: String, id: String, diffs: Vec<String>, config: String) -> (r:
        Provisioner)
        ensures
            r.spec_phase() == Phase::NeedBase,
            r.footprint.spec_clean(),
            r.wf(),
            r.spec_inst_id() == inst_id@,
            r.spec_id() == id@,
            r.spec_diffs() == diffs.deep_view(),
            r.spec_config() == config@,
    {
        Provisioner {
            inst_id,
            id,
            diffs,
            config,
            phase: Phase::NeedBase,
            footprint: Footprint {
                base_dir: false,
                subdirs: false,
                mounted: false,
                config_written: false,
                runtime_created: false,
            },
        }
    }

    /// Record the start of the container's process with the given input
    /// bytes forwarded to it.
    pub fn start(&mut self, inputs: &[u8])
        requires
            old(self).spec_state() is Created,
        ensures
            final(self).spec_state() is Started,
            final(self).spec_received() == inputs@,
            final(self).spec_inst_id() == old(self).spec_inst_id(),
            final(self).spec_id() == old(self).spec_id(),
    {
        self.state = RunState::Started;
        self.received = vstd::slice::slice_to_vec(inputs);
    }
}

impl ProvisionError {
    /// The label of each failure, as reported in response frames.
    pub open spec fn spec_describe(&self) -> Seq<char> {
        match self {
            ProvisionError::Dir => "Dir"@,
            ProvisionError::SubDir => "SubDir"@,
            ProvisionError::Mount(_) => "Mount"@,
            ProvisionError::WriteConfig => "WriteConfig"@,
            ProvisionError::RuntimeSpawn => "RuntimeSpawn"@,
            ProvisionError::RuntimeWait => "RuntimeWait"@,
            ProvisionError::RuntimeCreate(_) => "RuntimeCreate"@,
        }
    }

    /// The label of each failure, as reported in response frames.
    pub fn describe(&self) -> (r: String)
        ensures
            r@ == self.spec_describe(),
    {
        match self {
            ProvisionError::Dir => "Dir".to_owned(),
            ProvisionError::SubDir => "SubDir".to_owned(),
            ProvisionError::Mount(_) => "Mount".to_owned(),
            ProvisionError::WriteConfig => "WriteConfig".to_owned(),
            ProvisionError::RuntimeSpawn => "RuntimeSpawn".to_owned(),
            ProvisionError::RuntimeWait => "RuntimeWait".to_owned(),
            ProvisionError::RuntimeCreate(_) => "RuntimeCreate".to_owned(),
        }
    }
}

/// The per-container base directory `/rto/conts/{id}`.
pub open spec fn spec_cont_dir(id: Seq<char>) -> Seq<char> {
    "/rto/conts/"@ + id
}

/// The per-container base directory `/rto/conts/{id}`.
pub fn cont_dir(id: &str) -> (r: String)
    ensures
        r@ == spec_cont_dir(id@),
{
    let mut s = "/rto/conts/".to_owned();
    s.append(id);
    s
}

/// The overlay working directory `/rto/conts/{id}/work`.
pub open spec fn spec_cont_work_dir(id: Seq<char>) -> Seq<char> {
    spec_cont_dir(id) + "/work"@
}

/// The overlay working directory `/rto/conts/{id}/work`.
pub fn cont_work_dir(id: &str) -> (r: String)
    ensures
        r@ == spec_cont_work_dir(id@),
{
    let mut s = cont_dir(id);
    s.append("/work");
    s
}

/// The overlay upper directory `/rto/conts/{id}/top`.
pub open spec fn spec_cont_top_dir(id: Seq<char>) -> Seq<char> {
    spec_cont_dir(id) + "/top"@
}

/// The overlay upper directory `/rto/conts/{id}/top`.
pub fn cont_top_dir(id: &str) -> (r: String)
    ensures
        r@ == spec_cont_top_dir(id@),
{
    let mut s = cont_dir(id);
    s.append("/top");
    s
}

/// The overlay mount point `/rto/conts/{id}/root`.
pub open spec fn spec_cont_root_dir(id: Seq<char>) -> Seq<char> {
    spec_cont_dir(id) + "/root"@
}

/// The overlay mount point `/rto/conts/{id}/root`.
pub fn cont_root_dir(id: &str) -> (r: String)
    ensures
        r@ == spec_cont_root_dir(id@),
{
    let mut s = cont_dir(id);
    s.append("/root");
    s
}

/// The runtime configuration file `/rto/conts/{id}/config.json`.
pub open spec fn spec_cont_config_path(id: Seq<char>) -> Seq<char> {
    spec_cont_dir(id) + "/config.json"@
}

/// The runtime configuration file `/rto/conts/{id}/config.json`.
pub fn cont_config_path(id: &str) -> (r: String)
    ensures
        r@ == spec_cont_config_path(id@),
{
    let mut s = cont_dir(id);
    s.append("/config.json");
    s
}

/// The resolved path of one named diff layer, `/rto/imgs/diffs/{name}`.
pub open spec fn spec_diff_path(name: Seq<char>) -> Seq<char> {
    "/rto/imgs/diffs/"@ + name
}

/// The resolved path of one named diff layer, `/rto/imgs/diffs/{name}`.
pub fn diff_path(name: &str) -> (r: String)
    ensures
        r@ == spec_diff_path(name@),
{
    let mut s = "/rto/imgs/diffs/".to_owned();
    s.append(name);
    s
}

/// The on-disk configuration of a named language,
/// `/rto/imgs/configs/{lang_id}.json`.
pub open spec fn spec_lang_config_path(lang_id: Seq<char>) -> Seq<char> {
    "/rto/imgs/configs/"@ + lang_id + ".json"@
}

/// The on-disk configuration of a named language,
/// `/rto/imgs/configs/{lang_id}.json`.
pub fn lang_config_path(lang_id: &str) -> (r: String)
    ensures
        r@ == spec_lang_config_path(lang_id@),
{
    let mut s = "/rto/imgs/configs/".to_owned();
    s.append(lang_id);
    s.append(".json");
    s
}

/// The name the OCI runtime knows the container by, `rto_{id}`.
pub open spec fn spec_runtime_name(id: Seq<char>) -> Seq<char> {
    "rto_"@ + id
}

/// The name the OCI runtime knows the container by, `rto_{id}`.
pub fn runtime_name(id: &str) -> (r: String)
    ensures
        r@ == spec_runtime_name(id@),
{
    let mut s = "rto_".to_owned();
    s.append(id);
    s
}

/// The overlay `lowerdir=` value: the resolved diff-layer paths joined in
/// list order with `:`. Order is significant: the first listed lower
/// directory has highest precedence in the composed view.
pub open spec fn spec_lowerdir(diffs: Seq<Seq<char>>) -> Seq<char>
    decreases diffs.len(),
{
    if diffs.len() == 0 {
        Seq::empty()
    } else if diffs.len() == 1 {
        spec_diff_path(diffs[0])
    } else {
        spec_lowerdir(diffs.drop_last()) + ":"@ + spec_diff_path(diffs.last())
    }
}

/// The overlay `lowerdir=` value for the given diff-layer names.
pub fn lowerdir_from_diffs(diffs: &Vec<String>) -> (r: String)
    ensures
        r@ == spec_lowerdir(diffs.deep_view()),
{
    let mut lowerdir = String::new();
    let mut i: usize = 0;
    while i < diffs.len()
        invariant
            i <= diffs.len(),
            lowerdir@ == spec_lowerdir(diffs.deep_view().take(i as int)),
        decreases diffs.len() - i,
    {
        if i > 0 {
            lowerdir.append(":");
        }
        lowerdir.append("/rto/imgs/diffs/");
        lowerdir.append(diffs[i].as_str());
        i = i + 1;
        proof {
            let dv = diffs.deep_view();
            assert(dv.take(i as int).drop_last() =~= dv.take(i - 1));
            assert(dv.take(i as int).last() == dv[i - 1]);
            if i == 1 {
                assert(lowerdir@ =~= spec_lowerdir(dv.take(1)));
            } else {
                assert(lowerdir@ =~= spec_lowerdir(dv.take(i as int)));
            }
        }
    }
    proof {
        assert(diffs.deep_view().take(diffs@.len() as int) =~= diffs.deep_view());
    }
    lowerdir
}

/// The full overlay mount option string: lower directories in list order,
/// upper and working directories under the container's base directory,
/// and the volatile flag (no forced sync on unmount).
pub open spec fn spec_mount_options(diffs: Seq<Seq<char>>, id: Seq<char>) -> Seq<char> {
    "lowerdir="@ + spec_lowerdir(diffs) + ",upperdir="@ + spec_cont_top_dir(id) + ",workdir="@
        + spec_cont_work_dir(id) + ",volatile"@
}

/// The full overlay mount option string for this container.
pub fn mount_options(diffs: &Vec<String>, id: &str) -> (r: String)
    ensures
        r@ == spec_mount_options(diffs.deep_view(), id@),
{
    let mut s = "lowerdir=".to_owned();
    let lower = lowerdir_from_diffs(diffs);
    s.append(lower.as_str());
    s.append(",upperdir=");
    let top = cont_top_dir(id);
    s.append(top.as_str());
    s.append(",workdir=");
    let work = cont_work_dir(id);
    s.append(work.as_str());
    s.append(",volatile");
    s
}

/// Provisioning atomicity: however a provisioning run failed, once its
/// rollback has run to completion (the machine reports the error), no
/// container directory, no subdirectory, no mount and no runtime state
/// exists for that container id.
pub proof fn lemma_provision_atomicity(m: Provisioner)
    requires
        m.wf(),
        m.spec_phase() is Aborted,
    ensures
        m.footprint.spec_clean(),
{
}

} // verus!
