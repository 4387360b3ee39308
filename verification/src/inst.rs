//! The instance: one logical host-initiated run, owning one case
//! container per case, with its mode and lifecycle state machine.
//!
//! Lifecycle: `Initializing -> Ready -> Running -> {Finished, Failed}`.
//! An instance becomes Ready only when every case container provisioned;
//! if any provisioning fails, the siblings already provisioned are handed
//! back for teardown and the instance is Failed — a partial instance is
//! never exposed. On start, a MultiCase payload is split into one common
//! byte string and one per-case byte string each, and case `i` receives
//! `common || per_case[i]`.

use vstd::prelude::*;
use crate::container::Container;
use crate::io_bin::ByteCursor;
use crate::io_bin::CodecError;
use crate::io_bin::InputStream;
use crate::io_bin::string_dec;
use crate::io_bin::string_enc;
use crate::staging::Directive;

verus! {

/// The execution mode of an instance: one case, `n` parallel cases, or
/// an interactive terminal (one case).
#[derive(Clone, Copy, Debug, PartialEq, Eq, Structural)]
pub enum Mode {
    SingleCase,
    MultiCase(usize),
    Tty,
}

impl Mode {
    /// How many case containers the mode owns.
    pub open spec fn spec_case_count(self) -> nat {
        match self {
            Mode::MultiCase(n) => n as nat,
            _ => 1,
        }
    }

    /// Whether this mode runs several cases in parallel.
    pub fn is_multi(&self) -> (r: bool)
        ensures
            r == (*self is MultiCase),
    {
        match self {
            Mode::SingleCase => false,
            Mode::MultiCase(_) => true,
            Mode::Tty => false,
        }
    }

    /// How many case containers the mode owns.
    pub fn case_count(&self) -> (r: usize)
        ensures
            r as nat == self.spec_case_count(),
    {
        match self {
            Mode::SingleCase => 1,
            Mode::MultiCase(n) => *n,
            Mode::Tty => 1,
        }
    }
}

/// The host-supplied configuration of an instance: the diff layers its
/// containers are composed from and the staging directive tree to run.
pub struct Config {
    pub diffs: Vec<String>,
    pub staging: Vec<Directive>,
}

/// The lifecycle state of an instance.
#[derive(Clone, Copy, Debug, PartialEq, Eq, Structural)]
pub enum InstState {
    Initializing,
    Ready,
    Running,
    Finished,
    Failed,
}

/// Why a start command was refused.
#[derive(Clone, Copy, Debug, PartialEq, Eq, Structural)]
pub enum StartError {
    /// The instance is not in the Ready state.
    NotReady,
    /// The MultiCase start payload did not parse as one common byte
    /// string followed by one byte string per case.
    Malformed(CodecError),
}

/// Decode `k` length-prefixed byte strings from the front of `s`: the
/// strings and the total bytes consumed.
pub open spec fn spec_strings(s: Seq<u8>, k: nat) -> Option<(Seq<Seq<u8>>, nat)>
    decreases k,
{
    if k == 0 {
        Some((Seq::empty(), 0))
    } else {
        match string_dec(s) {
            None => None,
            Some((b, u)) => match spec_strings(s.skip(u as int), (k - 1) as nat) {
                None => None,
                Some((rest, u2)) => Some((seq![b] + rest, (u + u2) as nat)),
            },
        }
    }
}

/// The per-case start payloads of a MultiCase instance with `n` cases:
/// one common byte string, then one per-case byte string each, consumed
/// in case order; case `i` receives `common || per_case[i]`.
pub open spec fn spec_start_payloads(s: Seq<u8>, n: nat) -> Option<Seq<Seq<u8>>> {
    match string_dec(s) {
        None => None,
        Some((common, u)) => match spec_strings(s.skip(u as int), n) {
            None => None,
            Some((per, _)) => Some(Seq::new(n, |i: int| common + per[i])),
        },
    }
}

/// The concatenated encodings of a list of byte strings, each length
/// prefixed.
pub open spec fn spec_strings_enc(parts: Seq<Seq<u8>>) -> Seq<u8>
    decreases parts.len(),
{
    if parts.len() == 0 {
        Seq::empty()
    } else {
        string_enc(parts[0]) + spec_strings_enc(parts.skip(1))
    }
}

/// Round trip for a run of encoded byte strings: decoding as many
/// strings as were encoded yields them back and consumes exactly their
/// encodings, whatever follows.
pub proof fn lemma_strings_roundtrip(parts: Seq<Seq<u8>>, rest: Seq<u8>)
    ensures
        spec_strings(spec_strings_enc(parts) + rest, parts.len()) == Some(
            (parts, spec_strings_enc(parts).len() as nat),
        ),
    decreases parts.len(),
{
    if parts.len() == 0 {
        assert(spec_strings_enc(parts) + rest =~= rest);
        assert(parts =~= Seq::<Seq<u8>>::empty());
    } else {
        let head = parts[0];
        let tail_enc = spec_strings_enc(parts.skip(1)) + rest;
        let whole = spec_strings_enc(parts) + rest;
        assert(whole =~= string_enc(head) + tail_enc);
        crate::io_bin::lemma_string_roundtrip(head, tail_enc);
        let k0 = string_enc(head).len() as nat;
        assert(whole.skip(k0 as int) =~= tail_enc);
        lemma_strings_roundtrip(parts.skip(1), rest);
        assert(seq![head] + parts.skip(1) =~= parts);
    }
}

/// Round trip for a whole MultiCase start payload: encoding one common
/// byte string and one per-case byte string each, then splitting, gives
/// case `i` exactly `common || per_case[i]`.
pub proof fn lemma_start_payloads_roundtrip(common: Seq<u8>, per: Seq<Seq<u8>>)
    ensures
        spec_start_payloads(string_enc(common) + spec_strings_enc(per), per.len()) == Some(
            Seq::new(per.len(), |i: int| common + per[i]),
        ),
{
    let whole = string_enc(common) + spec_strings_enc(per);
    crate::io_bin::lemma_string_roundtrip(common, spec_strings_enc(per));
    let k = string_enc(common).len() as nat;
    assert(whole.skip(k as int) =~= spec_strings_enc(per) + Seq::<u8>::empty());
    lemma_strings_roundtrip(per, Seq::empty());
}

/// Split a MultiCase start payload into the `n` per-case inputs.
/// Succeeds exactly when the payload parses per `spec_start_payloads`.
pub fn split_start_inputs(inputs: &[u8], n: usize) -> (r: Result<Vec<Vec<u8>>, CodecError>)
    ensures
        match r {
            Ok(v) => spec_start_payloads(inputs@, n as nat) == Some(v.deep_view()) && v@.len()
                == n as nat,
            Err(_) => spec_start_payloads(inputs@, n as nat) is None,
        },
{
    let total = inputs.len();
    proof {
        assert(total as nat == inputs@.len());
    }
    let mut cur = ByteCursor::new(vstd::slice::slice_to_vec(inputs));
    let common = match cur.input_string() {
        Ok(c) => c,
        Err(e) => {
            return Err(e);
        },
    };
    let ghost s1 = cur.inp();
    let ghost u0 = string_dec(inputs@)->Some_0.1;
    proof {
        assert(string_dec(inputs@)->Some_0.0 == common@);
        assert(inputs@.skip(u0 as int) == s1);
    }
    let mut out: Vec<Vec<u8>> = Vec::new();
    let ghost mut pers: Seq<Seq<u8>> = Seq::empty();
    let mut i: usize = 0;
    while i < n
        invariant
            i <= n,
            out@.len() == i,
            pers.len() == i,
            cur.inp().len() <= inputs@.len(),
            inputs@.len() <= usize::MAX,
            string_dec(inputs@) matches Some((c0, u)) && c0 == common@ && u == u0,
            inputs@.skip(u0 as int) == s1,
            forall|j: int| 0 <= j < i ==> (#[trigger] out@[j])@ == common@ + pers[j],
            match spec_strings(cur.inp(), (n - i) as nat) {
                None => spec_strings(s1, n as nat) is None,
                Some((rest, u2)) => spec_strings(s1, n as nat) matches Some((allp, ua)) && allp
                    == pers + rest,
            },
        decreases n - i,
    {
        let ghost prev = cur.inp();
        let per = match cur.input_string() {
            Ok(p) => p,
            Err(e) => {
                proof {
                    assert(string_dec(prev) is None) by {
                        if e is Overflow {
                            assert(prev.len() <= usize::MAX);
                        }
                    }
                    assert(spec_strings(prev, (n - i) as nat) is None);
                }
                return Err(e);
            },
        };
        let mut payload = common.clone();
        proof {
            assert(payload@ =~= common@);
        }
        payload.extend_from_slice(per.as_slice());
        let ghost pv = payload@;
        let ghost out_pre = out@;
        out.push(payload);
        proof {
            let (sv, used) = string_dec(prev)->Some_0;
            assert(cur.inp() == prev.skip(used as int));
            pers = pers.push(per@);
            assert(pv == common@ + per@);
            assert forall|j: int| 0 <= j < i + 1 implies (#[trigger] out@[j])@ == common@
                + pers[j] by {
                if j < i {
                    assert(out@[j] == out_pre[j]);
                    assert(pers[j] == pers.drop_last()[j]);
                } else {
                    assert(out@[j]@ == pv);
                }
            }
            match spec_strings(prev, (n - i) as nat) {
                Some((rest, u2)) => {
                    let (rest2, u3) = spec_strings(cur.inp(), (n - i - 1) as nat)->Some_0;
                    assert(rest == seq![per@] + rest2);
                    assert(pers.drop_last() + (seq![per@] + rest2) =~= pers + rest2);
                },
                None => {},
            }
        }
        i = i + 1;
    }
    proof {
        assert(spec_strings(cur.inp(), 0) == Some((Seq::<Seq<u8>>::empty(), 0nat)));
        assert(pers + Seq::<Seq<u8>>::empty() =~= pers);
        assert(spec_strings(s1, n as nat) matches Some((allp, ua)) && allp == pers);
        let pays = spec_start_payloads(inputs@, n as nat)->Some_0;
        assert(out.deep_view().len() == n as nat);
        assert forall|j: int| 0 <= j < n implies out.deep_view()[j] == pays[j] by {
            assert(out.deep_view()[j] == out@[j]@);
            assert(pays[j] == common@ + pers[j]);
        }
        assert(pays =~= out.deep_view());
    }
    Ok(out)
}

/// One logical host request: its id, configuration, mode, lifecycle
/// state, and the case containers it owns.
pub struct Inst {
    pub id: String,
    pub config: Config,
    pub mode: Mode,
    pub state: InstState,
    pub conts: Vec<Container>,
}

impl Inst {
    /// The instance invariant: once Ready (and from then on, while
    /// Running or Finished), it owns exactly one container per case, and
    /// every container belongs to it.
    pub open spec fn wf(&self) -> bool {
        &&& (self.state is Ready || self.state is Running || self.state is Finished)
            ==> self.conts@.len() == self.mode.spec_case_count()
        &&& self.state is Initializing ==> self.conts@.len() <= self.mode.spec_case_count()
        &&& forall|j: int|
            0 <= j < self.conts@.len() ==> (#[trigger] self.conts@[j]).spec_inst_id() == self.id@
    }
}

/// The host-facing handle of one instance. In the agent process this sits
/// behind the dispatcher's registry with one lock per instance; the
/// state machine itself is single-owner.
pub struct InstFront {
    pub inner: Inst,
}

impl InstFront {
    /// Create the instance in its Initializing state, before any of its
    /// containers exist.
    pub fn init(id: String, config: Config, mode: Mode) -> (r: InstFront)
        ensures
            r.inner.wf(),
            r.inner.state is Initializing,
            r.inner.conts@.len() == 0,
            r.inner.id@ == id@,
            r.inner.config == config,
            r.inner.mode == mode,
    {
        InstFront { inner: Inst { id, config, mode, state: InstState::Initializing, conts: Vec::new() } }
    }

    /// Adopt one freshly provisioned case container, in case order.
    pub fn add_container(&mut self, c: Container)
        requires
            old(self).inner.wf(),
            old(self).inner.state is Initializing,
            old(self).inner.conts@.len() < old(self).inner.mode.spec_case_count(),
            c.spec_inst_id() == old(self).inner.id@,
        ensures
            final(self).inner.wf(),
            final(self).inner.state is Initializing,
            final(self).inner.conts@ == old(self).inner.conts@.push(c),
            final(self).inner.id@ == old(self).inner.id@,
            final(self).inner.config == old(self).inner.config,
            final(self).inner.mode == old(self).inner.mode,
    {
        self.inner.conts.push(c);
    }

    /// All case containers provisioned: the instance becomes Ready.
    pub fn complete_provisioning(&mut self)
        requires
            old(self).inner.wf(),
            old(self).inner.state is Initializing,
            old(self).inner.conts@.len() == old(self).inner.mode.spec_case_count(),
        ensures
            final(self).inner.wf(),
            final(self).inner.state is Ready,
            final(self).inner.conts@ == old(self).inner.conts@,
            final(self).inner.id@ == old(self).inner.id@,
            final(self).inner.config == old(self).inner.config,
            final(self).inner.mode == old(self).inner.mode,
    {
        self.inner.state = InstState::Ready;
    }

    /// A container failed to provision: the instance is Failed and every
    /// sibling already provisioned is handed back, to be torn down in
    /// reverse creation order. A partial instance is never exposed.
    pub fn abort_provisioning(&mut self) -> (r: Vec<Container>)
        requires
            old(self).inner.wf(),
            old(self).inner.state is Initializing,
        ensures
            final(self).inner.wf(),
            final(self).inner.state is Failed,
            final(self).inner.conts@.len() == 0,
            final(self).inner.id@ == old(self).inner.id@,
            final(self).inner.config == old(self).inner.config,
            final(self).inner.mode == old(self).inner.mode,
            r@ == old(self).inner.conts@,
    {
        self.inner.state = InstState::Failed;
        let out = self.inner.conts.split_off(0);
        proof {
            assert(out@ =~= old(self).inner.conts@);
            assert(self.inner.conts@ =~= Seq::<Container>::empty());
        }
        out
    }

    /// Accept a start command: forward the input bytes to the single
    /// container verbatim, or split a MultiCase payload into one common
    /// and one per-case byte string each, case `i` receiving
    /// `common || per_case[i]`. Succeeds exactly on a Ready instance
    /// whose payload parses; the instance is then Running and every
    /// container started with its input.
    pub fn start(&mut self, inputs: &[u8]) -> (r: Result<(), StartError>)
        requires
            old(self).inner.wf(),
            old(self).inner.state is Ready ==> forall|j: int|
                0 <= j < old(self).inner.conts@.len() ==> (#[trigger] old(
                    self,
                ).inner.conts@[j]).spec_state() is Created,
        ensures
            final(self).inner.wf(),
            final(self).inner.id@ == old(self).inner.id@,
            final(self).inner.config == old(self).inner.config,
            final(self).inner.mode == old(self).inner.mode,
            final(self).inner.conts@.len() == old(self).inner.conts@.len(),
            match r {
                Ok(()) => {
                    &&& old(self).inner.state is Ready
                    &&& final(self).inner.state is Running
                    &&& match old(self).inner.mode {
                        Mode::MultiCase(n) => {
                            &&& spec_start_payloads(inputs@, n as nat) is Some
                            &&& forall|j: int|
                                0 <= j < final(self).inner.conts@.len() ==> {
                                    &&& (#[trigger] final(self).inner.conts@[j]).spec_state()
                                        is Started
                                    &&& final(self).inner.conts@[j].spec_received()
                                        == spec_start_payloads(inputs@, n as nat)->Some_0[j]
                                }
                        },
                        _ => final(self).inner.conts@[0].spec_state() is Started
                            && final(self).inner.conts@[0].spec_received() == inputs@,
                    }
                },
                Err(StartError::NotReady) => !(old(self).inner.state is Ready) && final(self).inner
                    == old(self).inner,
                Err(StartError::Malformed(_)) => {
                    &&& old(self).inner.state is Ready
                    &&& old(self).inner.mode is MultiCase
                    &&& spec_start_payloads(
                        inputs@,
                        old(self).inner.mode.spec_case_count(),
                    ) is None
                    &&& final(self).inner == old(self).inner
                },
            },
    {
        if !matches!(self.inner.state, InstState::Ready) {
            return Err(StartError::NotReady);
        }
        match self.inner.mode {
            Mode::SingleCase | Mode::Tty => {
                let mut c = self.inner.conts.remove(0);
                c.start(inputs);
                self.inner.conts.insert(0, c);
                self.inner.state = InstState::Running;
                proof {
                    assert(self.inner.conts@[0].spec_state() is Started);
                }
                Ok(())
            },
            Mode::MultiCase(n) => {
                let payloads = match split_start_inputs(inputs, n) {
                    Ok(p) => p,
                    Err(e) => {
                        return Err(StartError::Malformed(e));
                    },
                };
                let ghost pays = spec_start_payloads(inputs@, n as nat)->Some_0;
                let mut i: usize = 0;
                while i < n
                    invariant
                        i <= n,
                        n == self.inner.mode.spec_case_count(),
                        self.inner.mode == old(self).inner.mode,
                        self.inner.id@ == old(self).inner.id@,
                        self.inner.state == old(self).inner.state,
                        self.inner.config == old(self).inner.config,
                        self.inner.conts@.len() == n,
                        payloads.deep_view() == pays,
                        payloads@.len() == n,
                        forall|j: int|
                            0 <= j < self.inner.conts@.len() ==> (#[trigger] self.inner.conts@[j]).spec_inst_id()
                                == self.inner.id@,
                        forall|j: int|
                            0 <= j < i ==> (#[trigger] self.inner.conts@[j]).spec_state()
                                is Started && self.inner.conts@[j].spec_received() == pays[j],
                        forall|j: int|
                            i <= j < n ==> (#[trigger] self.inner.conts@[j]).spec_state()
                                is Created,
                    decreases n - i,
                {
                    let mut c = self.inner.conts.remove(i);
                    c.start(payloads[i].as_slice());
                    proof {
                        assert(payloads@[i as int]@ == payloads.deep_view()[i as int]);
                    }
                    self.inner.conts.insert(i, c);
                    i = i + 1;
                }
                self.inner.state = InstState::Running;
                Ok(())
            },
        }
    }

    /// Record the staging engine's outcome: the run ends Finished exactly
    /// when the directive tree completed without a non-recoverable
    /// failure, and Failed otherwise. Both are terminal.
    pub fn record_outcome(&mut self, failed: bool)
        requires
            old(self).inner.wf(),
            old(self).inner.state is Running,
        ensures
            final(self).inner.wf(),
            final(self).inner.state == if failed {
                InstState::Failed
            } else {
                InstState::Finished
            },
            final(self).inner.conts@ == old(self).inner.conts@,
            final(self).inner.id@ == old(self).inner.id@,
            final(self).inner.config == old(self).inner.config,
            final(self).inner.mode == old(self).inner.mode,
    {
        if failed {
            self.inner.state = InstState::Failed;
        } else {
            self.inner.state = InstState::Finished;
        }
    }

    /// The staging tree completed without a fatal directive failure.
    pub fn mark_finished(&mut self)
        requires
            old(self).inner.wf(),
            old(self).inner.state is Running,
        ensures
            final(self).inner.wf(),
            final(self).inner.state is Finished,
            final(self).inner.conts@ == old(self).inner.conts@,
            final(self).inner.id@ == old(self).inner.id@,
            final(self).inner.config == old(self).inner.config,
            final(self).inner.mode == old(self).inner.mode,
    {
        self.inner.state = InstState::Finished;
    }

    /// A non-recoverable directive failure or exit-code violation: the
    /// instance is Failed (terminal; cleanup runs once on entry).
    pub fn mark_failed(&mut self)
        requires
            old(self).inner.wf(),
            old(self).inner.state is Running,
        ensures
            final(self).inner.wf(),
            final(self).inner.state is Failed,
            final(self).inner.conts@ == old(self).inner.conts@,
            final(self).inner.id@ == old(self).inner.id@,
            final(self).inner.config == old(self).inner.config,
            final(self).inner.mode == old(self).inner.mode,
    {
        self.inner.state = InstState::Failed;
    }
}

/// The mode/case invariant: a Ready (or Running, or Finished) instance
/// owns exactly `n` containers under `MultiCase(n)` and exactly one under
/// `SingleCase` or `Tty`.
pub proof fn lemma_mode_case_invariant(inst: Inst)
    requires
        inst.wf(),
        inst.state is Ready || inst.state is Running || inst.state is Finished,
    ensures
        inst.conts@.len() == inst.mode.spec_case_count(),
        inst.mode is MultiCase ==> inst.conts@.len() == inst.mode->MultiCase_0,
        !(inst.mode is MultiCase) ==> inst.conts@.len() == 1,
{
}

} // verus!
