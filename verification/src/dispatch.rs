//! The host command surface: framed command decoding, framed response
//! encoding, and the registry of live instances.
//!
//! Commands arrive as an opcode byte followed by framed arguments; any
//! unrecognized opcode, unknown mode byte or malformed frame is a fatal
//! protocol violation — the host is a trusted, contract-bound peer and
//! the agent terminates rather than recover.

use vstd::prelude::*;
use std::collections::HashMap;
use crate::inst::InstFront;
use crate::inst::Mode;
use crate::io_bin::CodecError;
use crate::io_bin::InputStream;
use crate::io_bin::string_dec;
use crate::io_bin::varint_dec;

verus! {

/// One decoded host command.
#[derive(Debug, PartialEq, Eq)]
pub enum Command {
    /// Create an instance from the named on-disk language configuration.
    CreateFromLang { lang_id: Vec<u8>, mode: Mode },
    /// Create an instance from an inline configuration document.
    CreateInline { config_json: Vec<u8>, mode: Mode },
    /// Start the instance with the framed input bytes.
    StartInst { instance_id: u64, inputs: Vec<u8> },
    /// Feed input bytes to a stream of a running instance.
    FeedInput { instance_id: u64, stream_index: u64, data: Vec<u8> },
    /// Stop the instance and tear its containers down.
    StopInst { instance_id: u64 },
}

/// Why command decoding aborted. Every variant is a fatal protocol
/// violation.
#[derive(Clone, Copy, Debug, PartialEq, Eq, Structural)]
pub enum ProtocolError {
    /// The channel ended or an integer overflowed mid-frame.
    Malformed(CodecError),
    /// The first byte is not a known opcode.
    BadOpcode(u8),
    /// The byte after a create command is not a known mode.
    BadMode(u8),
}

/// The mode encoding of the create commands: `0x00` single case, `0x01`
/// followed by the case count, `0x02` interactive terminal.
pub open spec fn spec_mode_dec(s: Seq<u8>) -> Option<(Mode, nat)> {
    if s.len() == 0 {
        None
    } else if s[0] == 0x00 {
        Some((Mode::SingleCase, 1))
    } else if s[0] == 0x02 {
        Some((Mode::Tty, 1))
    } else if s[0] == 0x01 {
        match varint_dec(s.skip(1)) {
            Some((n, k)) => if n <= usize::MAX {
                Some((Mode::MultiCase(n as usize), (1 + k) as nat))
            } else {
                None
            },
            None => None,
        }
    } else {
        None
    }
}

/// A byte string frame heads `s` and its length fits the platform
/// width: the decoded bytes and the total bytes consumed.
pub open spec fn string_dec_fit(s: Seq<u8>) -> Option<(Seq<u8>, nat)> {
    match string_dec(s) {
        Some((b, k)) => if b.len() <= usize::MAX {
            Some((b, k))
        } else {
            None
        },
        None => None,
    }
}

/// A variable-length integer heads `s` and its value fits the platform
/// width: the value and the bytes consumed.
pub open spec fn varint_dec_fit(s: Seq<u8>) -> Option<(nat, nat)> {
    match varint_dec(s) {
        Some((v, k)) => if v <= usize::MAX {
            Some((v, k))
        } else {
            None
        },
        None => None,
    }
}

/// How many bytes one complete, well-formed command frame at the head
/// of `s` occupies; `None` when no such frame heads `s` — the opcode is
/// unknown, a frame is cut short, or a count does not fit the platform
/// width. Decoding succeeds exactly when this is `Some`.
pub open spec fn spec_command_dec(s: Seq<u8>) -> Option<nat> {
    if s.len() == 0 {
        None
    } else if s[0] == 0x00 || s[0] == 0x01 {
        match string_dec_fit(s.skip(1)) {
            None => None,
            Some((_, k1)) => match spec_mode_dec(s.skip(1 + k1 as int)) {
                None => None,
                Some((_, k2)) => Some((1 + k1 + k2) as nat),
            },
        }
    } else if s[0] == 0x10 {
        match varint_dec_fit(s.skip(1)) {
            None => None,
            Some((_, k1)) => match string_dec_fit(s.skip(1 + k1 as int)) {
                None => None,
                Some((_, k2)) => Some((1 + k1 + k2) as nat),
            },
        }
    } else if s[0] == 0x11 {
        match varint_dec_fit(s.skip(1)) {
            None => None,
            Some((_, k1)) => match varint_dec_fit(s.skip(1 + k1 as int)) {
                None => None,
                Some((_, k2)) => match string_dec_fit(s.skip(1 + k1 as int + k2 as int)) {
                    None => None,
                    Some((_, k3)) => Some((1 + k1 + k2 + k3) as nat),
                },
            },
        }
    } else if s[0] == 0x12 {
        match varint_dec_fit(s.skip(1)) {
            None => None,
            Some((_, k1)) => Some((1 + k1) as nat),
        }
    } else {
        None
    }
}

/// Read the mode byte (and case count, for the multi-case mode).
fn read_mode<T: InputStream>(s: &mut T) -> (r: Result<Mode, ProtocolError>)
    ensures
        match r {
            Ok(m) => spec_mode_dec(old(s).inp()) matches Some((m2, k)) && m2 == m && k <= old(
                s,
            ).inp().len() && final(s).inp() == old(s).inp().skip(k as int),
            Err(e) => !(e is BadOpcode) && spec_mode_dec(old(s).inp()) is None,
        },
{
    let b = match s.input_byte() {
        Ok(b) => b,
        Err(e) => {
            return Err(ProtocolError::Malformed(e));
        },
    };
    match b {
        0x00 => Ok(Mode::SingleCase),
        0x02 => Ok(Mode::Tty),
        0x01 => {
            let n = match s.input_size() {
                Ok(n) => n,
                Err(e) => {
                    return Err(ProtocolError::Malformed(e));
                },
            };
            proof {
                let tail = old(s).inp().skip(1);
                crate::io_bin::lemma_dec_count_bound(tail, 0);
                let k = varint_dec(tail)->Some_0.1;
                assert(s.inp() =~= old(s).inp().skip(1 + k as int));
            }
            Ok(Mode::MultiCase(n))
        },
        _ => Err(ProtocolError::BadMode(b)),
    }
}

/// Read one varint whose value must fit an instance id.
fn read_id<T: InputStream>(s: &mut T) -> (r: Result<u64, ProtocolError>)
    ensures
        match r {
            Ok(id) => varint_dec(old(s).inp()) matches Some((v, k)) && v == id as nat && v
                <= usize::MAX && k <= old(s).inp().len() && final(s).inp() == old(s).inp().skip(
                k as int,
            ),
            Err(e) => e is Malformed && varint_dec_fit(old(s).inp()) is None,
        },
{
    match s.input_size() {
        Ok(n) => {
            proof {
                crate::io_bin::lemma_dec_count_bound(old(s).inp(), 0);
            }
            Ok(n as u64)
        },
        Err(e) => Err(ProtocolError::Malformed(e)),
    }
}

/// When a byte string's declared length does not fit the platform
/// width, no fitting string frame heads `s`.
proof fn lemma_string_unfit(s: Seq<u8>)
    requires
        !(varint_dec(s) matches Some((v, k)) && v <= usize::MAX),
    ensures
        string_dec_fit(s) is None,
{
    match string_dec(s) {
        Some((b, k)) => {
            let (n, kv) = varint_dec(s)->Some_0;
            assert(b.len() == n);
        },
        None => {},
    }
}

/// Decode one framed host command from the channel. On success the
/// command's fields are exactly the framed arguments that followed the
/// opcode byte, and the channel has advanced past them. Decoding
/// returns a command exactly when a complete well-formed frame heads
/// the channel (`spec_command_dec`).
pub fn read_command<T: InputStream>(s: &mut T) -> (r: Result<Command, ProtocolError>)
    ensures
        ({
            let s0 = old(s).inp();
            match r {
                Ok(cmd) => s0.len() > 0 && match cmd {
                    Command::CreateFromLang { lang_id, mode } => {
                        &&& s0[0] == 0x00
                        &&& string_dec(s0.skip(1)) matches Some((lv, k1)) && lv == lang_id@ && (
                        spec_mode_dec(s0.skip(1 + k1 as int)) matches Some((m2, k2)) && m2 == mode
                            && final(s).inp() == s0.skip(1 + k1 as int + k2 as int))
                    },
                    Command::CreateInline { config_json, mode } => {
                        &&& s0[0] == 0x01
                        &&& string_dec(s0.skip(1)) matches Some((cv, k1)) && cv == config_json@
                            && (spec_mode_dec(s0.skip(1 + k1 as int)) matches Some((m2, k2)) && m2
                            == mode && final(s).inp() == s0.skip(1 + k1 as int + k2 as int))
                    },
                    Command::StartInst { instance_id, inputs } => {
                        &&& s0[0] == 0x10
                        &&& varint_dec(s0.skip(1)) matches Some((v, k1)) && v == instance_id as nat
                            && (string_dec(s0.skip(1 + k1 as int)) matches Some((iv, k2)) && iv
                            == inputs@ && final(s).inp() == s0.skip(1 + k1 as int + k2 as int))
                    },
                    Command::FeedInput { instance_id, stream_index, data } => {
                        &&& s0[0] == 0x11
                        &&& varint_dec(s0.skip(1)) matches Some((v, k1)) && v == instance_id as nat
                            && (varint_dec(s0.skip(1 + k1 as int)) matches Some((w, k2)) && w
                            == stream_index as nat && (string_dec(
                            s0.skip(1 + k1 as int + k2 as int),
                        ) matches Some((dv, k3)) && dv == data@ && final(s).inp() == s0.skip(
                            1 + k1 as int + k2 as int + k3 as int,
                        )))
                    },
                    Command::StopInst { instance_id } => {
                        &&& s0[0] == 0x12
                        &&& varint_dec(s0.skip(1)) matches Some((v, k1)) && v == instance_id as nat
                            && final(s).inp() == s0.skip(1 + k1 as int)
                    },
                },
                Err(ProtocolError::BadOpcode(b)) => s0.len() > 0 && s0[0] == b && b != 0x00 && b
                    != 0x01 && b != 0x10 && b != 0x11 && b != 0x12,
                Err(_) => true,
            }
        }),
        r is Ok ==> spec_command_dec(old(s).inp()) is Some,
        r is Err ==> spec_command_dec(old(s).inp()) is None,
{
    let op = match s.input_byte() {
        Ok(b) => b,
        Err(e) => {
            return Err(ProtocolError::Malformed(e));
        },
    };
    match op {
        0x00 | 0x01 => {
            let payload = match s.input_string() {
                Ok(p) => p,
                Err(e) => {
                    proof {
                        if e is Overflow {
                            lemma_string_unfit(old(s).inp().skip(1));
                        }
                    }
                    return Err(ProtocolError::Malformed(e));
                },
            };
            let payload_len = payload.len();
            proof {
                assert(payload@.len() == payload_len as nat);
            }
            let ghost s_mid = s.inp();
            let mode = match read_mode(s) {
                Ok(m) => m,
                Err(e) => {
                    proof {
                        let s0 = old(s).inp();
                        let (lv, k1) = string_dec(s0.skip(1))->Some_0;
                        assert(s_mid =~= s0.skip(1 + k1 as int));
                    }
                    return Err(e);
                },
            };
            proof {
                let s0 = old(s).inp();
                let (lv, k1) = string_dec(s0.skip(1))->Some_0;
                assert(s_mid =~= s0.skip(1 + k1 as int));
                let (m2, k2) = spec_mode_dec(s_mid)->Some_0;
                assert(s_mid.skip(k2 as int) =~= s0.skip(1 + k1 as int + k2 as int));
            }
            if op == 0x00 {
                Ok(Command::CreateFromLang { lang_id: payload, mode })
            } else {
                Ok(Command::CreateInline { config_json: payload, mode })
            }
        },
        0x10 => {
            let instance_id = match read_id(s) {
                Ok(i) => i,
                Err(e) => {
                    return Err(e);
                },
            };
            let ghost s_mid = s.inp();
            let inputs = match s.input_string() {
                Ok(p) => p,
                Err(e) => {
                    proof {
                        let s0 = old(s).inp();
                        let (v, k1) = varint_dec(s0.skip(1))->Some_0;
                        assert(s_mid =~= s0.skip(1 + k1 as int));
                        if e is Overflow {
                            lemma_string_unfit(s_mid);
                        }
                    }
                    return Err(ProtocolError::Malformed(e));
                },
            };
            let inputs_len = inputs.len();
            proof {
                assert(inputs@.len() == inputs_len as nat);
                let s0 = old(s).inp();
                let (v, k1) = varint_dec(s0.skip(1))->Some_0;
                assert(s_mid =~= s0.skip(1 + k1 as int));
                let (iv, k2) = string_dec(s_mid)->Some_0;
                assert(s_mid.skip(k2 as int) =~= s0.skip(1 + k1 as int + k2 as int));
            }
            Ok(Command::StartInst { instance_id, inputs })
        },
        0x11 => {
            let instance_id = match read_id(s) {
                Ok(i) => i,
                Err(e) => {
                    return Err(e);
                },
            };
            let ghost s_a = s.inp();
            let stream_index = match read_id(s) {
                Ok(i) => i,
                Err(e) => {
                    proof {
                        let s0 = old(s).inp();
                        let (v, k1) = varint_dec(s0.skip(1))->Some_0;
                        assert(s_a =~= s0.skip(1 + k1 as int));
                    }
                    return Err(e);
                },
            };
            let ghost s_b = s.inp();
            let data = match s.input_string() {
                Ok(p) => p,
                Err(e) => {
                    proof {
                        let s0 = old(s).inp();
                        let (v, k1) = varint_dec(s0.skip(1))->Some_0;
                        assert(s_a =~= s0.skip(1 + k1 as int));
                        let (w, k2) = varint_dec(s_a)->Some_0;
                        assert(s_b =~= s0.skip(1 + k1 as int + k2 as int));
                        if e is Overflow {
                            lemma_string_unfit(s_b);
                        }
                    }
                    return Err(ProtocolError::Malformed(e));
                },
            };
            let data_len = data.len();
            proof {
                assert(data@.len() == data_len as nat);
                let s0 = old(s).inp();
                let (v, k1) = varint_dec(s0.skip(1))->Some_0;
                assert(s_a =~= s0.skip(1 + k1 as int));
                let (w, k2) = varint_dec(s_a)->Some_0;
                assert(s_b =~= s0.skip(1 + k1 as int + k2 as int));
                let (dv, k3) = string_dec(s_b)->Some_0;
                assert(s_b.skip(k3 as int) =~= s0.skip(1 + k1 as int + k2 as int + k3 as int));
            }
            Ok(Command::FeedInput { instance_id, stream_index, data })
        },
        0x12 => {
            let instance_id = match read_id(s) {
                Ok(i) => i,
                Err(e) => {
                    return Err(e);
                },
            };
            Ok(Command::StopInst { instance_id })
        },
        _ => Err(ProtocolError::BadOpcode(op)),
    }
}

/// The eight bytes of `x` in big-endian order.
pub open spec fn spec_be_bytes(x: u64) -> Seq<u8> {
    seq![
        (x / 0x100000000000000) as u8,
        ((x / 0x1000000000000) % 0x100) as u8,
        ((x / 0x10000000000) % 0x100) as u8,
        ((x / 0x100000000) % 0x100) as u8,
        ((x / 0x1000000) % 0x100) as u8,
        ((x / 0x10000) % 0x100) as u8,
        ((x / 0x100) % 0x100) as u8,
        (x % 0x100) as u8,
    ]
}

/// The eight bytes of `x` in big-endian order.
pub fn be_bytes(x: u64) -> (r: Vec<u8>)
    ensures
        r@ == spec_be_bytes(x),
{
    let mut out: Vec<u8> = Vec::new();
    out.push((x / 0x100000000000000) as u8);
    out.push(((x / 0x1000000000000) % 0x100) as u8);
    out.push(((x / 0x10000000000) % 0x100) as u8);
    out.push(((x / 0x100000000) % 0x100) as u8);
    out.push(((x / 0x1000000) % 0x100) as u8);
    out.push(((x / 0x10000) % 0x100) as u8);
    out.push(((x / 0x100) % 0x100) as u8);
    out.push((x % 0x100) as u8);
    proof {
        assert(out@ =~= spec_be_bytes(x));
    }
    out
}

/// The response frame for a successful instance creation:
/// `0x80 0x00` then the instance id in big-endian bytes.
pub fn create_ok_response(instance_id: u64) -> (r: Vec<u8>)
    ensures
        r@ == seq![0x80u8, 0x00u8] + spec_be_bytes(instance_id),
{
    let mut out: Vec<u8> = Vec::new();
    out.push(0x80);
    out.push(0x00);
    let id = be_bytes(instance_id);
    out.extend_from_slice(id.as_slice());
    proof {
        assert(out@ =~= seq![0x80u8, 0x00u8] + spec_be_bytes(instance_id));
    }
    out
}

/// The response frame for a failed instance creation: `0x80 0x01`, the
/// instance id in big-endian bytes, then the error text in UTF-8.
pub fn create_err_response(instance_id: u64, text: &[u8]) -> (r: Vec<u8>)
    ensures
        r@ == seq![0x80u8, 0x01u8] + spec_be_bytes(instance_id) + text@,
{
    let mut out: Vec<u8> = Vec::new();
    out.push(0x80);
    out.push(0x01);
    let id = be_bytes(instance_id);
    out.extend_from_slice(id.as_slice());
    out.extend_from_slice(text);
    proof {
        assert(out@ =~= seq![0x80u8, 0x01u8] + spec_be_bytes(instance_id) + text@);
    }
    out
}

/// The response frame for start completion: `0x81`, a success byte, the
/// instance id in big-endian bytes, then any error text in UTF-8.
pub fn start_response(instance_id: u64, success: bool, text: &[u8]) -> (r: Vec<u8>)
    ensures
        r@ == seq![0x81u8, (if success { 0x00u8 } else { 0x01u8 })] + spec_be_bytes(instance_id)
            + text@,
{
    let mut out: Vec<u8> = Vec::new();
    out.push(0x81);
    out.push(if success { 0x00 } else { 0x01 });
    let id = be_bytes(instance_id);
    out.extend_from_slice(id.as_slice());
    out.extend_from_slice(text);
    proof {
        assert(out@ =~= seq![0x81u8, (if success { 0x00u8 } else { 0x01u8 })] + spec_be_bytes(
            instance_id,
        ) + text@);
    }
    out
}

/// Relies on rand::random: a value drawn from the thread-local
/// generator's standard distribution; nothing is promised of it.
pub assume_specification<T>[ rand::random::<T> ]() -> (r: T)
    where
        rand::distributions::Standard: rand::distributions::Distribution<T>,
;

/// The dispatcher's registry of live instances, keyed by instance id.
/// Shared across all instances under one lock, held only for insert,
/// lookup and remove.
pub struct Registry {
    pub insts: HashMap<u64, InstFront>,
}

impl Registry {
    /// An empty registry.
    pub fn new() -> (r: Registry)
        ensures
            r.insts@ == Map::<u64, InstFront>::empty(),
    {
        Registry { insts: HashMap::new() }
    }

    /// Draw random candidate ids until one is unused, giving up (with
    /// `None`) after `attempts` collisions rather than looping forever.
    /// On an empty registry the first draw cannot collide, so one
    /// attempt suffices.
    pub fn random_inst_id(&self, attempts: usize) -> (r: Option<u64>)
        ensures
            match r {
                Some(id) => !self.insts@.contains_key(id),
                None => true,
            },
            (attempts > 0 && self.insts@ == Map::<u64, InstFront>::empty()) ==> r is Some,
    {
        let mut left = attempts;
        while left > 0
            invariant
                self.insts@ == Map::<u64, InstFront>::empty() ==> left == attempts,
            decreases left,
        {
            let id = rand::random::<u64>();
            if !self.insts.contains_key(&id) {
                return Some(id);
            }
            proof {
                assert(self.insts@.dom().contains(id));
                assert(self.insts@ != Map::<u64, InstFront>::empty());
            }
            left = left - 1;
        }
        None
    }

    /// Register a created instance under its id.
    pub fn insert(&mut self, id: u64, inst: InstFront)
        ensures
            final(self).insts@ == old(self).insts@.insert(id, inst),
    {
        self.insts.insert(id, inst);
    }

    /// Remove (to stop) the instance with this id.
    pub fn remove(&mut self, id: u64) -> (r: Option<InstFront>)
        ensures
            final(self).insts@ == old(self).insts@.remove(id),
            r is Some <==> old(self).insts@.contains_key(id),
    {
        self.insts.remove(&id)
    }
}

} // verus!
