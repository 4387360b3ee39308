//! Binary framing codec for the host/agent byte channel.
//!
//! Three primitives travel over the ordered byte channel: single bytes
//! (opcodes and tags), variable-length unsigned integers, and byte strings
//! prefixed by their length as a variable-length integer.
//!
//! A variable-length integer is a sequence of 7-bit groups, most
//! significant group first; every byte but the last has its high bit set.
//! Decoding accumulates `value = value * 128 + (byte % 128)` and stops
//! after the first byte whose high bit is clear.

use vstd::prelude::*;

verus! {

/// Why a codec operation failed: the channel ran short (or closed), or a
/// decoded integer does not fit the platform's integer width.
#[derive(Clone, Copy, Debug, PartialEq, Eq, Structural)]
pub enum CodecError {
    Truncated,
    Overflow,
}

/// 128 raised to `k`; the weight of a 7-bit group `k` places from the end.
pub open spec fn pow128(k: nat) -> nat
    decreases k,
{
    if k == 0 {
        1
    } else {
        128 * pow128((k - 1) as nat)
    }
}

/// Decode a variable-length integer from the front of `s`, with `acc`
/// already accumulated from earlier groups. Returns the decoded value and
/// the number of bytes consumed, or `None` if `s` ends before a byte with
/// a clear high bit.
pub open spec fn varint_dec_from(s: Seq<u8>, acc: nat) -> Option<(nat, nat)>
    decreases s.len(),
{
    if s.len() == 0 {
        None
    } else {
        let v = acc * 128 + (s[0] % 128) as nat;
        if s[0] < 128 {
            Some((v, 1))
        } else {
            match varint_dec_from(s.skip(1), v) {
                None => None,
                Some((value, used)) => Some((value, (used + 1) as nat)),
            }
        }
    }
}

/// Decode a variable-length integer from the front of `s`: the value and
/// the number of bytes consumed.
pub open spec fn varint_dec(s: Seq<u8>) -> Option<(nat, nat)> {
    varint_dec_from(s, 0)
}

/// The continuation-marked groups (high bit set) that precede the final
/// group in the encoding of an integer. Empty for `n == 0`.
pub open spec fn varint_groups(n: nat) -> Seq<u8>
    decreases n,
{
    if n == 0 {
        Seq::empty()
    } else {
        varint_groups(n / 128) + seq![(128 + n % 128) as u8]
    }
}

/// The encoding of `n`: its leading continuation groups followed by the
/// final group with a clear high bit. The encoding of `0` is one zero byte.
pub open spec fn varint_enc(n: nat) -> Seq<u8> {
    varint_groups(n / 128) + seq![(n % 128) as u8]
}

/// Decode a length-prefixed byte string from the front of `s`: the string
/// and the total number of bytes consumed.
pub open spec fn string_dec(s: Seq<u8>) -> Option<(Seq<u8>, nat)> {
    match varint_dec(s) {
        None => None,
        Some((n, k)) => if k + n <= s.len() {
            Some((s.subrange(k as int, (k + n) as int), (k + n) as nat))
        } else {
            None
        },
    }
}

/// The encoding of a byte string: its length as a variable-length integer,
/// then the bytes themselves.
pub open spec fn string_enc(s: Seq<u8>) -> Seq<u8> {
    varint_enc(s.len()) + s
}

/// Walking the continuation groups of `m` multiplies the accumulator by
/// the weight of those groups and adds `m`, then decoding continues on the
/// remaining bytes.
proof fn lemma_dec_groups(m: nat, tail: Seq<u8>, acc: nat)
    ensures
        varint_dec_from(varint_groups(m) + tail, acc) == match varint_dec_from(
            tail,
            acc * pow128(varint_groups(m).len() as nat) + m,
        ) {
            None => None::<(nat, nat)>,
            Some((v, k)) => Some((v, (k + varint_groups(m).len()) as nat)),
        },
    decreases m,
{
    if m == 0 {
        assert(varint_groups(0) + tail =~= tail);
        assert(pow128(0) == 1);
        assert(acc * 1 == acc) by (nonlinear_arith);
        assert(acc * pow128(0) + 0 == acc);
    } else {
        let g = varint_groups(m / 128);
        let b = (128 + m % 128) as u8;
        assert(varint_groups(m) + tail =~= g + (seq![b] + tail));
        lemma_dec_groups(m / 128, seq![b] + tail, acc);
        let acc1 = acc * pow128(g.len() as nat) + m / 128;
        // One decoding step over the continuation byte `b`.
        let s1 = seq![b] + tail;
        assert(s1[0] == b);
        assert(s1.skip(1) =~= tail);
        assert(b >= 128);
        assert((b % 128) as nat == m % 128) by {
            assert(m % 128 < 128);
        }
        lemma_pow128_succ(g.len() as nat);
        lemma_acc_shift(acc, pow128(g.len() as nat), m);
        assert(varint_groups(m).len() == g.len() + 1);
        assert(acc1 * 128 + (m % 128) == acc * pow128(varint_groups(m).len() as nat) + m);
    }
}

/// Appending one more 7-bit group to an accumulator shifts what was there
/// by one group's weight.
proof fn lemma_acc_shift(acc: nat, p: nat, m: nat) by (nonlinear_arith)
    ensures
        (acc * p + m / 128) * 128 + m % 128 == acc * (p * 128) + m,
{
}

/// `pow128(k + 1) == pow128(k) * 128`.
proof fn lemma_pow128_succ(k: nat)
    ensures
        pow128(k) * 128 == pow128((k + 1) as nat),
    decreases k,
{
    if k == 0 {
    } else {
        lemma_pow128_succ((k - 1) as nat);
        assert(pow128((k + 1) as nat) == 128 * pow128(k));
        assert(128 * pow128(k) == pow128(k) * 128) by (nonlinear_arith);
    }
}

/// Round trip for variable-length integers: decoding an encoding placed in
/// front of any remaining bytes yields the encoded value and consumes
/// exactly the encoding.
pub proof fn lemma_varint_roundtrip(n: nat, rest: Seq<u8>)
    ensures
        varint_dec(varint_enc(n) + rest) == Some((n, varint_enc(n).len() as nat)),
{
    let g = varint_groups(n / 128);
    let b = (n % 128) as u8;
    assert(varint_enc(n) + rest =~= g + (seq![b] + rest));
    lemma_dec_groups(n / 128, seq![b] + rest, 0);
    assert(0 * pow128(g.len() as nat) + n / 128 == n / 128);
    let s1 = seq![b] + rest;
    assert(s1[0] == b);
    assert(b < 128);
    assert((b % 128) as nat == n % 128);
    assert((n / 128) * 128 + n % 128 == n) by (nonlinear_arith);
    assert(varint_enc(n).len() == g.len() + 1);
}

/// Round trip for byte strings: decoding an encoding placed in front of
/// any remaining bytes yields the encoded bytes and consumes exactly the
/// encoding.
pub proof fn lemma_string_roundtrip(s: Seq<u8>, rest: Seq<u8>)
    ensures
        string_dec(string_enc(s) + rest) == Some((s, string_enc(s).len() as nat)),
{
    let n = s.len() as nat;
    let e = varint_enc(n);
    assert(string_enc(s) + rest =~= e + (s + rest));
    lemma_varint_roundtrip(n, s + rest);
    let whole = e + (s + rest);
    let k = e.len() as nat;
    assert(varint_dec(whole) == Some((n, k)));
    assert(k + n <= whole.len());
    assert(whole.subrange(k as int, (k + n) as int) =~= s);
}

/// A value decoded with accumulator `acc` is at least `acc`: every further
/// group only shifts the accumulator up.
proof fn lemma_dec_lower_bound(s: Seq<u8>, acc: nat)
    ensures
        varint_dec_from(s, acc) matches Some((v, k)) ==> v >= acc,
    decreases s.len(),
{
    if s.len() > 0 {
        let acc1 = acc * 128 + (s[0] % 128) as nat;
        assert(acc1 >= acc);
        lemma_dec_lower_bound(s.skip(1), acc1);
    }
}

/// A successful decode consumes between one byte and the whole input.
pub proof fn lemma_dec_count_bound(s: Seq<u8>, acc: nat)
    ensures
        varint_dec_from(s, acc) matches Some((v, k)) ==> 1 <= k <= s.len(),
    decreases s.len(),
{
    if s.len() > 0 {
        let acc1 = acc * 128 + (s[0] % 128) as nat;
        lemma_dec_count_bound(s.skip(1), acc1);
    }
}

/// Append the continuation groups of `m` to `out`.
fn push_varint_groups(m: usize, out: &mut Vec<u8>)
    ensures
        final(out)@ == old(out)@ + varint_groups(m as nat),
    decreases m,
{
    if m > 0 {
        push_varint_groups(m / 128, out);
        out.push((128 + m % 128) as u8);
        assert(out@ =~= old(out)@ + varint_groups(m as nat));
    } else {
        assert(out@ =~= old(out)@ + varint_groups(0));
    }
}

/// The encoding of `n` as a fresh byte vector.
pub fn varint_encode(n: usize) -> (r: Vec<u8>)
    ensures
        r@ == varint_enc(n as nat),
{
    let mut out: Vec<u8> = Vec::new();
    push_varint_groups(n / 128, &mut out);
    out.push((n % 128) as u8);
    proof {
        assert(out@ =~= varint_enc(n as nat));
    }
    out
}

/// An ordered byte channel read end. `inp()` is the sequence of bytes the
/// channel still has to deliver; a read on an exhausted channel fails with
/// `Truncated` and never blocks the model.
pub trait InputStream: Sized {
    /// The bytes still to be read from the channel.
    spec fn inp(&self) -> Seq<u8>;

    /// Read exactly one byte.
    fn input_byte(&mut self) -> (r: Result<u8, CodecError>)
        ensures
            match r {
                Ok(b) => old(self).inp().len() > 0 && b == old(self).inp()[0] && final(self).inp()
                    == old(self).inp().skip(1),
                Err(e) => e == CodecError::Truncated && old(self).inp().len() == 0 && final(self).inp()
                    == old(self).inp(),
            },
    ;

    /// Fill `buf` (at its current length) with the next bytes.
    fn input_bytes_buf(&mut self, buf: &mut Vec<u8>) -> (r: Result<(), CodecError>)
        ensures
            match r {
                Ok(()) => old(self).inp().len() >= old(buf)@.len() && final(buf)@ == old(self).inp().take(
                    old(buf)@.len() as int,
                ) && final(self).inp() == old(self).inp().skip(old(buf)@.len() as int),
                Err(e) => e == CodecError::Truncated && old(self).inp().len() < old(buf)@.len(),
            },
    ;

    /// Read one variable-length integer, most significant 7-bit group
    /// first. Succeeds exactly when the channel holds a terminated group
    /// sequence whose value fits the platform integer width.
    fn input_size(&mut self) -> (r: Result<usize, CodecError>)
        ensures
            match r {
                Ok(n) => varint_dec(old(self).inp()) matches Some((v, k)) && v == n as nat
                    && final(self).inp() == old(self).inp().skip(k as int),
                Err(e) => match e {
                    CodecError::Truncated => varint_dec(old(self).inp()) is None,
                    CodecError::Overflow => !(varint_dec(old(self).inp()) matches Some((v, k)) && v
                        <= usize::MAX),
                },
            },
    {
        let ghost s0 = old(self).inp();
        let mut size: usize = 0;
        let ghost mut used: nat = 0nat;
        proof {
            assert(s0.skip(0) =~= s0);
        }
        loop
            invariant
                s0 == old(self).inp(),
                self.inp() == s0.skip(used as int),
                used <= s0.len(),
                varint_dec(s0) == match varint_dec_from(self.inp(), size as nat) {
                    None => None::<(nat, nat)>,
                    Some((v, k)) => Some((v, (k + used) as nat)),
                },
            decreases s0.len() - used,
        {
            let ghost prev = self.inp();
            let byte = self.input_byte()?;
            let ghost acc1 = (size as nat) * 128 + (byte % 128) as nat;
            proof {
                assert(prev[0] == byte);
                assert(self.inp() =~= prev.skip(1));
                lemma_dec_lower_bound(self.inp(), acc1);
            }
            let shifted = match size.checked_mul(128) {
                Some(s) => s,
                None => {
                    return Err(CodecError::Overflow);
                },
            };
            size = match shifted.checked_add((byte % 128) as usize) {
                Some(s) => s,
                None => {
                    return Err(CodecError::Overflow);
                },
            };
            proof {
                used = used + 1;
                assert(self.inp() =~= s0.skip(used as int));
            }
            if byte < 128 {
                return Ok(size);
            }
        }
    }

    /// Read one length-prefixed byte string.
    fn input_string(&mut self) -> (r: Result<Vec<u8>, CodecError>)
        ensures
            match r {
                Ok(v) => string_dec(old(self).inp()) matches Some((sv, used)) && v@ == sv
                    && final(self).inp() == old(self).inp().skip(used as int),
                Err(e) => match e {
                    CodecError::Truncated => string_dec(old(self).inp()) is None,
                    CodecError::Overflow => !(varint_dec(old(self).inp()) matches Some((v, k)) && v
                        <= usize::MAX),
                },
            },
    {
        let n = self.input_size()?;
        let mut buf: Vec<u8> = vec![0u8; n];
        let r = self.input_bytes_buf(&mut buf);
        match r {
            Ok(()) => {
                proof {
                    let s0 = old(self).inp();
                    let (v, k) = varint_dec(s0)->Some_0;
                    lemma_dec_count_bound(s0, 0);
                    assert(s0.skip(k as int).len() >= n as nat);
                    assert(buf@ =~= s0.subrange(k as int, (k + n) as int));
                    assert(self.inp() =~= s0.skip((k + n) as int));
                }
                Ok(buf)
            },
            Err(e) => Err(e),
        }
    }
}

/// An ordered byte channel write end. `outp()` is everything successfully
/// written so far.
pub trait OutputStream: Sized {
    /// The bytes written to the channel so far.
    spec fn outp(&self) -> Seq<u8>;

    /// Write exactly one byte.
    fn output_byte(&mut self, byte: u8) -> (r: Result<(), CodecError>)
        ensures
            match r {
                Ok(()) => final(self).outp() == old(self).outp() + seq![byte],
                Err(e) => e == CodecError::Truncated,
            },
    ;

    /// Write all of `bytes`.
    fn output_bytes(&mut self, bytes: &[u8]) -> (r: Result<(), CodecError>)
        ensures
            match r {
                Ok(()) => final(self).outp() == old(self).outp() + bytes@,
                Err(e) => e == CodecError::Truncated,
            },
    ;

    /// Write one variable-length integer: the exact inverse of
    /// `input_size`'s decoding rule.
    fn output_size(&mut self, size: usize) -> (r: Result<(), CodecError>)
        ensures
            match r {
                Ok(()) => final(self).outp() == old(self).outp() + varint_enc(size as nat),
                Err(e) => e == CodecError::Truncated,
            },
    {
        let enc = varint_encode(size);
        self.output_bytes(enc.as_slice())
    }

    /// Write one length-prefixed byte string.
    fn output_string(&mut self, string: &[u8]) -> (r: Result<(), CodecError>)
        ensures
            match r {
                Ok(()) => final(self).outp() == old(self).outp() + string_enc(string@),
                Err(e) => e == CodecError::Truncated,
            },
    {
        self.output_size(string.len())?;
        let r = self.output_bytes(string);
        proof {
            if r is Ok {
                assert(self.outp() =~= old(self).outp() + string_enc(string@));
            }
        }
        r
    }
}

/// A channel read end that must be locked before use, as a shared handle
/// to an underlying stream.
pub trait LockedInputStream {
    type Lock: InputStream;

    /// Take exclusive hold of the underlying stream.
    fn lock(&mut self) -> Self::Lock;
}

/// A channel write end that must be locked before use.
pub trait LockedOutputStream {
    type Lock: OutputStream;

    /// Take exclusive hold of the underlying stream.
    fn lock(&mut self) -> Self::Lock;
}

/// An in-memory read channel: a byte buffer consumed front to back.
pub struct ByteCursor {
    data: Vec<u8>,
    pos: usize,
}

impl ByteCursor {
    /// The bytes not yet consumed.
    pub closed spec fn spec_inp(&self) -> Seq<u8> {
        if self.pos <= self.data@.len() {
            self.data@.skip(self.pos as int)
        } else {
            Seq::empty()
        }
    }

    /// A cursor over all of `data`.
    pub fn new(data: Vec<u8>) -> (r: ByteCursor)
        ensures
            r.inp() == data@,
    {
        let r = ByteCursor { data, pos: 0 };
        proof {
            assert(r.spec_inp() =~= r.data@);
        }
        r
    }

    /// Surrender the bytes not yet consumed.
    pub fn into_rest(self) -> (r: Vec<u8>)
        ensures
            r@ == self.inp(),
    {
        let mut data = self.data;
        if self.pos >= data.len() {
            data.clear();
            proof {
                assert(data@ =~= self.spec_inp());
            }
            return data;
        }
        let rest = data.split_off(self.pos);
        proof {
            assert(rest@ =~= self.spec_inp());
        }
        rest
    }
}

impl InputStream for ByteCursor {
    open spec fn inp(&self) -> Seq<u8> {
        self.spec_inp()
    }

    fn input_byte(&mut self) -> (r: Result<u8, CodecError>) {
        if self.pos < self.data.len() {
            let b = self.data[self.pos];
            self.pos = self.pos + 1;
            proof {
                assert(self.spec_inp() =~= old(self).spec_inp().skip(1));
            }
            Ok(b)
        } else {
            Err(CodecError::Truncated)
        }
    }

    fn input_bytes_buf(&mut self, buf: &mut Vec<u8>) -> (r: Result<(), CodecError>) {
        let ghost c0 = *self;
        let ghost b0 = buf@;
        let n = buf.len();
        if n == 0 {
            proof {
                assert(buf@ =~= c0.spec_inp().take(0));
                assert(self.spec_inp() =~= c0.spec_inp().skip(0));
            }
            return Ok(());
        }
        if n > self.data.len() || self.pos > self.data.len() - n {
            return Err(CodecError::Truncated);
        }
        let mut i: usize = 0;
        while i < n
            invariant
                n == buf@.len(),
                n == b0.len(),
                i <= n,
                self.pos == c0.pos + i,
                c0.pos + n <= self.data@.len(),
                c0.pos + n <= usize::MAX,
                self.data == c0.data,
                buf@ == c0.spec_inp().take(i as int) + b0.skip(i as int),
            decreases n - i,
        {
            let b = self.data[self.pos];
            buf.set(i, b);
            self.pos = self.pos + 1;
            i = i + 1;
            proof {
                assert(buf@ =~= c0.spec_inp().take(i as int) + b0.skip(i as int));
            }
        }
        proof {
            assert(buf@ =~= c0.spec_inp().take(n as int));
            assert(self.spec_inp() =~= c0.spec_inp().skip(n as int));
        }
        Ok(())
    }
}

impl LockedInputStream for ByteCursor {
    type Lock = ByteCursor;

    /// Hand the remaining bytes over as a fresh cursor; the shared handle
    /// is left exhausted.
    fn lock(&mut self) -> (r: ByteCursor)
        ensures
            r.inp() == old(self).inp(),
            final(self).inp() == Seq::<u8>::empty(),
    {
        let taken = self.data.split_off(0);
        let pos = self.pos;
        self.pos = 0;
        proof {
            assert(self.spec_inp() =~= Seq::<u8>::empty());
            assert(taken@ =~= old(self).data@);
        }
        let r = ByteCursor { data: taken, pos };
        proof {
            assert(r.spec_inp() =~= old(self).spec_inp());
        }
        r
    }
}

/// An in-memory write channel: a growing byte buffer. Writes never fail.
pub struct ByteSink {
    data: Vec<u8>,
}

impl ByteSink {
    /// An empty sink.
    pub fn new() -> (r: ByteSink)
        ensures
            r.outp() == Seq::<u8>::empty(),
    {
        ByteSink { data: Vec::new() }
    }

    /// Surrender the written bytes.
    pub fn into_bytes(self) -> (r: Vec<u8>)
        ensures
            r@ == self.outp(),
    {
        self.data
    }
}

impl OutputStream for ByteSink {
    closed spec fn outp(&self) -> Seq<u8> {
        self.data@
    }

    fn output_byte(&mut self, byte: u8) -> (r: Result<(), CodecError>) {
        self.data.push(byte);
        Ok(())
    }

    fn output_bytes(&mut self, bytes: &[u8]) -> (r: Result<(), CodecError>) {
        self.data.extend_from_slice(bytes);
        Ok(())
    }
}

impl LockedOutputStream for ByteSink {
    type Lock = ByteSink;

    /// Hand the sink over for exclusive writing; the shared handle is left
    /// empty and bytes written to the lock are the lock's own.
    fn lock(&mut self) -> (r: ByteSink)
        ensures
            r.outp() == Seq::<u8>::empty(),
    {
        ByteSink { data: Vec::new() }
    }
}

} // verus!
