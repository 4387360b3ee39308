//! The staging directive model and the engine that interprets it.
//!
//! Directives are pure data parsed from the host-supplied configuration;
//! they form a tree (`Simul`, `Conditional`, `ForkCases` and
//! `SpawnContainer` nest sequences). The engine executes one instance's
//! tree against an [`Env`] of named strings and named streams, handing
//! every outside effect (file writes and reads, process runs, nested
//! provisioning, kills) to its driver as an [`Action`] and consuming the
//! outcome as an [`Event`].

use vstd::prelude::*;

verus! {

/// The credential set a spawned process runs under; consumed as opaque
/// identifiers.
#[derive(Debug)]
pub struct User {
    pub uid: u16,
    pub gid: u16,
    pub umask: Option<u16>,
    pub additional_gids: Vec<u16>,
}

/// A byte source, resolved against the environment at execution time.
#[derive(Debug)]
pub enum Input {
    /// A literal byte string.
    Const { bytes: Vec<u8> },
    /// The named string's current value; the name must exist.
    StringRef { id: String },
    /// All currently available bytes of the named stream; blocks while
    /// the stream is open and empty, fails once exhausted.
    Stream { id: String },
    /// Each element resolved in order and joined.
    Concat { parts: Vec<Input> },
}

/// A byte sink for process output and file reads.
#[derive(Debug)]
pub enum Output {
    /// Discard the bytes.
    Ignore,
    /// Store the bytes as the named string's new value.
    CaptureString { id: String },
    /// Append the bytes to the named stream.
    ToStream { id: String },
}

/// A condition on the environment guarding a `Conditional` block.
#[derive(Debug)]
pub enum Condition {
    StreamClosed { id: String },
    StreamOpen { id: String },
}

/// The fields of a `Run` directive: what to execute inside the case
/// container and how to judge its exit.
#[derive(Debug)]
pub struct RunSpec {
    pub bin: String,
    pub cwd: String,
    pub user: User,
    pub stdin: Input,
    pub stdout: Output,
    pub stderr: Output,
    pub args: Vec<Input>,
    pub env: Vec<Input>,
    pub ignore_code: bool,
    pub success_codes: Option<Vec<i32>>,
    pub fail_codes: Option<Vec<i32>>,
}

/// One staging directive; sequences of these form the tree the engine
/// interprets.
#[derive(Debug)]
pub enum Directive {
    /// Resolve `src` and write it to `file` in the case container,
    /// truncating or appending; if `exists` is set, fail unless the
    /// file's prior presence matches it.
    WriteFile { file: String, src: Input, append: bool, exists: Option<bool> },
    /// Read `file` from the case container and deliver it to `dst`.
    OutputFile { file: String, dst: Output },
    /// Run a process in the case container and await its exit.
    Run { run: RunSpec },
    /// Mark the named stream closed, releasing its waiters.
    CloseStream { id: String },
    /// Suspend this branch until the named stream is closed.
    WaitStream { id: String },
    /// Execute the blocks concurrently; complete when all complete,
    /// subject to the three independent fail-fast flags.
    Simul {
        blocks: Vec<Vec<Directive>>,
        finish_on_first_fail: bool,
        kill_on_first_fail: bool,
        stop_file_io_on_first_fail: bool,
    },
    /// Execute the nested sequence only if the condition holds.
    Conditional { condition: Condition, directives: Vec<Directive> },
    /// Replicate the nested sequence once per case container,
    /// concurrently or in case order.
    ForkCases { directives: Vec<Directive>, simul: bool },
    /// Provision a nested container, run the nested sequence against it,
    /// and tear it down when the sub-tree completes.
    SpawnContainer { directives: Vec<Directive>, diffs: Vec<String> },
}

/// The exit-code policy: whether an observed exit status counts as
/// success. A listed fail code always fails; otherwise an explicit
/// success list decides; otherwise a bare fail list accepts everything it
/// does not name; otherwise only zero succeeds, unless `ignore_code`.
/// Termination without an exit code succeeds only under `ignore_code`.
pub open spec fn spec_exit_ok(
    code: Option<i32>,
    ignore_code: bool,
    success_codes: Option<Seq<i32>>,
    fail_codes: Option<Seq<i32>>,
) -> bool {
    match code {
        None => ignore_code,
        Some(c) => if (fail_codes matches Some(f) && f.contains(c)) {
            false
        } else {
            match success_codes {
                Some(s) => s.contains(c),
                None => match fail_codes {
                    Some(_) => true,
                    None => c == 0 || ignore_code,
                },
            }
        },
    }
}

/// Whether `v` holds `c`.
fn codes_contain(v: &Vec<i32>, c: i32) -> (r: bool)
    ensures
        r == v@.contains(c),
{
    let mut i: usize = 0;
    while i < v.len()
        invariant
            i <= v@.len(),
            forall|j: int| 0 <= j < i ==> v@[j] != c,
        decreases v@.len() - i,
    {
        if v[i] == c {
            return true;
        }
        i = i + 1;
    }
    false
}

/// The exit-code policy of a `Run` directive, as `spec_exit_ok` states it.
pub fn exit_status_ok(
    code: Option<i32>,
    ignore_code: bool,
    success_codes: &Option<Vec<i32>>,
    fail_codes: &Option<Vec<i32>>,
) -> (r: bool)
    ensures
        r == spec_exit_ok(
            code,
            ignore_code,
            match success_codes {
                Some(s) => Some(s@),
                None => None,
            },
            match fail_codes {
                Some(f) => Some(f@),
                None => None,
            },
        ),
{
    match code {
        None => ignore_code,
        Some(c) => {
            if let Some(f) = fail_codes {
                if codes_contain(f, c) {
                    return false;
                }
            }
            if let Some(s) = success_codes {
                return codes_contain(s, c);
            }
            if fail_codes.is_some() {
                return true;
            }
            c == 0 || ignore_code
        },
    }
}

/// A copy of an input matches its original: same variant, same bytes or
/// name; a join keeps its part count (the parts themselves sit behind a
/// copied vector's elements, which no specification reaches).
pub open spec fn input_alike(a: Input, b: Input) -> bool {
    match (a, b) {
        (Input::Const { bytes: b1 }, Input::Const { bytes: b2 }) => b1@ == b2@,
        (Input::StringRef { id: i1 }, Input::StringRef { id: i2 }) => i1@ == i2@,
        (Input::Stream { id: i1 }, Input::Stream { id: i2 }) => i1@ == i2@,
        (Input::Concat { parts: p1 }, Input::Concat { parts: p2 }) => p1@.len() == p2@.len(),
        _ => false,
    }
}

/// A copy of a run description matches its original in every field the
/// engine reads: program, working directory, credentials, redirections,
/// the stdin source, the exit-code policy, and the argument and
/// environment counts.
pub open spec fn run_alike(a: RunSpec, b: RunSpec) -> bool {
    &&& a.bin@ == b.bin@
    &&& a.cwd@ == b.cwd@
    &&& a.user.uid == b.user.uid
    &&& a.user.gid == b.user.gid
    &&& a.user.umask == b.user.umask
    &&& a.user.additional_gids@ == b.user.additional_gids@
    &&& input_alike(a.stdin, b.stdin)
    &&& a.stdout == b.stdout
    &&& a.stderr == b.stderr
    &&& a.args@.len() == b.args@.len()
    &&& a.env@.len() == b.env@.len()
    &&& a.ignore_code == b.ignore_code
    &&& match (a.success_codes, b.success_codes) {
        (Some(v1), Some(v2)) => v1@ == v2@,
        (None, None) => true,
        _ => false,
    }
    &&& match (a.fail_codes, b.fail_codes) {
        (Some(v1), Some(v2)) => v1@ == v2@,
        (None, None) => true,
        _ => false,
    }
}

/// A copy of a directive matches its original: same variant, same
/// scalar and name fields, same sink, and the same shape (counts) of
/// every nested sequence.
pub open spec fn directive_alike(a: Directive, b: Directive) -> bool {
    match (a, b) {
        (
            Directive::WriteFile { file: f1, src: s1, append: a1, exists: e1 },
            Directive::WriteFile { file: f2, src: s2, append: a2, exists: e2 },
        ) => f1@ == f2@ && input_alike(s1, s2) && a1 == a2 && e1 == e2,
        (
            Directive::OutputFile { file: f1, dst: d1 },
            Directive::OutputFile { file: f2, dst: d2 },
        ) => f1@ == f2@ && d1 == d2,
        (Directive::Run { run: r1 }, Directive::Run { run: r2 }) => run_alike(r1, r2),
        (Directive::CloseStream { id: i1 }, Directive::CloseStream { id: i2 }) => i1@ == i2@,
        (Directive::WaitStream { id: i1 }, Directive::WaitStream { id: i2 }) => i1@ == i2@,
        (
            Directive::Simul {
                blocks: b1,
                finish_on_first_fail: f1,
                kill_on_first_fail: k1,
                stop_file_io_on_first_fail: s1,
            },
            Directive::Simul {
                blocks: b2,
                finish_on_first_fail: f2,
                kill_on_first_fail: k2,
                stop_file_io_on_first_fail: s2,
            },
        ) => f1 == f2 && k1 == k2 && s1 == s2 && b1@.len() == b2@.len() && (forall|i: int|
            0 <= i < b1@.len() ==> (#[trigger] b1@[i])@.len() == (#[trigger] b2@[i])@.len()),
        (
            Directive::Conditional { condition: c1, directives: d1 },
            Directive::Conditional { condition: c2, directives: d2 },
        ) => c1 == c2 && d1@.len() == d2@.len(),
        (
            Directive::ForkCases { directives: d1, simul: s1 },
            Directive::ForkCases { directives: d2, simul: s2 },
        ) => s1 == s2 && d1@.len() == d2@.len(),
        (
            Directive::SpawnContainer { directives: d1, diffs: f1 },
            Directive::SpawnContainer { directives: d2, diffs: f2 },
        ) => d1@.len() == d2@.len() && f1.deep_view() == f2.deep_view(),
        _ => false,
    }
}

/// A deep copy of an input, up to `depth` levels of nesting; `None`
/// only when the tree nests deeper (a directly-resolvable input always
/// copies).
pub fn clone_input(x: &Input, depth: usize) -> (r: Option<Input>)
    ensures
        r matches Some(c) ==> input_alike(*x, c),
        !(x is Concat) ==> r is Some,
    decreases depth,
{
    match x {
        Input::Const { bytes } => {
            let c = bytes.clone();
            proof {
                assert(c@ =~= bytes@);
            }
            Some(Input::Const { bytes: c })
        },
        Input::StringRef { id } => Some(Input::StringRef { id: id.clone() }),
        Input::Stream { id } => Some(Input::Stream { id: id.clone() }),
        Input::Concat { parts } => {
            if depth == 0 {
                return None;
            }
            let mut out: Vec<Input> = Vec::new();
            let mut i: usize = 0;
            while i < parts.len()
                invariant
                    i <= parts@.len(),
                    out@.len() == i,
                    depth >= 1,
                    x is Concat,
                decreases parts@.len() - i,
            {
                match clone_input(&parts[i], depth - 1) {
                    Some(c) => out.push(c),
                    None => {
                        return None;
                    },
                }
                i = i + 1;
            }
            Some(Input::Concat { parts: out })
        },
    }
}

/// A deep copy of an output sink.
pub fn clone_output(x: &Output) -> (r: Output)
    ensures
        r == *x,
{
    match x {
        Output::Ignore => Output::Ignore,
        Output::CaptureString { id } => Output::CaptureString { id: id.clone() },
        Output::ToStream { id } => Output::ToStream { id: id.clone() },
    }
}

/// A deep copy of a run description, up to `depth` levels of input
/// nesting.
pub fn clone_run_spec(x: &RunSpec, depth: usize) -> (r: Option<RunSpec>)
    ensures
        r matches Some(c) ==> run_alike(*x, c),
    decreases depth,
{
    if depth == 0 {
        return None;
    }
    let stdin = match clone_input(&x.stdin, depth - 1) {
        Some(v) => v,
        None => {
            return None;
        },
    };
    let mut args: Vec<Input> = Vec::new();
    let mut i: usize = 0;
    while i < x.args.len()
        invariant
            i <= x.args@.len(),
            args@.len() == i,
            depth >= 1,
        decreases x.args@.len() - i,
    {
        match clone_input(&x.args[i], depth - 1) {
            Some(c) => args.push(c),
            None => {
                return None;
            },
        }
        i = i + 1;
    }
    let mut env: Vec<Input> = Vec::new();
    let mut j: usize = 0;
    while j < x.env.len()
        invariant
            j <= x.env@.len(),
            env@.len() == j,
            depth >= 1,
        decreases x.env@.len() - j,
    {
        match clone_input(&x.env[j], depth - 1) {
            Some(c) => env.push(c),
            None => {
                return None;
            },
        }
        j = j + 1;
    }
    let gids = x.user.additional_gids.clone();
    proof {
        assert(gids@ =~= x.user.additional_gids@);
    }
    let success_codes = match &x.success_codes {
        Some(v) => {
            let c = v.clone();
            proof {
                assert(c@ =~= v@);
            }
            Some(c)
        },
        None => None,
    };
    let fail_codes = match &x.fail_codes {
        Some(v) => {
            let c = v.clone();
            proof {
                assert(c@ =~= v@);
            }
            Some(c)
        },
        None => None,
    };
    Some(RunSpec {
        bin: x.bin.clone(),
        cwd: x.cwd.clone(),
        user: User {
            uid: x.user.uid,
            gid: x.user.gid,
            umask: x.user.umask,
            additional_gids: gids,
        },
        stdin,
        stdout: clone_output(&x.stdout),
        stderr: clone_output(&x.stderr),
        args,
        env,
        ignore_code: x.ignore_code,
        success_codes,
        fail_codes,
    })
}

/// A deep copy of one directive, up to `depth` levels of nesting.
pub fn clone_directive(d: &Directive, depth: usize) -> (r: Option<Directive>)
    ensures
        r matches Some(c) ==> directive_alike(*d, c),
    decreases depth, 0int,
{
    if depth == 0 {
        return None;
    }
    match d {
        Directive::WriteFile { file, src, append, exists } => match clone_input(src, depth - 1) {
            Some(s) => Some(
                Directive::WriteFile {
                    file: file.clone(),
                    src: s,
                    append: *append,
                    exists: *exists,
                },
            ),
            None => None,
        },
        Directive::OutputFile { file, dst } => Some(
            Directive::OutputFile { file: file.clone(), dst: clone_output(dst) },
        ),
        Directive::Run { run } => match clone_run_spec(run, depth - 1) {
            Some(rs) => Some(Directive::Run { run: rs }),
            None => None,
        },
        Directive::CloseStream { id } => Some(Directive::CloseStream { id: id.clone() }),
        Directive::WaitStream { id } => Some(Directive::WaitStream { id: id.clone() }),
        Directive::Simul {
            blocks,
            finish_on_first_fail,
            kill_on_first_fail,
            stop_file_io_on_first_fail,
        } => {
            let mut out: Vec<Vec<Directive>> = Vec::new();
            let mut i: usize = 0;
            while i < blocks.len()
                invariant
                    i <= blocks@.len(),
                    out@.len() == i,
                    forall|k: int|
                        0 <= k < i ==> (#[trigger] out@[k])@.len() == (#[trigger] blocks@[k])@.len(),
                    depth >= 1,
                decreases blocks@.len() - i,
            {
                match clone_directives(&blocks[i], depth - 1) {
                    Some(b) => out.push(b),
                    None => {
                        return None;
                    },
                }
                i = i + 1;
            }
            Some(
                Directive::Simul {
                    blocks: out,
                    finish_on_first_fail: *finish_on_first_fail,
                    kill_on_first_fail: *kill_on_first_fail,
                    stop_file_io_on_first_fail: *stop_file_io_on_first_fail,
                },
            )
        },
        Directive::Conditional { condition, directives } => {
            let cond = match condition {
                Condition::StreamClosed { id } => Condition::StreamClosed { id: id.clone() },
                Condition::StreamOpen { id } => Condition::StreamOpen { id: id.clone() },
            };
            match clone_directives(directives, depth - 1) {
                Some(ds) => Some(Directive::Conditional { condition: cond, directives: ds }),
                None => None,
            }
        },
        Directive::ForkCases { directives, simul } => match clone_directives(
            directives,
            depth - 1,
        ) {
            Some(ds) => Some(Directive::ForkCases { directives: ds, simul: *simul }),
            None => None,
        },
        Directive::SpawnContainer { directives, diffs } => match clone_directives(
            directives,
            depth - 1,
        ) {
            Some(ds) => {
                let dc = diffs.clone();
                proof {
                    assert forall|k: int|
                        0 <= k < diffs@.len() implies dc.deep_view()[k]
                        == diffs.deep_view()[k] by {
                        assert(cloned::<String>(diffs@[k], dc@[k]));
                        assert(dc@[k] == diffs@[k]);
                    }
                    assert(dc.deep_view() =~= diffs.deep_view());
                }
                Some(Directive::SpawnContainer { directives: ds, diffs: dc })
            },
            None => None,
        },
    }
}

/// A deep copy of a directive sequence, up to `depth` levels of nesting:
/// one matching directive per original, in order.
pub fn clone_directives(v: &Vec<Directive>, depth: usize) -> (r: Option<Vec<Directive>>)
    ensures
        r matches Some(c) ==> c@.len() == v@.len() && (forall|i: int|
            0 <= i < v@.len() ==> #[trigger] directive_alike(v@[i], c@[i])),
    decreases depth, 1int,
{
    let mut out: Vec<Directive> = Vec::new();
    let mut i: usize = 0;
    while i < v.len()
        invariant
            i <= v@.len(),
            out@.len() == i,
            forall|k: int| 0 <= k < i ==> #[trigger] directive_alike(v@[k], out@[k]),
        decreases v@.len() - i,
    {
        match clone_directive(&v[i], depth) {
            Some(d) => out.push(d),
            None => {
                return None;
            },
        }
        i = i + 1;
    }
    Some(out)
}

/// One named string of the environment.
/// One named string of the environment.
pub struct StringEntry {
    pub id: String,
    pub val: Vec<u8>,
}

/// One named stream of the environment: its buffered bytes and whether it
/// has been closed. Once closed it stays closed.
pub struct StreamEntry {
    pub id: String,
    pub closed: bool,
    pub buf: Vec<u8>,
}

/// The per-instance environment: named strings and named streams, shared
/// by all branches of one instance's directive tree.
pub struct Env {
    pub strings: Vec<StringEntry>,
    pub streams: Vec<StreamEntry>,
}

/// The value of the named string, first match.
pub open spec fn spec_string_of(entries: Seq<StringEntry>, id: Seq<char>) -> Option<Seq<u8>>
    decreases entries.len(),
{
    if entries.len() == 0 {
        None
    } else if entries[0].id@ == id {
        Some(entries[0].val@)
    } else {
        spec_string_of(entries.skip(1), id)
    }
}

/// The state of the named stream, first match: whether closed, and its
/// buffered bytes.
pub open spec fn spec_stream_of(entries: Seq<StreamEntry>, id: Seq<char>) -> Option<(
    bool,
    Seq<u8>,
)>
    decreases entries.len(),
{
    if entries.len() == 0 {
        None
    } else if entries[0].id@ == id {
        Some((entries[0].closed, entries[0].buf@))
    } else {
        spec_stream_of(entries.skip(1), id)
    }
}

/// The named stream exists and is closed.
pub open spec fn spec_stream_closed(env: Env, id: Seq<char>) -> bool {
    match spec_stream_of(env.streams@, id) {
        Some((closed, _)) => closed,
        None => false,
    }
}

impl Env {
    /// An environment with no names bound.
    pub fn new() -> (r: Env)
        ensures
            r.strings@.len() == 0,
            r.streams@.len() == 0,
    {
        Env { strings: Vec::new(), streams: Vec::new() }
    }

    /// Look the named string up.
    pub fn get_string(&self, id: &String) -> (r: Option<Vec<u8>>)
        ensures
            match r {
                Some(v) => spec_string_of(self.strings@, id@) == Some(v@),
                None => spec_string_of(self.strings@, id@) is None,
            },
    {
        proof {
            assert(self.strings@.skip(0) =~= self.strings@);
        }
        let mut i: usize = 0;
        while i < self.strings.len()
            invariant
                i <= self.strings@.len(),
                spec_string_of(self.strings@, id@) == spec_string_of(
                    self.strings@.skip(i as int),
                    id@,
                ),
            decreases self.strings@.len() - i,
        {
            proof {
                assert(self.strings@.skip(i as int)[0] == self.strings@[i as int]);
            }
            if self.strings[i].id == *id {
                return Some(self.strings[i].val.clone());
            }
            proof {
                assert(self.strings@.skip(i as int).skip(1) =~= self.strings@.skip(i + 1));
            }
            i = i + 1;
        }
        None
    }

    /// Bind the named string to `val`, replacing any previous value.
    pub fn set_string(&mut self, id: &String, val: Vec<u8>)
        ensures
            spec_string_of(final(self).strings@, id@) == Some(val@),
            forall|other: Seq<char>|
                other != id@ ==> spec_string_of(final(self).strings@, other) == spec_string_of(
                    old(self).strings@,
                    other,
                ),
            final(self).streams@ == old(self).streams@,
    {
        let ghost e0 = self.strings@;
        let ghost st0 = self.streams@;
        let mut i: usize = 0;
        while i < self.strings.len()
            invariant
                i <= self.strings@.len(),
                self.strings@ == e0,
                e0 == old(self).strings@,
                self.streams@ == st0,
                st0 == old(self).streams@,
                forall|j: int| 0 <= j < i ==> e0[j].id@ != id@,
            decreases self.strings@.len() - i,
        {
            if self.strings[i].id == *id {
                let entry = StringEntry { id: self.strings[i].id.clone(), val };
                self.strings.set(i, entry);
                proof {
                    lemma_string_update(e0, self.strings@, i as int, id@, val@, id@);
                    assert forall|other: Seq<char>| other != id@ implies spec_string_of(
                        self.strings@,
                        other,
                    ) == spec_string_of(e0, other) by {
                        lemma_string_update(e0, self.strings@, i as int, id@, val@, other);
                    }
                }
                return ;
            }
            i = i + 1;
        }
        self.strings.push(StringEntry { id: id.clone(), val });
        proof {
            assert(self.strings@.take(e0.len() as int) =~= e0);
            lemma_string_append(e0, self.strings@, id@, val@, id@);
            assert forall|other: Seq<char>| other != id@ implies spec_string_of(
                self.strings@,
                other,
            ) == spec_string_of(e0, other) by {
                lemma_string_append(e0, self.strings@, id@, val@, other);
            }
        }
    }
}

/// Streams keep their closed-or-open state across the two environments:
/// used to show that nothing but `CloseStream` ever closes a stream.
pub open spec fn streams_closedness_unchanged(e0: Env, e1: Env) -> bool {
    forall|id: Seq<char>| spec_stream_closed(e1, id) == spec_stream_closed(e0, id)
}

impl Env {
    /// Whether the named stream exists and is closed.
    pub fn stream_is_closed(&self, id: &String) -> (r: bool)
        ensures
            r == spec_stream_closed(*self, id@),
    {
        proof {
            assert(self.streams@.skip(0) =~= self.streams@);
        }
        let mut i: usize = 0;
        while i < self.streams.len()
            invariant
                i <= self.streams@.len(),
                spec_stream_of(self.streams@, id@) == spec_stream_of(
                    self.streams@.skip(i as int),
                    id@,
                ),
            decreases self.streams@.len() - i,
        {
            proof {
                assert(self.streams@.skip(i as int)[0] == self.streams@[i as int]);
            }
            if self.streams[i].id == *id {
                return self.streams[i].closed;
            }
            proof {
                assert(self.streams@.skip(i as int).skip(1) =~= self.streams@.skip(i + 1));
            }
            i = i + 1;
        }
        false
    }

    /// The named stream's buffered bytes and closed flag, if it exists.
    pub fn stream_state(&self, id: &String) -> (r: Option<(bool, usize)>)
        ensures
            match r {
                Some((closed, buffered)) => spec_stream_of(self.streams@, id@) matches Some(
                    (c2, b2),
                ) && c2 == closed && b2.len() == buffered as nat,
                None => spec_stream_of(self.streams@, id@) is None,
            },
    {
        proof {
            assert(self.streams@.skip(0) =~= self.streams@);
        }
        let mut i: usize = 0;
        while i < self.streams.len()
            invariant
                i <= self.streams@.len(),
                spec_stream_of(self.streams@, id@) == spec_stream_of(
                    self.streams@.skip(i as int),
                    id@,
                ),
            decreases self.streams@.len() - i,
        {
            proof {
                assert(self.streams@.skip(i as int)[0] == self.streams@[i as int]);
            }
            if self.streams[i].id == *id {
                return Some((self.streams[i].closed, self.streams[i].buf.len()));
            }
            proof {
                assert(self.streams@.skip(i as int).skip(1) =~= self.streams@.skip(i + 1));
            }
            i = i + 1;
        }
        None
    }

    /// Mark the named stream closed (creating it closed and empty if it
    /// was never referenced); its buffered bytes are kept. Once closed a
    /// stream stays closed, and no other stream's state changes.
    pub fn close_stream(&mut self, id: &String)
        ensures
            spec_stream_closed(*final(self), id@),
            match spec_stream_of(old(self).streams@, id@) {
                Some((c0, b0)) => spec_stream_of(final(self).streams@, id@) == Some((true, b0)),
                None => spec_stream_of(final(self).streams@, id@) == Some((
                    true,
                    Seq::<u8>::empty(),
                )),
            },
            forall|other: Seq<char>|
                other != id@ ==> spec_stream_of(final(self).streams@, other) == spec_stream_of(
                    old(self).streams@,
                    other,
                ),
            final(self).strings@ == old(self).strings@,
    {
        let ghost e0 = self.streams@;
        let mut i: usize = 0;
        while i < self.streams.len()
            invariant
                i <= self.streams@.len(),
                self.streams@ == e0,
                e0 == old(self).streams@,
                self.strings@ == old(self).strings@,
                forall|j: int| 0 <= j < i ==> e0[j].id@ != id@,
            decreases self.streams@.len() - i,
        {
            if self.streams[i].id == *id {
                let entry = StreamEntry {
                    id: self.streams[i].id.clone(),
                    closed: true,
                    buf: self.streams[i].buf.clone(),
                };
                proof {
                    assert(entry.buf@ =~= e0[i as int].buf@);
                }
                self.streams.set(i, entry);
                proof {
                    lemma_stream_found(e0, i as int, id@);
                    lemma_stream_update(e0, self.streams@, i as int, id@, true, e0[i as int].buf@, id@);
                    assert forall|other: Seq<char>| other != id@ implies spec_stream_of(
                        self.streams@,
                        other,
                    ) == spec_stream_of(e0, other) by {
                        lemma_stream_update(
                            e0,
                            self.streams@,
                            i as int,
                            id@,
                            true,
                            e0[i as int].buf@,
                            other,
                        );
                    }
                }
                return ;
            }
            i = i + 1;
        }
        self.streams.push(StreamEntry { id: id.clone(), closed: true, buf: Vec::new() });
        proof {
            lemma_stream_absent(e0, id@);
            assert(self.streams@.take(e0.len() as int) =~= e0);
            lemma_stream_append(e0, self.streams@, id@, true, Seq::<u8>::empty(), id@);
            assert forall|other: Seq<char>| other != id@ implies spec_stream_of(
                self.streams@,
                other,
            ) == spec_stream_of(e0, other) by {
                lemma_stream_append(e0, self.streams@, id@, true, Seq::<u8>::empty(), other);
            }
        }
    }

    /// Append bytes to the named stream if it is still open (creating it
    /// open if it was never referenced). Returns whether the bytes were
    /// accepted; a closed stream rejects them. No stream changes between
    /// open and closed, and no other stream's state changes.
    pub fn feed_stream(&mut self, id: &String, data: &[u8]) -> (accepted: bool)
        ensures
            streams_closedness_unchanged(*old(self), *final(self)),
            accepted == !(match spec_stream_of(old(self).streams@, id@) {
                Some((c0, _)) => c0,
                None => false,
            }),
            match spec_stream_of(old(self).streams@, id@) {
                Some((c0, b0)) => if c0 {
                    spec_stream_of(final(self).streams@, id@) == Some((c0, b0))
                } else {
                    spec_stream_of(final(self).streams@, id@) == Some((c0, b0 + data@))
                },
                None => spec_stream_of(final(self).streams@, id@) == Some((false, data@)),
            },
            forall|other: Seq<char>|
                other != id@ ==> spec_stream_of(final(self).streams@, other) == spec_stream_of(
                    old(self).streams@,
                    other,
                ),
            final(self).strings@ == old(self).strings@,
    {
        let ghost e0 = self.streams@;
        let mut i: usize = 0;
        while i < self.streams.len()
            invariant
                i <= self.streams@.len(),
                self.streams@ == e0,
                e0 == old(self).streams@,
                self.strings@ == old(self).strings@,
                forall|j: int| 0 <= j < i ==> e0[j].id@ != id@,
            decreases self.streams@.len() - i,
        {
            if self.streams[i].id == *id {
                if self.streams[i].closed {
                    proof {
                        lemma_stream_found(e0, i as int, id@);
                        assert(streams_closedness_unchanged(*old(self), *self)) by {
                            assert(self.streams@ == old(self).streams@);
                        }
                    }
                    return false;
                }
                let mut buf = self.streams[i].buf.clone();
                proof {
                    assert(buf@ =~= e0[i as int].buf@);
                }
                buf.extend_from_slice(data);
                proof {
                    assert(buf@ =~= e0[i as int].buf@ + data@);
                }
                let entry = StreamEntry { id: self.streams[i].id.clone(), closed: false, buf };
                self.streams.set(i, entry);
                proof {
                    lemma_stream_found(e0, i as int, id@);
                    lemma_stream_update(
                        e0,
                        self.streams@,
                        i as int,
                        id@,
                        false,
                        e0[i as int].buf@ + data@,
                        id@,
                    );
                    assert forall|other: Seq<char>| other != id@ implies spec_stream_of(
                        self.streams@,
                        other,
                    ) == spec_stream_of(e0, other) by {
                        lemma_stream_update(
                            e0,
                            self.streams@,
                            i as int,
                            id@,
                            false,
                            e0[i as int].buf@ + data@,
                            other,
                        );
                    }
                    assert forall|sid: Seq<char>|
                        spec_stream_closed(*self, sid) == spec_stream_closed(
                            *old(self),
                            sid,
                        ) by {
                        if sid != id@ {
                        } else {
                            assert(spec_stream_of(e0, sid) == Some(
                                (e0[i as int].closed, e0[i as int].buf@),
                            ));
                        }
                    }
                }
                return true;
            }
            i = i + 1;
        }
        self.streams.push(
            StreamEntry { id: id.clone(), closed: false, buf: vstd::slice::slice_to_vec(data) },
        );
        proof {
            lemma_stream_absent(e0, id@);
            assert(self.streams@.take(e0.len() as int) =~= e0);
            lemma_stream_append(e0, self.streams@, id@, false, data@, id@);
            assert forall|other: Seq<char>| other != id@ implies spec_stream_of(
                self.streams@,
                other,
            ) == spec_stream_of(e0, other) by {
                lemma_stream_append(e0, self.streams@, id@, false, data@, other);
            }
            assert forall|sid: Seq<char>|
                spec_stream_closed(*self, sid) == spec_stream_closed(*old(self), sid) by {
                if sid != id@ {
                }
            }
        }
        true
    }

    /// Take all currently buffered bytes of the named stream, leaving it
    /// empty but in the same open-or-closed state; `None` if the stream
    /// was never referenced. No other stream's state changes.
    pub fn drain_stream(&mut self, id: &String) -> (r: Option<Vec<u8>>)
        ensures
            streams_closedness_unchanged(*old(self), *final(self)),
            match r {
                Some(b) => spec_stream_of(old(self).streams@, id@) matches Some((c0, b0)) && b@
                    == b0 && spec_stream_of(final(self).streams@, id@) == Some((
                    c0,
                    Seq::<u8>::empty(),
                )),
                None => spec_stream_of(old(self).streams@, id@) is None && final(self).streams@
                    == old(self).streams@,
            },
            forall|other: Seq<char>|
                other != id@ ==> spec_stream_of(final(self).streams@, other) == spec_stream_of(
                    old(self).streams@,
                    other,
                ),
            final(self).strings@ == old(self).strings@,
    {
        let ghost e0 = self.streams@;
        let mut i: usize = 0;
        while i < self.streams.len()
            invariant
                i <= self.streams@.len(),
                self.streams@ == e0,
                e0 == old(self).streams@,
                self.strings@ == old(self).strings@,
                forall|j: int| 0 <= j < i ==> e0[j].id@ != id@,
            decreases self.streams@.len() - i,
        {
            if self.streams[i].id == *id {
                let closed = self.streams[i].closed;
                let taken = self.streams[i].buf.clone();
                proof {
                    assert(taken@ =~= e0[i as int].buf@);
                }
                let entry = StreamEntry {
                    id: self.streams[i].id.clone(),
                    closed,
                    buf: Vec::new(),
                };
                self.streams.set(i, entry);
                proof {
                    lemma_stream_found(e0, i as int, id@);
                    lemma_stream_update(
                        e0,
                        self.streams@,
                        i as int,
                        id@,
                        e0[i as int].closed,
                        Seq::<u8>::empty(),
                        id@,
                    );
                    assert forall|other: Seq<char>| other != id@ implies spec_stream_of(
                        self.streams@,
                        other,
                    ) == spec_stream_of(e0, other) by {
                        lemma_stream_update(
                            e0,
                            self.streams@,
                            i as int,
                            id@,
                            e0[i as int].closed,
                            Seq::<u8>::empty(),
                            other,
                        );
                    }
                    assert forall|sid: Seq<char>|
                        spec_stream_closed(*self, sid) == spec_stream_closed(
                            *old(self),
                            sid,
                        ) by {
                        if sid != id@ {
                        } else {
                            assert(spec_stream_of(e0, sid) == Some(
                                (e0[i as int].closed, e0[i as int].buf@),
                            ));
                        }
                    }
                }
                return Some(taken);
            }
            i = i + 1;
        }
        proof {
            lemma_stream_absent(self.streams@, id@);
        }
        None
    }
}

/// Looking a stream up after earlier entries were ruled out lands on the
/// entry at `i`.
proof fn lemma_stream_found(e0: Seq<StreamEntry>, i: int, id: Seq<char>)
    requires
        0 <= i < e0.len(),
        forall|j: int| 0 <= j < i ==> e0[j].id@ != id,
        e0[i].id@ == id,
    ensures
        spec_stream_of(e0, id) == Some((e0[i].closed, e0[i].buf@)),
    decreases i,
{
    if i > 0 {
        assert forall|j: int| 0 <= j < i - 1 implies e0.skip(1)[j].id@ != id by {
            assert(e0.skip(1)[j] == e0[j + 1]);
        }
        assert(e0.skip(1)[i - 1] == e0[i]);
        lemma_stream_found(e0.skip(1), i - 1, id);
    }
}

/// A name that no entry binds reads as absent.
proof fn lemma_stream_absent(e0: Seq<StreamEntry>, id: Seq<char>)
    requires
        forall|j: int| 0 <= j < e0.len() ==> e0[j].id@ != id,
    ensures
        spec_stream_of(e0, id) is None,
    decreases e0.len(),
{
    if e0.len() > 0 {
        assert forall|j: int| 0 <= j < e0.skip(1).len() implies e0.skip(1)[j].id@ != id by {
            assert(e0.skip(1)[j] == e0[j + 1]);
        }
        lemma_stream_absent(e0.skip(1), id);
    }
}

/// After replacing the first entry of `id` (at `i`) with a new state,
/// `id` reads the new state and every other name reads as before.
proof fn lemma_stream_update(
    e0: Seq<StreamEntry>,
    e1: Seq<StreamEntry>,
    i: int,
    id: Seq<char>,
    closed: bool,
    buf: Seq<u8>,
    other: Seq<char>,
)
    requires
        0 <= i < e0.len(),
        e1.len() == e0.len(),
        forall|j: int| 0 <= j < i ==> e0[j].id@ != id,
        forall|j: int| 0 <= j < e0.len() && j != i ==> e1[j] == e0[j],
        e0[i].id@ == id,
        e1[i].id@ == id,
        e1[i].closed == closed,
        e1[i].buf@ == buf,
    ensures
        spec_stream_of(e1, id) == Some((closed, buf)),
        other != id ==> spec_stream_of(e1, other) == spec_stream_of(e0, other),
    decreases e0.len(),
{
    if i == 0 {
        assert(e1.skip(1) =~= e0.skip(1));
    } else {
        assert(e0[0].id@ != id);
        assert(e1[0] == e0[0]);
        assert(e0.skip(1)[i - 1] == e0[i]);
        assert(e1.skip(1)[i - 1] == e1[i]);
        assert forall|j: int| 0 <= j < i - 1 implies e0.skip(1)[j].id@ != id by {
            assert(e0.skip(1)[j] == e0[j + 1]);
        }
        assert forall|j: int|
            0 <= j < e0.skip(1).len() && j != i - 1 implies e1.skip(1)[j] == e0.skip(1)[j] by {
            assert(e1.skip(1)[j] == e1[j + 1]);
            assert(e0.skip(1)[j] == e0[j + 1]);
        }
        lemma_stream_update(e0.skip(1), e1.skip(1), i - 1, id, closed, buf, other);
    }
}

/// Appending a new stream entry binds its name and leaves every other
/// name as it read before.
proof fn lemma_stream_append(
    e0: Seq<StreamEntry>,
    e1: Seq<StreamEntry>,
    id: Seq<char>,
    closed: bool,
    buf: Seq<u8>,
    other: Seq<char>,
)
    requires
        e1.len() == e0.len() + 1,
        e1.take(e0.len() as int) == e0,
        e1.last().id@ == id,
        e1.last().closed == closed,
        e1.last().buf@ == buf,
        forall|j: int| 0 <= j < e0.len() ==> e0[j].id@ != id,
    ensures
        spec_stream_of(e1, id) == Some((closed, buf)),
        other != id ==> spec_stream_of(e1, other) == spec_stream_of(e0, other),
    decreases e0.len(),
{
    if e0.len() == 0 {
        assert(e1[0] == e1.last());
        assert(e1.skip(1) =~= Seq::<StreamEntry>::empty());
    } else {
        assert(e1[0] == e0[0]) by {
            assert(e1.take(e0.len() as int)[0] == e1[0]);
        }
        assert(e1.skip(1).take(e0.skip(1).len() as int) =~= e0.skip(1)) by {
            assert(forall|j: int| 0 <= j < e0.len() ==> e1.take(e0.len() as int)[j] == e1[j]);
        }
        assert(e1.skip(1).last() == e1.last());
        assert forall|j: int| 0 <= j < e0.skip(1).len() implies e0.skip(1)[j].id@ != id by {
            assert(e0.skip(1)[j] == e0[j + 1]);
        }
        lemma_stream_append(e0.skip(1), e1.skip(1), id, closed, buf, other);
        assert(e0[0].id@ != id);
    }
}

/// After replacing the first entry bound to `id` (at index `i`, every
/// earlier entry bound elsewhere), `id` reads the new value and every
/// other name reads as before.
proof fn lemma_string_update(
    e0: Seq<StringEntry>,
    e1: Seq<StringEntry>,
    i: int,
    id: Seq<char>,
    val: Seq<u8>,
    other: Seq<char>,
)
    requires
        0 <= i < e0.len(),
        e1.len() == e0.len(),
        forall|j: int| 0 <= j < i ==> e0[j].id@ != id,
        forall|j: int| 0 <= j < e0.len() && j != i ==> e1[j] == e0[j],
        e0[i].id@ == id,
        e1[i].id@ == id,
        e1[i].val@ == val,
    ensures
        spec_string_of(e1, id) == Some(val),
        other != id ==> spec_string_of(e1, other) == spec_string_of(e0, other),
    decreases e0.len(),
{
    if i == 0 {
        assert(e1.skip(1) =~= e0.skip(1));
    } else {
        assert(e0[0].id@ != id);
        assert(e1[0] == e0[0]);
        assert(e0.skip(1)[i - 1] == e0[i]);
        assert(e1.skip(1)[i - 1] == e1[i]);
        assert forall|j: int| 0 <= j < i - 1 implies e0.skip(1)[j].id@ != id by {
            assert(e0.skip(1)[j] == e0[j + 1]);
        }
        assert forall|j: int|
            0 <= j < e0.skip(1).len() && j != i - 1 implies e1.skip(1)[j] == e0.skip(1)[j] by {
            assert(e1.skip(1)[j] == e1[j + 1]);
            assert(e0.skip(1)[j] == e0[j + 1]);
        }
        lemma_string_update(e0.skip(1), e1.skip(1), i - 1, id, val, other);
    }
}

/// Appending a new entry binds its name and leaves every other name as it
/// read before.
proof fn lemma_string_append(
    e0: Seq<StringEntry>,
    e1: Seq<StringEntry>,
    id: Seq<char>,
    val: Seq<u8>,
    other: Seq<char>,
)
    requires
        e1.len() == e0.len() + 1,
        e1.take(e0.len() as int) == e0,
        e1.last().id@ == id,
        e1.last().val@ == val,
        forall|j: int| 0 <= j < e0.len() ==> e0[j].id@ != id,
    ensures
        spec_string_of(e1, id) == Some(val),
        other != id ==> spec_string_of(e1, other) == spec_string_of(e0, other),
    decreases e0.len(),
{
    if e0.len() == 0 {
        assert(e1[0] == e1.last());
        assert(e1.skip(1) =~= Seq::<StringEntry>::empty());
    } else {
        assert(e1[0] == e0[0]) by {
            assert(e1.take(e0.len() as int)[0] == e1[0]);
        }
        assert(e1.skip(1).take(e0.skip(1).len() as int) =~= e0.skip(1)) by {
            assert(forall|j: int| 0 <= j < e0.len() ==> e1.take(e0.len() as int)[j] == e1[j]);
        }
        assert(e1.skip(1).last() == e1.last());
        assert forall|j: int| 0 <= j < e0.skip(1).len() implies e0.skip(1)[j].id@ != id by {
            assert(e0.skip(1)[j] == e0[j + 1]);
        }
        lemma_string_append(e0.skip(1), e1.skip(1), id, val, other);
        assert(e0[0].id@ != id);
    }
}

/// How deeply nested a directive or input tree may be before the engine
/// refuses it.
pub const MAX_NEST: usize = 64;

/// Whether a branch is suspended on a stream: blocked in `WaitStream`,
/// or blocked resolving an input from an open, empty stream.
pub open spec fn stream_blocked(b: Branch) -> bool {
    b.status is WaitingStreamClose || b.status is WaitingStreamData
}

/// Instance-wide cancellation: queue a termination signal for every
/// process the engine still considers live, and release every branch
/// blocked on a stream with a cancellation failure. The queued signals
/// are issued by the engine's next steps, before any further directive
/// runs; cancellation is instance-wide, never per-directive.
pub fn kill_soon(e: &mut Engine)
    requires
        old(e).wf(),
    ensures
        final(e).wf(),
        final(e).live@.len() == 0,
        final(e).branches@.len() == old(e).branches@.len(),
        final(e).env == old(e).env,
        forall|k: int|
            0 <= k < old(e).live@.len() ==> final(e).kills@.contains(#[trigger] old(e).live@[k]),
        forall|k: int|
            0 <= k < old(e).kills@.len() ==> final(e).kills@.contains(#[trigger] old(e).kills@[k]),
        forall|j: int|
            0 <= j < old(e).branches@.len() && stream_blocked(old(e).branches@[j]) ==> (
            #[trigger] final(e).branches@[j]).status is DoneFailed,
        forall|j: int|
            0 <= j < old(e).branches@.len() && !stream_blocked(old(e).branches@[j])
                ==> #[trigger] parent_note_rule(old(e).branches@[j], final(e).branches@[j]),
{
    let ghost live0 = e.live@;
    let ghost kills0 = e.kills@;
    e.queue_all_kills();
    proof {
        assert(e.wf()) by {
            assert forall|k2: int|
                0 <= k2 < e.branches@.len() implies #[trigger] e.wf_branch(k2) by {
                assert(old(e).wf_branch(k2));
            }
        }
    }
    let n = e.branches.len();
    let mut j: usize = 0;
    while j < n
        invariant
            j <= n,
            n == e.branches@.len(),
            n == old(e).branches@.len(),
            e.wf(),
            e.env == old(e).env,
            e.live@.len() == 0,
            forall|k: int|
                0 <= k < live0.len() ==> e.kills@.contains(#[trigger] live0[k]),
            forall|k: int|
                0 <= k < kills0.len() ==> e.kills@.contains(#[trigger] kills0[k]),
            live0 == old(e).live@,
            kills0 == old(e).kills@,
            forall|k: int|
                0 <= k < j && stream_blocked(old(e).branches@[k]) ==> (
                #[trigger] e.branches@[k]).status is DoneFailed,
            forall|k: int|
                j <= k < n && stream_blocked(old(e).branches@[k]) ==> e.branches@[k] == old(
                    e,
                ).branches@[k],
            forall|k: int|
                0 <= k < n && !stream_blocked(old(e).branches@[k])
                    ==> #[trigger] parent_note_rule(old(e).branches@[k], e.branches@[k]),
        decreases n - j,
    {
        let blocked = matches!(
            &e.branches[j].status,
            BranchStatus::WaitingStreamClose { .. } | BranchStatus::WaitingStreamData { .. }
        );
        if blocked {
            let ghost mid = *e;
            let ghost kmid = e.kills@;
            e.fail_branch(j);
            proof {
                assert forall|k: int|
                    0 <= k < live0.len() implies e.kills@.contains(#[trigger] live0[k]) by {
                    let w = choose|w: int| 0 <= w < kmid.len() && kmid[w] == live0[k];
                    assert(e.kills@.contains(kmid[w]));
                }
                assert forall|k: int|
                    0 <= k < kills0.len() implies e.kills@.contains(#[trigger] kills0[k]) by {
                    let w = choose|w: int| 0 <= w < kmid.len() && kmid[w] == kills0[k];
                    assert(e.kills@.contains(kmid[w]));
                }
                assert forall|k: int|
                    0 <= k < j + 1 && stream_blocked(old(e).branches@[k]) implies (
                #[trigger] e.branches@[k]).status is DoneFailed by {
                    if k < j {
                        assert(parent_note_rule(mid.branches@[k], e.branches@[k]));
                        assert(mid.branches@[k].status is DoneFailed);
                    }
                }
                assert forall|k: int|
                    j + 1 <= k < n && stream_blocked(old(e).branches@[k]) implies e.branches@[k]
                    == old(e).branches@[k] by {
                    assert(parent_note_rule(mid.branches@[k], e.branches@[k]));
                }
                assert forall|k: int|
                    0 <= k < n && !stream_blocked(old(e).branches@[k])
                        implies #[trigger] parent_note_rule(
                    old(e).branches@[k],
                    e.branches@[k],
                ) by {
                    if k != j {
                        assert(parent_note_rule(old(e).branches@[k], mid.branches@[k]));
                        assert(parent_note_rule(mid.branches@[k], e.branches@[k]));
                        let a = old(e).branches@[k];
                        let m = mid.branches@[k];
                        let c = e.branches@[k];
                        if m == a {
                        } else {
                            assert(a.status is WaitingChildren);
                            assert(m == Branch { status: m.status, ..a });
                            if c == m {
                                assert(c == Branch { status: c.status, ..a });
                            } else {
                                assert(m.status is WaitingChildren);
                                assert(c == Branch { status: c.status, ..m });
                                assert(c == Branch { status: c.status, ..a });
                            }
                        }
                    } else {
                        // The branch just failed tested as stream-blocked,
                        // and an unblocked branch never becomes blocked.
                        assert(parent_note_rule(old(e).branches@[k], mid.branches@[k]));
                        assert(stream_blocked(mid.branches@[k]));
                        assert(false);
                    }
                }
            }
        }
        j = j + 1;
    }
}

/// Whether an input can be resolved right now: all its parts are
/// available, or it must block on a stream, or it can never resolve.
pub enum ReadyCheck {
    Ready,
    /// A referenced stream is open and empty: block until data or close.
    BlockedOn { id: String },
    /// An unknown string name, an exhausted stream, or a tree nested
    /// past `MAX_NEST`.
    Refused,
}

/// Check whether `inp` can be resolved against `env` without blocking.
/// Reads the environment only. For a directly-resolvable input the
/// answer is exact; for a join it reflects its parts' checks.
pub fn input_ready(env: &Env, inp: &Input, depth: usize) -> (r: ReadyCheck)
    ensures
        match inp {
            Input::Const { .. } => r is Ready,
            Input::StringRef { id } => if spec_string_of(env.strings@, id@) is Some {
                r is Ready
            } else {
                r is Refused
            },
            Input::Stream { id } => match spec_stream_of(env.streams@, id@) {
                None => r matches ReadyCheck::BlockedOn { id: b2 } && b2@ == id@,
                Some((closed, buf)) => if buf.len() > 0 {
                    r is Ready
                } else if closed {
                    r is Refused
                } else {
                    r matches ReadyCheck::BlockedOn { id: b2 } && b2@ == id@
                },
            },
            Input::Concat { .. } => true,
        },
    decreases depth,
{
    match inp {
        Input::Const { .. } => ReadyCheck::Ready,
        Input::StringRef { id } => match env.get_string(id) {
            Some(_) => ReadyCheck::Ready,
            None => ReadyCheck::Refused,
        },
        Input::Stream { id } => match env.stream_state(id) {
            Some((closed, buffered)) => {
                if buffered > 0 {
                    ReadyCheck::Ready
                } else if closed {
                    ReadyCheck::Refused
                } else {
                    ReadyCheck::BlockedOn { id: id.clone() }
                }
            },
            None => ReadyCheck::BlockedOn { id: id.clone() },
        },
        Input::Concat { parts } => {
            if depth == 0 {
                return ReadyCheck::Refused;
            }
            let mut i: usize = 0;
            while i < parts.len()
                invariant
                    i <= parts@.len(),
                    depth >= 1,
                    inp is Concat,
                decreases parts@.len() - i,
            {
                match input_ready(env, &parts[i], depth - 1) {
                    ReadyCheck::Ready => {},
                    other => {
                        return other;
                    },
                }
                i = i + 1;
            }
            ReadyCheck::Ready
        },
    }
}

/// The concatenation of a list of byte strings.
pub open spec fn concat_seqs(vals: Seq<Seq<u8>>) -> Seq<u8>
    decreases vals.len(),
{
    if vals.len() == 0 {
        Seq::empty()
    } else {
        vals[0] + concat_seqs(vals.skip(1))
    }
}

/// Appending one more byte string extends the concatenation at the end.
proof fn lemma_concat_push(vals: Seq<Seq<u8>>, v: Seq<u8>)
    ensures
        concat_seqs(vals.push(v)) == concat_seqs(vals) + v,
    decreases vals.len(),
{
    if vals.len() == 0 {
        assert(vals.push(v).len() == 1);
        assert(vals.push(v)[0] == v);
        assert(vals.push(v).skip(1) =~= Seq::<Seq<u8>>::empty());
        assert(concat_seqs(Seq::<Seq<u8>>::empty()) == Seq::<u8>::empty());
        assert(concat_seqs(vals.push(v)) == v + Seq::<u8>::empty());
        assert(v + Seq::<u8>::empty() =~= v);
        assert(concat_seqs(vals) == Seq::<u8>::empty());
        assert(Seq::<u8>::empty() + v =~= v);
    } else {
        assert(vals.push(v).skip(1) =~= vals.skip(1).push(v));
        lemma_concat_push(vals.skip(1), v);
        assert(vals.push(v)[0] == vals[0]);
        assert(vals[0] + (concat_seqs(vals.skip(1)) + v) =~= (vals[0] + concat_seqs(
            vals.skip(1),
        )) + v);
    }
}

/// How resolving one directly-resolvable input transforms the
/// environment and what it yields. `Const` copies its bytes;
/// `StringRef` reads the named string (failing on an unknown name);
/// `Stream` takes the buffered bytes of a known stream and leaves it
/// empty, failing once the stream is exhausted (closed and empty). A
/// nested join is not constrained here.
pub open spec fn atom_rel(e0: Env, e1: Env, inp: Input, r: Option<Seq<u8>>) -> bool {
    match inp {
        Input::Const { bytes } => e1 == e0 && r == Some(bytes@),
        Input::StringRef { id } => e1 == e0 && r == spec_string_of(e0.strings@, id@),
        Input::Stream { id } => match spec_stream_of(e0.streams@, id@) {
            None => e1 == e0 && r is None,
            Some((closed, buf)) => if closed && buf.len() == 0 {
                e1 == e0 && r is None
            } else {
                &&& r == Some(buf)
                &&& spec_stream_of(e1.streams@, id@) == Some((closed, Seq::<u8>::empty()))
                &&& forall|other: Seq<char>|
                    other != id@ ==> spec_stream_of(e1.streams@, other) == spec_stream_of(
                        e0.streams@,
                        other,
                    )
                &&& e1.strings@ == e0.strings@
            },
        },
        Input::Concat { .. } => true,
    }
}

/// A directly-resolvable input that cannot resolve from `e`: an unknown
/// string name or an exhausted or unreferenced stream. A nested join is
/// allowed to fail deeper down.
pub open spec fn atom_fails(e: Env, inp: Input) -> bool {
    match inp {
        Input::Const { .. } => false,
        Input::StringRef { id } => spec_string_of(e.strings@, id@) is None,
        Input::Stream { id } => match spec_stream_of(e.streams@, id@) {
            None => true,
            Some((closed, buf)) => closed && buf.len() == 0,
        },
        Input::Concat { .. } => true,
    }
}

/// A run of `k` resolved parts from `e0`, then a part that cannot
/// resolve: why a join fails short of its depth bound.
pub open spec fn concat_fail_witness(
    e0: Env,
    parts: Seq<Input>,
    envs: Seq<Env>,
    vals: Seq<Seq<u8>>,
    k: int,
) -> bool {
    &&& 0 <= k < parts.len()
    &&& collect_chain(envs, parts.take(k), vals)
    &&& envs[0] == e0
    &&& atom_fails(envs[k], parts[k])
}

/// The environments a left-to-right resolution of `parts` passes
/// through and the value each part yielded: part `i` resolves from
/// `envs[i]` to `envs[i + 1]`.
pub open spec fn collect_chain(envs: Seq<Env>, parts: Seq<Input>, vals: Seq<Seq<u8>>) -> bool {
    &&& envs.len() == parts.len() + 1
    &&& vals.len() == parts.len()
    &&& forall|i: int|
        0 <= i < parts.len() ==> #[trigger] atom_rel(envs[i], envs[i + 1], parts[i], Some(vals[i]))
}

/// How resolving one input transforms the environment and what it
/// yields: directly-resolvable inputs per `atom_rel`; a successful join
/// resolves its parts left to right through a chain of environments and
/// concatenates what they yielded; a join fails only past `depth`
/// levels of nesting or when, after a run of resolved parts, one part
/// cannot resolve.
pub open spec fn collect_rel(e0: Env, e1: Env, inp: Input, r: Option<Seq<u8>>, depth: nat) -> bool {
    match inp {
        Input::Concat { parts } => match r {
            Some(v) => exists|envs: Seq<Env>, vals: Seq<Seq<u8>>|
                {
                    &&& #[trigger] collect_chain(envs, parts@, vals)
                    &&& envs[0] == e0
                    &&& envs.last() == e1
                    &&& v == concat_seqs(vals)
                },
            None => depth == 0 || exists|envs: Seq<Env>, vals: Seq<Seq<u8>>, k: int|
                #[trigger] concat_fail_witness(e0, parts@, envs, vals, k),
        },
        _ => atom_rel(e0, e1, inp, r),
    }
}

/// Resolve `inp` to bytes, consuming any referenced stream's buffered
/// bytes, exactly as `collect_rel` states. `None` when a name is
/// unknown, a stream is exhausted, or the tree nests deeper than
/// `depth`. Strings are only read; no stream changes between open and
/// closed.
pub fn input_collect(env: &mut Env, inp: &Input, depth: usize) -> (r: Option<Vec<u8>>)
    ensures
        streams_closedness_unchanged(*old(env), *final(env)),
        final(env).strings@ == old(env).strings@,
        collect_rel(
            *old(env),
            *final(env),
            *inp,
            match r {
                Some(v) => Some(v@),
                None => None,
            },
            depth as nat,
        ),
    decreases depth,
{
    match inp {
        Input::Const { bytes } => {
            let c = bytes.clone();
            proof {
                assert(c@ =~= bytes@);
            }
            Some(c)
        },
        Input::StringRef { id } => env.get_string(id),
        Input::Stream { id } => {
            match env.stream_state(id) {
                Some((closed, buffered)) => {
                    if closed && buffered == 0 {
                        None
                    } else {
                        match env.drain_stream(id) {
                            Some(b) => Some(b),
                            None => {
                                proof {
                                    assert(false);
                                }
                                None
                            },
                        }
                    }
                },
                None => None,
            }
        },
        Input::Concat { parts } => {
            if depth == 0 {
                return None;
            }
            let ghost e_start = *env;
            let mut out: Vec<u8> = Vec::new();
            let ghost mut envs: Seq<Env> = seq![*env];
            let ghost mut vals: Seq<Seq<u8>> = Seq::empty();
            let mut i: usize = 0;
            while i < parts.len()
                invariant
                    i <= parts@.len(),
                    depth >= 1,
                    e_start == *old(env),
                    inp is Concat,
                    inp->Concat_parts == *parts,
                    envs.len() == i + 1,
                    vals.len() == i,
                    envs[0] == e_start,
                    envs.last() == *env,
                    out@ == concat_seqs(vals),
                    streams_closedness_unchanged(e_start, *env),
                    env.strings@ == e_start.strings@,
                    forall|k: int|
                        0 <= k < i ==> #[trigger] atom_rel(
                            envs[k],
                            envs[k + 1],
                            parts@[k],
                            Some(vals[k]),
                        ),
                decreases parts@.len() - i,
            {
                let ghost e_before = *env;
                match input_collect(env, &parts[i], depth - 1) {
                    Some(v) => {
                        proof {
                            lemma_concat_push(vals, v@);
                            let envs0 = envs;
                            let vals0 = vals;
                            envs = envs.push(*env);
                            vals = vals.push(v@);
                            assert(atom_rel(e_before, *env, parts@[i as int], Some(v@)));
                            assert forall|k: int|
                                0 <= k < i + 1 implies #[trigger] atom_rel(
                                envs[k],
                                envs[k + 1],
                                parts@[k],
                                Some(vals[k]),
                            ) by {
                                if k < i {
                                    assert(envs[k] == envs0[k]);
                                    assert(envs[k + 1] == envs0[k + 1]);
                                    assert(vals[k] == vals0[k]);
                                    assert(atom_rel(
                                        envs0[k],
                                        envs0[k + 1],
                                        parts@[k],
                                        Some(vals0[k]),
                                    ));
                                } else {
                                    assert(envs[k] == envs0[i as int]);
                                    assert(envs0[i as int] == e_before);
                                    assert(envs[k + 1] == *env);
                                    assert(vals[k] == v@);
                                }
                            }
                        }
                        let mut piece = v;
                        out.append(&mut piece);
                    },
                    None => {
                        proof {
                            assert forall|sid: Seq<char>|
                                spec_stream_closed(*env, sid) == spec_stream_closed(
                                    e_start,
                                    sid,
                                ) by {
                                assert(spec_stream_closed(e_before, sid) == spec_stream_closed(
                                    e_start,
                                    sid,
                                ));
                            }
                            assert(parts@.take(i as int).len() == i as int);
                            assert forall|k: int|
                                0 <= k < i implies #[trigger] atom_rel(
                                envs[k],
                                envs[k + 1],
                                parts@.take(i as int)[k],
                                Some(vals[k]),
                            ) by {
                                assert(parts@.take(i as int)[k] == parts@[k]);
                                assert(atom_rel(envs[k], envs[k + 1], parts@[k], Some(vals[k])));
                            }
                            assert(collect_chain(envs, parts@.take(i as int), vals));
                            assert(atom_fails(e_before, parts@[i as int]));
                            assert(envs[i as int] == e_before);
                            assert(concat_fail_witness(*old(env), parts@, envs, vals, i as int));
                        }
                        return None;
                    },
                }
                i = i + 1;
            }
            proof {
                assert(collect_chain(envs, parts@, vals));
            }
            Some(out)
        },
    }
}

/// Evaluate a condition against the environment./// Evaluate a condition against the environment.
pub fn eval_condition(env: &Env, c: &Condition) -> (r: bool)
    ensures
        match c {
            Condition::StreamClosed { id } => r == spec_stream_closed(*env, id@),
            Condition::StreamOpen { id } => r == !spec_stream_closed(*env, id@),
        },
{
    match c {
        Condition::StreamClosed { id } => env.stream_is_closed(id),
        Condition::StreamOpen { id } => !env.stream_is_closed(id),
    }
}

/// The three independent fail-fast switches of a `Simul` block.
#[derive(Clone, Copy, Debug, PartialEq, Eq, Structural)]
pub struct SimulFlags {
    pub finish_on_first_fail: bool,
    pub kill_on_first_fail: bool,
    pub stop_file_io_on_first_fail: bool,
}

/// One stack entry of a branch: the directives still to run in one
/// sequence, and the nested container to tear down (and the case to
/// return to) when the sequence completes.
pub struct Frame {
    pub rest: Vec<Directive>,
    pub teardown: Option<(usize, usize)>,
}

/// Where a branch stands.
pub enum BranchStatus {
    /// May execute its next directive.
    Runnable,
    /// Blocked on `WaitStream`: released when the stream closes.
    WaitingStreamClose { id: String },
    /// Blocked resolving an input from an open, empty stream: released
    /// when bytes arrive or the stream closes.
    WaitingStreamData { id: String },
    /// An action was issued; waiting for its event.
    WaitingEvent,
    /// A sequential fork replica, waiting for its predecessor to finish.
    WaitingTurn { prev: usize },
    /// Waiting for child branches; `any_failed` records whether one
    /// failed.
    WaitingChildren { pending: usize, any_failed: bool },
    /// Children are done and at least one failed: this branch fails on
    /// its next turn.
    Failing,
    DoneOk,
    DoneFailed,
}

/// The outside work a waiting branch expects an event for.
pub enum PendingOp {
    FileWrite,
    FileRead { dst: Output },
    ProcRun {
        pid: usize,
        stdout: Output,
        stderr: Output,
        ignore_code: bool,
        success_codes: Option<Vec<i32>>,
        fail_codes: Option<Vec<i32>>,
    },
    Spawn { directives: Vec<Directive>, case: usize },
}

/// One concurrent execution strand of the directive tree.
pub struct Branch {
    pub frames: Vec<Frame>,
    pub status: BranchStatus,
    pub case: usize,
    pub parent: Option<usize>,
    pub flags: SimulFlags,
    pub pending: Option<PendingOp>,
}

/// An outside effect the driver must perform. `DoKill` and `DoTeardown`
/// expect no event back; every other action is answered through
/// `deliver` on the branch that issued it.
#[derive(Debug)]
pub enum Action {
    DoWriteFile { case: usize, file: String, bytes: Vec<u8>, append: bool, exists: Option<bool> },
    DoReadFile { case: usize, file: String },
    DoRun {
        case: usize,
        pid: usize,
        bin: String,
        cwd: String,
        user: User,
        args: Vec<Vec<u8>>,
        env_vars: Vec<Vec<u8>>,
        stdin: Vec<u8>,
    },
    DoKill { pid: usize },
    DoSpawn { case: usize, diffs: Vec<String> },
    DoTeardown { case: usize },
}

/// The outcome of a performed action.
#[derive(Debug)]
pub enum Event {
    WriteDone { ok: bool },
    ReadDone { bytes: Option<Vec<u8>> },
    ProcDone { code: Option<i32>, stdout: Vec<u8>, stderr: Vec<u8> },
    SpawnDone { ok: bool },
}

/// Which events answer which pending operation.
pub open spec fn event_fits(p: PendingOp, ev: Event) -> bool {
    match (p, ev) {
        (PendingOp::FileWrite, Event::WriteDone { .. }) => true,
        (PendingOp::FileRead { .. }, Event::ReadDone { .. }) => true,
        (PendingOp::ProcRun { .. }, Event::ProcDone { .. }) => true,
        (PendingOp::Spawn { .. }, Event::SpawnDone { .. }) => true,
        _ => false,
    }
}

/// What one call of `step` reports.
#[derive(Debug)]
pub enum StepResult {
    /// Every live branch is waiting on an event or a stream.
    Idle,
    /// The whole tree is done.
    Finished { failed: bool },
    /// Internal work was done; call again.
    Progress,
    /// A queued termination signal: deliver no event for it.
    Kill { pid: usize },
    /// The branch issued an action; answer it with `deliver` unless it
    /// is a teardown.
    Acted { branch: usize, action: Action },
}

/// One branch's obligation across a step, seen from a branch that was
/// waiting for a stream to close: it is released (made runnable) exactly
/// when the stream is closed, stays put otherwise, and may only
/// otherwise be abandoned (failed) by its block's fail-fast policy.
pub open spec fn stream_wait_rule(b0: Branch, b1: Branch, e1: Env) -> bool {
    match b0.status {
        BranchStatus::WaitingStreamClose { id } => if spec_stream_closed(e1, id@) {
            b1.status is Runnable
        } else {
            b1.status == b0.status || b1.status is DoneFailed
        },
        _ => true,
    }
}

/// What waking the waiters of one stream does to a single branch:
/// data-waiters on the stream become runnable, close-waiters too when
/// the stream just closed, and every other branch is untouched.
pub open spec fn wake_rule(b0: Branch, b1: Branch, id: Seq<char>, also_close: bool) -> bool {
    match b0.status {
        BranchStatus::WaitingStreamData { id: sid } => if sid@ == id {
            b1 == Branch { status: BranchStatus::Runnable, ..b0 }
        } else {
            b1 == b0
        },
        BranchStatus::WaitingStreamClose { id: sid } => if also_close && sid@ == id {
            b1 == Branch { status: BranchStatus::Runnable, ..b0 }
        } else {
            b1 == b0
        },
        _ => b1 == b0,
    }
}

/// Two branch lists differ when some position differs.
proof fn lemma_branches_differ(s0: Seq<Branch>, s1: Seq<Branch>, j: int)
    requires
        0 <= j < s0.len(),
        j < s1.len(),
        s1[j] != s0[j],
    ensures
        s1 != s0,
{
}

/// What reporting a child's completion may do to another branch:
/// nothing, unless it was collecting children, in which case only its
/// status advances (fewer pending children, or failing, or resuming).
pub open spec fn parent_note_rule(b0: Branch, b1: Branch) -> bool {
    b1 == b0 || (b0.status is WaitingChildren && (b1.status is WaitingChildren || b1.status
        is Failing || b1.status is Runnable) && b1 == Branch { status: b1.status, ..b0 })
}

/// How delivering bytes to an output sink transforms the environment:
/// discarded bytes change nothing; captured bytes become the named
/// string's value; forwarded bytes are appended to the named stream if
/// it is still open (a closed stream rejects them, and an unreferenced
/// one is created open). Nothing else moves.
pub open spec fn route_rel(e0: Env, e1: Env, dst: Output, bytes: Seq<u8>) -> bool {
    match dst {
        Output::Ignore => e1 == e0,
        Output::CaptureString { id } => {
            &&& spec_string_of(e1.strings@, id@) == Some(bytes)
            &&& forall|other: Seq<char>|
                other != id@ ==> spec_string_of(e1.strings@, other) == spec_string_of(
                    e0.strings@,
                    other,
                )
            &&& e1.streams@ == e0.streams@
        },
        Output::ToStream { id } => {
            &&& e1.strings@ == e0.strings@
            &&& match spec_stream_of(e0.streams@, id@) {
                Some((c0, b0)) => if c0 {
                    spec_stream_of(e1.streams@, id@) == Some((c0, b0))
                } else {
                    spec_stream_of(e1.streams@, id@) == Some((c0, b0 + bytes))
                },
                None => spec_stream_of(e1.streams@, id@) == Some((false, bytes)),
            }
            &&& forall|other: Seq<char>|
                other != id@ ==> spec_stream_of(e1.streams@, other) == spec_stream_of(
                    e0.streams@,
                    other,
                )
        },
    }
}

/// What routing output may do to a branch: wake a data-waiter, nothing
/// else; close-waiters stay exactly as they were.
pub open spec fn route_frame_rule(b0: Branch, b1: Branch) -> bool {
    match b0.status {
        BranchStatus::WaitingStreamData { .. } => b1 == b0 || b1 == Branch {
            status: BranchStatus::Runnable,
            ..b0
        },
        _ => b1 == b0,
    }
}

/// The next directive a branch would execute: the head of its top
/// frame, if any.
pub open spec fn spec_head(e: Engine, b: int) -> Option<Directive> {
    if e.branches@[b].frames@.len() == 0 {
        None
    } else if e.branches@[b].frames@.last().rest@.len() == 0 {
        None
    } else {
        Some(e.branches@[b].frames@.last().rest@[0])
    }
}

/// A branch the scheduler has work for: runnable or failing, a
/// sequential-fork replica whose predecessor finished, or a branch
/// abandoned by its block's fail-fast policy.
pub open spec fn spec_schedulable(e: Engine, j: int) -> bool {
    ||| e.branches@[j].status is Runnable
    ||| e.branches@[j].status is Failing
    ||| (e.branches@[j].status matches BranchStatus::WaitingTurn { prev }
        && (e.branches@[prev as int].status is DoneOk || e.branches@[prev as int].status
        is DoneFailed))
    ||| (!(e.branches@[j].status is DoneOk) && !(e.branches@[j].status is DoneFailed)
        && e.branches@[j].flags.finish_on_first_fail && (e.branches@[j].parent matches Some(p)
        && e.branches@[p as int].status matches BranchStatus::WaitingChildren { any_failed, .. }
        && any_failed))
}

/// Branch `b2` is about to close the named stream: it is runnable and
/// its next directive is `CloseStream` on that name.
pub open spec fn closes_stream(e: Engine, b2: int, sid: Seq<char>) -> bool {
    &&& 0 <= b2 < e.branches@.len()
    &&& e.branches@[b2].status is Runnable
    &&& spec_head(e, b2) matches Some(Directive::CloseStream { id }) && id@ == sid
}

/// The issued action corresponds to the scheduled branch's next
/// directive (or, for a teardown, to its finished nested frame): the
/// action's fields are the directive's, its case is the branch's, its
/// payload bytes are the directive's resolved input, and fresh process
/// and case ids come from the engine's counters.
pub open spec fn action_for(e0: Engine, e1: Engine, b: int, action: Action) -> bool {
    match action {
        Action::DoTeardown { case } => {
            &&& e0.branches@[b].frames@.len() > 0
            &&& e0.branches@[b].frames@.last().rest@.len() == 0
            &&& e0.branches@[b].frames@.last().teardown matches Some((tc, _)) && tc == case
        },
        Action::DoWriteFile { case, file, bytes, append, exists } => {
            &&& case == e0.branches@[b].case
            &&& spec_head(e0, b) matches Some(
                Directive::WriteFile { file: f2, src, append: a2, exists: x2 },
            ) && f2@ == file@ && a2 == append && x2 == exists && collect_rel(
                e0.env,
                e1.env,
                src,
                Some(bytes@),
                MAX_NEST as nat,
            )
        },
        Action::DoReadFile { case, file } => {
            &&& case == e0.branches@[b].case
            &&& spec_head(e0, b) matches Some(Directive::OutputFile { file: f2, .. }) && f2@
                == file@
        },
        Action::DoRun { case, pid, bin, cwd, user, args, env_vars, stdin } => {
            &&& case == e0.branches@[b].case
            &&& pid == e0.next_pid
            &&& spec_head(e0, b) matches Some(Directive::Run { run }) && run.bin@ == bin@
                && run.cwd@ == cwd@ && run.user == user && args@.len() == run.args@.len()
                && env_vars@.len() == run.env@.len() && (exists|em: Env|
                #[trigger] collect_rel(e0.env, em, run.stdin, Some(stdin@), MAX_NEST as nat))
        },
        Action::DoSpawn { case, diffs } => {
            &&& case == e0.next_case
            &&& spec_head(e0, b) matches Some(Directive::SpawnContainer { directives, diffs: d2 })
                && d2@ == diffs@
        },
        Action::DoKill { .. } => false,
    }
}

/// What the scheduler found to do.
enum WorkItem {
    CancelB(usize),
    TurnB(usize),
    FailingB(usize),
    ExecB(usize),
}

/// The staging engine for one instance: the branches of its directive
/// tree, its environment, and its process bookkeeping.
pub struct Engine {
    pub branches: Vec<Branch>,
    pub env: Env,
    /// How many case containers the instance owns.
    pub cases: usize,
    /// The next fresh case index for nested containers.
    pub next_case: usize,
    /// The next fresh process id.
    pub next_pid: usize,
    /// Pids of processes started and not yet exited or killed.
    pub live: Vec<usize>,
    /// Pids queued for a termination signal; drained before anything
    /// else runs.
    pub kills: Vec<usize>,
    /// Set once a failure under `stop_file_io_on_first_fail` happened:
    /// further file directives fail without touching the filesystem.
    pub io_stopped: bool,
    /// The root branch failed.
    pub root_failed: bool,
}

impl Engine {
    /// Branch-local well-formedness: a close-waiter's stream is still
    /// open, and parent and turn links point at earlier branches.
    pub open spec fn wf_branch(&self, j: int) -> bool {
        &&& match self.branches@[j].status {
            BranchStatus::WaitingStreamClose { id } => !spec_stream_closed(self.env, id@),
            BranchStatus::WaitingTurn { prev } => prev < j,
            _ => true,
        }
        &&& match self.branches@[j].parent {
            Some(p) => p < j,
            None => true,
        }
    }

    /// The engine invariant: there is a root branch, and every branch is
    /// locally well-formed.
    pub open spec fn wf(&self) -> bool {
        &&& self.branches@.len() >= 1
        &&& forall|j: int| 0 <= j < self.branches@.len() ==> #[trigger] self.wf_branch(j)
    }

    /// Swap one branch for a new value, leaving everything else alone.
    fn replace_branch(&mut self, b: usize, br: Branch)
        requires
            b < old(self).branches@.len(),
        ensures
            final(self).branches@ == old(self).branches@.update(b as int, br),
            final(self).env == old(self).env,
            final(self).cases == old(self).cases,
            final(self).next_case == old(self).next_case,
            final(self).next_pid == old(self).next_pid,
            final(self).live@ == old(self).live@,
            final(self).kills@ == old(self).kills@,
            final(self).io_stopped == old(self).io_stopped,
            final(self).root_failed == old(self).root_failed,
    {
        let _old = self.branches.remove(b);
        self.branches.insert(b, br);
        proof {
            assert(self.branches@ =~= old(self).branches@.update(b as int, br));
        }
    }

    /// Release the branches blocked on the named stream: data-waiters
    /// always, close-waiters only when the stream just closed.
    fn wake_waiters(&mut self, id: &String, also_close: bool)
        ensures
            final(self).branches@.len() == old(self).branches@.len(),
            forall|j: int|
                0 <= j < old(self).branches@.len() ==> #[trigger] wake_rule(
                    old(self).branches@[j],
                    final(self).branches@[j],
                    id@,
                    also_close,
                ),
            final(self).env == old(self).env,
            final(self).cases == old(self).cases,
            final(self).next_case == old(self).next_case,
            final(self).next_pid == old(self).next_pid,
            final(self).live@ == old(self).live@,
            final(self).kills@ == old(self).kills@,
            final(self).io_stopped == old(self).io_stopped,
            final(self).root_failed == old(self).root_failed,
    {
        let n = self.branches.len();
        let mut j: usize = 0;
        while j < n
            invariant
                j <= n,
                n == self.branches@.len(),
                n == old(self).branches@.len(),
                self.env == old(self).env,
                self.cases == old(self).cases,
                self.next_case == old(self).next_case,
                self.next_pid == old(self).next_pid,
                self.live@ == old(self).live@,
                self.kills@ == old(self).kills@,
                self.io_stopped == old(self).io_stopped,
                self.root_failed == old(self).root_failed,
                forall|k: int| j <= k < n ==> self.branches@[k] == old(self).branches@[k],
                forall|k: int|
                    0 <= k < j ==> #[trigger] wake_rule(
                        old(self).branches@[k],
                        self.branches@[k],
                        id@,
                        also_close,
                    ),
            decreases n - j,
        {
            let wake = match &self.branches[j].status {
                BranchStatus::WaitingStreamData { id: sid } => *sid == *id,
                BranchStatus::WaitingStreamClose { id: sid } => also_close && *sid == *id,
                _ => false,
            };
            if wake {
                let ghost pre = self.branches@;
                let mut br = self.branches.remove(j);
                br.status = BranchStatus::Runnable;
                let ghost brv = br;
                self.branches.insert(j, br);
                proof {
                    assert(self.branches@ =~= pre.update(j as int, brv));
                }
            }
            j = j + 1;
        }
    }

    /// Move every live process id into the kill queue; nothing already
    /// queued is forgotten.
    fn queue_all_kills(&mut self)
        ensures
            final(self).live@.len() == 0,
            final(self).branches@ == old(self).branches@,
            final(self).env == old(self).env,
            final(self).cases == old(self).cases,
            final(self).next_case == old(self).next_case,
            final(self).next_pid == old(self).next_pid,
            final(self).io_stopped == old(self).io_stopped,
            final(self).root_failed == old(self).root_failed,
            forall|k: int|
                0 <= k < old(self).kills@.len() ==> final(self).kills@.contains(
                    #[trigger] old(self).kills@[k],
                ),
            forall|k: int|
                0 <= k < old(self).live@.len() ==> final(self).kills@.contains(
                    #[trigger] old(self).live@[k],
                ),
    {
        let ghost live0 = self.live@;
        let ghost kills0 = self.kills@;
        while self.live.len() > 0
            invariant
                live0 == old(self).live@,
                kills0 == old(self).kills@,
                self.live@.len() <= live0.len(),
                self.branches@ == old(self).branches@,
                self.env == old(self).env,
                self.cases == old(self).cases,
                self.next_case == old(self).next_case,
                self.next_pid == old(self).next_pid,
                self.io_stopped == old(self).io_stopped,
                self.root_failed == old(self).root_failed,
                forall|k: int|
                    0 <= k < kills0.len() ==> self.kills@.contains(#[trigger] kills0[k]),
                forall|k: int|
                    0 <= k < live0.len() ==> self.live@.contains(#[trigger] live0[k])
                        || self.kills@.contains(#[trigger] live0[k]),
            decreases self.live@.len(),
        {
            let ghost lpre = self.live@;
            let ghost kpre = self.kills@;
            let last = self.live.len() - 1;
            let pid = self.live[last];
            self.live.truncate(last);
            self.kills.push(pid);
            proof {
                assert(self.live@ =~= lpre.drop_last());
                assert forall|k: int|
                    0 <= k < live0.len() implies self.live@.contains(#[trigger] live0[k])
                    || self.kills@.contains(live0[k]) by {
                    if lpre.contains(live0[k]) {
                        let w = choose|w: int| 0 <= w < lpre.len() && lpre[w] == live0[k];
                        if w < lpre.len() - 1 {
                            assert(self.live@[w] == live0[k]);
                        } else {
                            assert(self.kills@[self.kills@.len() - 1] == live0[k]);
                        }
                    } else {
                        let w = choose|w: int| 0 <= w < kpre.len() && kpre[w] == live0[k];
                        assert(self.kills@[w] == live0[k]);
                    }
                }
                assert forall|k: int|
                    0 <= k < kills0.len() implies self.kills@.contains(#[trigger] kills0[k]) by {
                    let w = choose|w: int| 0 <= w < kpre.len() && kpre[w] == kills0[k];
                    assert(self.kills@[w] == kills0[k]);
                }
            }
        }
    }

    /// Mark the branch failed, apply its block's fail-fast flags (queue
    /// kills for every live process, stop file I/O), and report the
    /// failure to its parent or, for the root, to the engine.
    fn fail_branch(&mut self, b: usize)
        requires
            old(self).wf(),
            b < old(self).branches@.len(),
        ensures
            final(self).wf(),
            final(self).branches@.len() == old(self).branches@.len(),
            final(self).env == old(self).env,
            final(self).branches@[b as int].status is DoneFailed,
            forall|j: int|
                0 <= j < old(self).branches@.len() && j != b ==> #[trigger] parent_note_rule(
                    old(self).branches@[j],
                    final(self).branches@[j],
                ),
            forall|k: int|
                0 <= k < old(self).kills@.len() ==> final(self).kills@.contains(
                    #[trigger] old(self).kills@[k],
                ),
            final(self).live@.len() <= old(self).live@.len(),
            old(self).branches@[b as int].flags.kill_on_first_fail ==> forall|k: int|
                0 <= k < old(self).live@.len() ==> final(self).kills@.contains(
                    #[trigger] old(self).live@[k],
                ),
    {
        let ghost pre = self.branches@;
        let mut br = self.branches.remove(b);
        let flags = br.flags;
        let parent = br.parent;
        br.status = BranchStatus::DoneFailed;
        br.pending = None;
        let ghost brv = br;
        self.branches.insert(b, br);
        proof {
            assert(self.branches@ =~= pre.update(b as int, brv));
        }
        let ghost kills_mid = self.kills@;
        let ghost live_mid = self.live@;
        if flags.kill_on_first_fail {
            self.queue_all_kills();
            proof {
                assert(kills_mid == old(self).kills@);
                assert(live_mid == old(self).live@);
                assert forall|k: int|
                    0 <= k < old(self).kills@.len() implies self.kills@.contains(
                    #[trigger] old(self).kills@[k],
                ) by {
                    assert(self.kills@.contains(kills_mid[k]));
                }
                assert forall|k: int|
                    0 <= k < old(self).live@.len() implies self.kills@.contains(
                    #[trigger] old(self).live@[k],
                ) by {
                    assert(self.kills@.contains(live_mid[k]));
                }
            }
        }
        if flags.stop_file_io_on_first_fail {
            self.io_stopped = true;
        }
        match parent {
            None => {
                self.root_failed = true;
            },
            Some(p) => {
                proof {
                    assert(old(self).wf_branch(b as int));
                }
                let note = match &self.branches[p].status {
                    BranchStatus::WaitingChildren { pending, any_failed } => Some(*pending),
                    _ => None,
                };
                if let Some(pend) = note {
                    let np = if pend > 0 {
                        pend - 1
                    } else {
                        0
                    };
                    let ghost pre2 = self.branches@;
                    let mut pb = self.branches.remove(p);
                    pb.status = if np == 0 {
                        BranchStatus::Failing
                    } else {
                        BranchStatus::WaitingChildren { pending: np, any_failed: true }
                    };
                    let ghost pbv = pb;
                    self.branches.insert(p, pb);
                    proof {
                        assert(self.branches@ =~= pre2.update(p as int, pbv));
                    }
                }
            },
        }
        proof {
            assert forall|j: int| 0 <= j < self.branches@.len() implies #[trigger] self.wf_branch(
                j,
            ) by {
                assert(old(self).wf_branch(j));
            }
        }
    }

    /// Mark the branch successfully finished and report the completion
    /// to its parent: the parent resumes once its last child is done,
    /// failing if any child failed.
    fn complete_branch(&mut self, b: usize)
        requires
            old(self).wf(),
            b < old(self).branches@.len(),
        ensures
            final(self).wf(),
            final(self).branches@.len() == old(self).branches@.len(),
            final(self).env == old(self).env,
            final(self).kills@ == old(self).kills@,
            final(self).live@ == old(self).live@,
            final(self).branches@[b as int].status is DoneOk,
            forall|j: int|
                0 <= j < old(self).branches@.len() && j != b ==> #[trigger] parent_note_rule(
                    old(self).branches@[j],
                    final(self).branches@[j],
                ),
    {
        let ghost pre = self.branches@;
        let mut br = self.branches.remove(b);
        let parent = br.parent;
        br.status = BranchStatus::DoneOk;
        br.pending = None;
        let ghost brv = br;
        self.branches.insert(b, br);
        proof {
            assert(self.branches@ =~= pre.update(b as int, brv));
        }
        match parent {
            None => {},
            Some(p) => {
                proof {
                    assert(old(self).wf_branch(b as int));
                }
                let note = match &self.branches[p].status {
                    BranchStatus::WaitingChildren { pending, any_failed } => Some(
                        (*pending, *any_failed),
                    ),
                    _ => None,
                };
                if let Some((pend, anyf)) = note {
                    let np = if pend > 0 {
                        pend - 1
                    } else {
                        0
                    };
                    let ghost pre2 = self.branches@;
                    let mut pb = self.branches.remove(p);
                    pb.status = if np == 0 {
                        if anyf {
                            BranchStatus::Failing
                        } else {
                            BranchStatus::Runnable
                        }
                    } else {
                        BranchStatus::WaitingChildren { pending: np, any_failed: anyf }
                    };
                    let ghost pbv = pb;
                    self.branches.insert(p, pb);
                    proof {
                        assert(self.branches@ =~= pre2.update(p as int, pbv));
                    }
                }
            },
        }
        proof {
            assert forall|j: int| 0 <= j < self.branches@.len() implies #[trigger] self.wf_branch(
                j,
            ) by {
                assert(old(self).wf_branch(j));
            }
        }
    }

    /// Forget a process that exited on its own.
    fn remove_live(&mut self, pid: usize)
        ensures
            final(self).branches@ == old(self).branches@,
            final(self).env == old(self).env,
            final(self).kills@ == old(self).kills@,
            final(self).cases == old(self).cases,
            final(self).next_case == old(self).next_case,
            final(self).next_pid == old(self).next_pid,
            final(self).io_stopped == old(self).io_stopped,
            final(self).root_failed == old(self).root_failed,
            forall|k: int|
                0 <= k < old(self).live@.len() && old(self).live@[k] != pid
                    ==> final(self).live@.contains(#[trigger] old(self).live@[k]),
    {
        let ghost live0 = self.live@;
        let mut i: usize = 0;
        while i < self.live.len()
            invariant
                i <= self.live@.len(),
                self.live@ == live0,
                live0 == old(self).live@,
                self.branches@ == old(self).branches@,
                self.env == old(self).env,
                self.kills@ == old(self).kills@,
                self.cases == old(self).cases,
                self.next_case == old(self).next_case,
                self.next_pid == old(self).next_pid,
                self.io_stopped == old(self).io_stopped,
                self.root_failed == old(self).root_failed,
            decreases self.live@.len() - i,
        {
            if self.live[i] == pid {
                self.live.remove(i);
                proof {
                    assert forall|k: int|
                        0 <= k < live0.len() && live0[k] != pid implies self.live@.contains(
                        #[trigger] live0[k],
                    ) by {
                        if k < i {
                            assert(self.live@[k] == live0[k]);
                        } else if k > i {
                            assert(self.live@[k - 1] == live0[k]);
                        }
                    }
                }
                return ;
            }
            i = i + 1;
        }
    }

    /// Deliver bytes to an output sink: discard them, capture them as a
    /// named string, or append them to a named stream (waking its
    /// data-waiters), exactly as `route_rel` states. No stream changes
    /// between open and closed, and no close-waiter moves.
    fn route_output(&mut self, dst: Output, bytes: Vec<u8>)
        ensures
            final(self).branches@.len() == old(self).branches@.len(),
            old(self).wf() ==> final(self).wf(),
            streams_closedness_unchanged(old(self).env, final(self).env),
            route_rel(old(self).env, final(self).env, dst, bytes@),
            forall|j: int|
                0 <= j < old(self).branches@.len() ==> #[trigger] route_frame_rule(
                    old(self).branches@[j],
                    final(self).branches@[j],
                ),
            final(self).kills@ == old(self).kills@,
            final(self).live@ == old(self).live@,
            final(self).cases == old(self).cases,
            final(self).next_case == old(self).next_case,
            final(self).next_pid == old(self).next_pid,
            final(self).io_stopped == old(self).io_stopped,
            final(self).root_failed == old(self).root_failed,
    {
        match dst {
            Output::Ignore => {
                proof {
                    assert forall|j: int|
                        0 <= j < old(self).branches@.len() implies #[trigger] route_frame_rule(
                        old(self).branches@[j],
                        self.branches@[j],
                    ) by {}
                    if old(self).wf() {
                        assert forall|j: int|
                            0 <= j < self.branches@.len() implies #[trigger] self.wf_branch(
                            j,
                        ) by {
                            assert(old(self).wf_branch(j));
                        }
                    }
                }
            },
            Output::CaptureString { id } => {
                self.env.set_string(&id, bytes);
                proof {
                    assert(streams_closedness_unchanged(old(self).env, self.env));
                    assert forall|j: int|
                        0 <= j < old(self).branches@.len() implies #[trigger] route_frame_rule(
                        old(self).branches@[j],
                        self.branches@[j],
                    ) by {}
                    if old(self).wf() {
                        assert forall|j: int|
                            0 <= j < self.branches@.len() implies #[trigger] self.wf_branch(
                            j,
                        ) by {
                            assert(old(self).wf_branch(j));
                        }
                    }
                }
            },
            Output::ToStream { id } => {
                let ghost mid = *self;
                let _accepted = self.env.feed_stream(&id, bytes.as_slice());
                let ghost mid2 = *self;
                self.wake_waiters(&id, false);
                proof {
                    assert forall|j: int|
                        0 <= j < old(self).branches@.len() implies #[trigger] route_frame_rule(
                        old(self).branches@[j],
                        self.branches@[j],
                    ) by {
                        assert(wake_rule(mid2.branches@[j], self.branches@[j], id@, false));
                        assert(mid2.branches@[j] == old(self).branches@[j]);
                    }
                    if old(self).wf() {
                        assert forall|j: int|
                            0 <= j < self.branches@.len() implies #[trigger] self.wf_branch(
                            j,
                        ) by {
                            assert(old(self).wf_branch(j));
                            assert(wake_rule(mid2.branches@[j], self.branches@[j], id@, false));
                            assert(mid2.branches@[j] == old(self).branches@[j]);
                        }
                    }
                }
            },
        }
    }

    /// An engine over one instance's staging tree: a single root branch,
    /// runnable at the head of the whole program, an empty environment,
    /// and `cases` case containers.
    pub fn new(staging: Vec<Directive>, cases: usize) -> (r: Engine)
        ensures
            r.wf(),
            r.branches@.len() == 1,
            r.branches@[0].status is Runnable,
            r.branches@[0].frames@.len() == 1,
            r.branches@[0].frames@[0].rest == staging,
            r.branches@[0].case == 0,
            r.branches@[0].parent is None,
            r.cases == cases,
            r.env.strings@.len() == 0,
            r.env.streams@.len() == 0,
            r.live@.len() == 0,
            r.kills@.len() == 0,
            !r.io_stopped,
            !r.root_failed,
    {
        let root = Branch {
            frames: vec![Frame { rest: staging, teardown: None }],
            status: BranchStatus::Runnable,
            case: 0,
            parent: None,
            flags: SimulFlags {
                finish_on_first_fail: false,
                kill_on_first_fail: false,
                stop_file_io_on_first_fail: false,
            },
            pending: None,
        };
        let r = Engine {
            branches: vec![root],
            env: Env::new(),
            cases,
            next_case: cases,
            next_pid: 0,
            live: Vec::new(),
            kills: Vec::new(),
            io_stopped: false,
            root_failed: false,
        };
        r
    }

    /// Drive the engine by one step: drain one queued kill, finish when
    /// the root branch is done, cancel one abandoned branch, resolve one
    /// turn, or execute one directive of the first runnable branch.
    ///
    /// A branch blocked on `WaitStream` is released exactly when the
    /// awaited stream closes (`stream_wait_rule`); a stream once closed
    /// stays closed; and queued termination signals are issued before
    /// any further directive runs.
    pub fn step(&mut self) -> (r: StepResult)
        requires
            old(self).wf(),
        ensures
            final(self).wf(),
            final(self).branches@.len() >= old(self).branches@.len(),
            forall|sid: Seq<char>|
                spec_stream_closed(old(self).env, sid) ==> spec_stream_closed(
                    final(self).env,
                    sid,
                ),
            forall|j: int|
                0 <= j < old(self).branches@.len() ==> #[trigger] stream_wait_rule(
                    old(self).branches@[j],
                    final(self).branches@[j],
                    final(self).env,
                ),
            old(self).kills@.len() > 0 ==> (r matches StepResult::Kill { pid } && old(
                self,
            ).kills@.contains(pid)),
            r is Kill ==> old(self).kills@.len() > 0
                && final(self).branches@ == old(self).branches@
                && final(self).env == old(self).env,
            r is Finished ==> old(self).kills@.len() == 0 && (old(self).branches@[0].status
                is DoneOk || old(self).branches@[0].status is DoneFailed) && final(self).branches@
                == old(self).branches@ && final(self).env == old(self).env,
            (old(self).kills@.len() == 0 && (old(self).branches@[0].status is DoneOk
                || old(self).branches@[0].status is DoneFailed)) ==> r is Finished,
            r matches StepResult::Finished { failed } ==> failed == (
            old(self).branches@[0].status is DoneFailed || old(self).root_failed),
            r is Idle ==> (forall|j: int|
                0 <= j < old(self).branches@.len() ==> !spec_schedulable(*old(self), j))
                && final(self).branches@ == old(self).branches@
                && final(self).env == old(self).env,
            r is Progress ==> final(self).branches@ != old(self).branches@,
            r matches StepResult::Acted { branch, action } ==> branch
                < old(self).branches@.len()
                && old(self).branches@[branch as int].status is Runnable
                && action_for(*old(self), *final(self), branch as int, action),
            forall|sid: Seq<char>|
                spec_stream_closed(final(self).env, sid) && !spec_stream_closed(
                    old(self).env,
                    sid,
                ) ==> exists|b2: int| #[trigger] closes_stream(*old(self), b2, sid),
    {
        if self.kills.len() > 0 {
            let last = self.kills.len() - 1;
            let pid = self.kills[last];
            self.kills.truncate(last);
            proof {
                assert(old(self).kills@[last as int] == pid);
                assert(old(self).kills@.contains(pid));
                assert forall|k2: int|
                    0 <= k2 < self.branches@.len() implies #[trigger] self.wf_branch(k2) by {
                    assert(old(self).wf_branch(k2));
                }
                assert forall|j: int|
                    0 <= j < old(self).branches@.len() implies #[trigger] stream_wait_rule(
                    old(self).branches@[j],
                    self.branches@[j],
                    self.env,
                ) by {
                    assert(old(self).wf_branch(j));
                }
            }
            return StepResult::Kill { pid };
        }
        let root_done = matches!(
            self.branches[0].status,
            BranchStatus::DoneOk | BranchStatus::DoneFailed
        );
        if root_done {
            let failed = matches!(self.branches[0].status, BranchStatus::DoneFailed)
                || self.root_failed;
            proof {
                assert forall|j: int|
                    0 <= j < old(self).branches@.len() implies #[trigger] stream_wait_rule(
                    old(self).branches@[j],
                    self.branches@[j],
                    self.env,
                ) by {
                    assert(old(self).wf_branch(j));
                }
            }
            return StepResult::Finished { failed };
        }
        let n = self.branches.len();
        let mut found: Option<WorkItem> = None;
        let mut j: usize = 0;
        while j < n && found.is_none()
            invariant
                n == self.branches@.len(),
                j <= n,
                self.wf(),
                *self == *old(self),
                found is None ==> forall|k: int| 0 <= k < j ==> !spec_schedulable(*self, k),
                match found {
                    Some(WorkItem::CancelB(b)) => b < n && !(self.branches@[b as int].status
                        is DoneOk) && !(self.branches@[b as int].status is DoneFailed),
                    Some(WorkItem::TurnB(b)) => b < n && self.branches@[b as int].status
                        is WaitingTurn,
                    Some(WorkItem::FailingB(b)) => b < n && self.branches@[b as int].status
                        is Failing,
                    Some(WorkItem::ExecB(b)) => b < n && self.branches@[b as int].status
                        is Runnable,
                    None => true,
                },
            decreases n - j,
        {
            let parent = self.branches[j].parent;
            let flags = self.branches[j].flags;
            let jdone = matches!(
                self.branches[j].status,
                BranchStatus::DoneOk | BranchStatus::DoneFailed
            );
            let mut cancel = false;
            if !jdone && flags.finish_on_first_fail {
                if let Some(p) = parent {
                    proof {
                        assert(self.wf_branch(j as int));
                    }
                    cancel = match &self.branches[p].status {
                        BranchStatus::WaitingChildren { any_failed, .. } => *any_failed,
                        _ => false,
                    };
                }
            }
            if cancel {
                found = Some(WorkItem::CancelB(j));
            } else {
                match &self.branches[j].status {
                    BranchStatus::Runnable => {
                        found = Some(WorkItem::ExecB(j));
                    },
                    BranchStatus::Failing => {
                        found = Some(WorkItem::FailingB(j));
                    },
                    BranchStatus::WaitingTurn { prev } => {
                        let pv = *prev;
                        proof {
                            assert(self.wf_branch(j as int));
                        }
                        if matches!(
                            self.branches[pv].status,
                            BranchStatus::DoneOk | BranchStatus::DoneFailed
                        ) {
                            found = Some(WorkItem::TurnB(j));
                        }
                    },
                    _ => {},
                }
            }
            proof {
                if found is None {
                    assert(!spec_schedulable(*self, j as int));
                }
            }
            j = j + 1;
        }
        match found {
            None => {
                proof {
                    assert forall|k: int|
                        0 <= k < old(self).branches@.len() implies #[trigger] stream_wait_rule(
                        old(self).branches@[k],
                        self.branches@[k],
                        self.env,
                    ) by {
                        assert(old(self).wf_branch(k));
                    }
                }
                StepResult::Idle
            },
            Some(WorkItem::CancelB(b)) => {
                self.fail_branch(b);
                proof {
                    assert(self.branches@[b as int] != old(self).branches@[b as int]);
                    lemma_branches_differ(old(self).branches@, self.branches@, b as int);
                    assert forall|k: int|
                        0 <= k < old(self).branches@.len() implies #[trigger] stream_wait_rule(
                        old(self).branches@[k],
                        self.branches@[k],
                        self.env,
                    ) by {
                        assert(old(self).wf_branch(k));
                        if k != b {
                            assert(parent_note_rule(old(self).branches@[k], self.branches@[k]));
                        }
                    }
                }
                StepResult::Progress
            },
            Some(WorkItem::FailingB(b)) => {
                self.fail_branch(b);
                proof {
                    assert(self.branches@[b as int] != old(self).branches@[b as int]);
                    lemma_branches_differ(old(self).branches@, self.branches@, b as int);
                    assert forall|k: int|
                        0 <= k < old(self).branches@.len() implies #[trigger] stream_wait_rule(
                        old(self).branches@[k],
                        self.branches@[k],
                        self.env,
                    ) by {
                        assert(old(self).wf_branch(k));
                        if k != b {
                            assert(parent_note_rule(old(self).branches@[k], self.branches@[k]));
                        }
                    }
                }
                StepResult::Progress
            },
            Some(WorkItem::TurnB(b)) => {
                let ghost pre = self.branches@;
                let mut br = self.branches.remove(b);
                br.status = BranchStatus::Runnable;
                let ghost brv = br;
                self.branches.insert(b, br);
                proof {
                    assert(self.branches@ =~= pre.update(b as int, brv));
                    assert(self.branches@[b as int] != old(self).branches@[b as int]);
                    lemma_branches_differ(old(self).branches@, self.branches@, b as int);
                    assert forall|k: int|
                        0 <= k < old(self).branches@.len() implies #[trigger] stream_wait_rule(
                        old(self).branches@[k],
                        self.branches@[k],
                        self.env,
                    ) by {
                        assert(old(self).wf_branch(k));
                    }
                    assert forall|k: int|
                        0 <= k < self.branches@.len() implies #[trigger] self.wf_branch(k) by {
                        assert(old(self).wf_branch(k));
                    }
                }
                StepResult::Progress
            },
            Some(WorkItem::ExecB(b)) => self.exec_runnable(b),
        }
    }

    /// Execute one directive of a runnable branch.
    #[verifier::rlimit(100)]
    fn exec_runnable(&mut self, b: usize) -> (r: StepResult)
        requires
            old(self).wf(),
            b < old(self).branches@.len(),
            old(self).branches@[b as int].status is Runnable,
        ensures
            final(self).wf(),
            final(self).branches@.len() >= old(self).branches@.len(),
            forall|sid: Seq<char>|
                spec_stream_closed(old(self).env, sid) ==> spec_stream_closed(
                    final(self).env,
                    sid,
                ),
            forall|j: int|
                0 <= j < old(self).branches@.len() ==> #[trigger] stream_wait_rule(
                    old(self).branches@[j],
                    final(self).branches@[j],
                    final(self).env,
                ),
            r is Progress || r is Acted,
            r is Progress ==> final(self).branches@ != old(self).branches@,
            r matches StepResult::Acted { branch, action } ==> branch == b && action_for(
                *old(self),
                *final(self),
                b as int,
                action,
            ),
            forall|sid: Seq<char>|
                spec_stream_closed(final(self).env, sid) && !spec_stream_closed(
                    old(self).env,
                    sid,
                ) ==> exists|b2: int| #[trigger] closes_stream(*old(self), b2, sid),
    {
        let ghost pre = self.branches@;
        let mut br = self.branches.remove(b);
        if br.frames.len() == 0 {
            self.branches.insert(b, br);
            proof {
                assert(self.branches@ =~= pre);
                assert(self.wf()) by {
                    assert forall|k: int|
                        0 <= k < self.branches@.len() implies #[trigger] self.wf_branch(k) by {
                        assert(old(self).wf_branch(k));
                    }
                }
            }
            self.complete_branch(b);
            proof {
                assert(self.branches@[b as int] != old(self).branches@[b as int]);
                lemma_branches_differ(old(self).branches@, self.branches@, b as int);
                assert forall|k: int|
                    0 <= k < old(self).branches@.len() implies #[trigger] stream_wait_rule(
                    old(self).branches@[k],
                    self.branches@[k],
                    self.env,
                ) by {
                    assert(old(self).wf_branch(k));
                    if k != b {
                        assert(parent_note_rule(old(self).branches@[k], self.branches@[k]));
                    }
                }
            }
            return StepResult::Progress;
        }
        let fidx = br.frames.len() - 1;
        let mut frame = br.frames.remove(fidx);
        if frame.rest.len() == 0 {
            let td = frame.teardown;
            match td {
                Some((tcase, rcase)) => {
                    br.case = rcase;
                    let ghost brv = br;
                    self.branches.insert(b, br);
                    proof {
                        assert(self.branches@ =~= pre.update(b as int, brv));
                        self.lemma_local_change(*old(self), b as int);
                    }
                    let action = Action::DoTeardown { case: tcase };
                    proof {
                        assert(action_for(*old(self), *self, b as int, action));
                    }
                    return StepResult::Acted { branch: b, action };
                },
                None => {
                    let ghost brv = br;
                    self.branches.insert(b, br);
                    proof {
                        assert(self.branches@ =~= pre.update(b as int, brv));
                        self.lemma_local_change(*old(self), b as int);
                        assert(brv.frames@.len() + 1 == old(self).branches@[b as int].frames@.len());
                        assert(self.branches@[b as int] != old(self).branches@[b as int]);
                        lemma_branches_differ(old(self).branches@, self.branches@, b as int);
                    }
                    return StepResult::Progress;
                },
            }
        }
        let d = frame.rest.remove(0);
        let ghost dg = d;
        proof {
            assert(spec_head(*old(self), b as int) == Some(dg));
        }
        br.frames.push(frame);
        match d {
            Directive::CloseStream { id } => {
                let ghost brv = br;
                self.branches.insert(b, br);
                let ghost mid = *self;
                proof {
                    assert(self.branches@ =~= pre.update(b as int, brv));
                }
                self.env.close_stream(&id);
                let ghost mid2 = *self;
                self.wake_waiters(&id, true);
                proof {
                    assert forall|sid: Seq<char>|
                        spec_stream_closed(self.env, sid) && !spec_stream_closed(
                            old(self).env,
                            sid,
                        ) implies exists|b2: int| #[trigger] closes_stream(*old(self), b2, sid) by {
                        if sid == id@ {
                            assert(closes_stream(*old(self), b as int, sid));
                        }
                    }
                    assert forall|k: int|
                        0 <= k < old(self).branches@.len() implies #[trigger] stream_wait_rule(
                        old(self).branches@[k],
                        self.branches@[k],
                        self.env,
                    ) by {
                        assert(old(self).wf_branch(k));
                        assert(wake_rule(mid2.branches@[k], self.branches@[k], id@, true));
                        if k != b {
                            assert(mid2.branches@[k] == old(self).branches@[k]);
                        }
                    }
                    assert forall|k: int|
                        0 <= k < self.branches@.len() implies #[trigger] self.wf_branch(k) by {
                        assert(old(self).wf_branch(k));
                        assert(wake_rule(mid2.branches@[k], self.branches@[k], id@, true));
                        if k != b {
                            assert(mid2.branches@[k] == old(self).branches@[k]);
                        }
                    }
                    assert(wake_rule(mid2.branches@[b as int], self.branches@[b as int], id@, true));
                    assert(self.branches@[b as int] == brv);
                    assert(brv.frames@.last().rest@.len() + 1 == old(
                        self,
                    ).branches@[b as int].frames@.last().rest@.len());
                    assert(self.branches@[b as int] != old(self).branches@[b as int]);
                    lemma_branches_differ(old(self).branches@, self.branches@, b as int);
                }
                StepResult::Progress
            },
            Directive::WaitStream { id } => {
                let closed = self.env.stream_is_closed(&id);
                if !closed {
                    br.status = BranchStatus::WaitingStreamClose { id };
                }
                let ghost brv = br;
                self.branches.insert(b, br);
                proof {
                    assert(self.branches@ =~= pre.update(b as int, brv));
                    self.lemma_local_change(*old(self), b as int);
                    assert(self.branches@[b as int] != old(self).branches@[b as int]) by {
                        if self.branches@[b as int].status is Runnable {
                            assert(brv.frames@.last().rest@.len() + 1 == old(
                                self,
                            ).branches@[b as int].frames@.last().rest@.len());
                        }
                    }
                    lemma_branches_differ(old(self).branches@, self.branches@, b as int);
                }
                StepResult::Progress
            },
            Directive::WriteFile { file, src, append, exists } => {
                if self.io_stopped {
                    let ghost brv = br;
                    self.branches.insert(b, br);
                    proof {
                        assert(self.branches@ =~= pre.update(b as int, brv));
                        self.lemma_local_change(*old(self), b as int);
                    }
                    let ghost mid = *self;
                    self.fail_branch(b);
                    proof {
                        self.lemma_fail_frame(*old(self), mid, b as int);
                        assert(self.branches@[b as int] != old(self).branches@[b as int]);
                        lemma_branches_differ(old(self).branches@, self.branches@, b as int);
                    }
                    return StepResult::Progress;
                }
                match input_ready(&self.env, &src, MAX_NEST) {
                    ReadyCheck::Ready => {
                        match input_collect(&mut self.env, &src, MAX_NEST) {
                            Some(bytes) => {
                                br.status = BranchStatus::WaitingEvent;
                                br.pending = Some(PendingOp::FileWrite);
                                let case = br.case;
                                let ghost brv = br;
                                self.branches.insert(b, br);
                                proof {
                                    assert(self.branches@ =~= pre.update(b as int, brv));
                                    self.lemma_local_change(*old(self), b as int);
                                }
                                let action = Action::DoWriteFile {
                                    case,
                                    file,
                                    bytes,
                                    append,
                                    exists,
                                };
                                proof {
                                    assert(action_for(*old(self), *self, b as int, action));
                                }
                                StepResult::Acted { branch: b, action }
                            },
                            None => {
                                let ghost brv = br;
                                self.branches.insert(b, br);
                                proof {
                                    assert(self.branches@ =~= pre.update(b as int, brv));
                                    self.lemma_local_change(*old(self), b as int);
                                }
                                let ghost mid = *self;
                                self.fail_branch(b);
                                proof {
                                    self.lemma_fail_frame(*old(self), mid, b as int);
                                    assert(self.branches@[b as int] != old(self).branches@[b as int]);
                                    lemma_branches_differ(old(self).branches@, self.branches@, b as int);
                                }
                                StepResult::Progress
                            },
                        }
                    },
                    ReadyCheck::BlockedOn { id } => {
                        let d2 = Directive::WriteFile { file, src, append, exists };
                        let f2 = br.frames.len() - 1;
                        let mut frame2 = br.frames.remove(f2);
                        frame2.rest.insert(0, d2);
                        br.frames.push(frame2);
                        br.status = BranchStatus::WaitingStreamData { id };
                        let ghost brv = br;
                        self.branches.insert(b, br);
                        proof {
                            assert(self.branches@ =~= pre.update(b as int, brv));
                            self.lemma_local_change(*old(self), b as int);
                            assert(self.branches@[b as int] != old(self).branches@[b as int]);
                            lemma_branches_differ(old(self).branches@, self.branches@, b as int);
                        }
                        StepResult::Progress
                    },
                    ReadyCheck::Refused => {
                        let ghost brv = br;
                        self.branches.insert(b, br);
                        proof {
                            assert(self.branches@ =~= pre.update(b as int, brv));
                            self.lemma_local_change(*old(self), b as int);
                        }
                        let ghost mid = *self;
                        self.fail_branch(b);
                        proof {
                            self.lemma_fail_frame(*old(self), mid, b as int);
                            assert(self.branches@[b as int] != old(self).branches@[b as int]);
                            lemma_branches_differ(old(self).branches@, self.branches@, b as int);
                        }
                        StepResult::Progress
                    },
                }
            },
            Directive::OutputFile { file, dst } => {
                if self.io_stopped {
                    let ghost brv = br;
                    self.branches.insert(b, br);
                    proof {
                        assert(self.branches@ =~= pre.update(b as int, brv));
                        self.lemma_local_change(*old(self), b as int);
                    }
                    let ghost mid = *self;
                    self.fail_branch(b);
                    proof {
                        self.lemma_fail_frame(*old(self), mid, b as int);
                        assert(self.branches@[b as int] != old(self).branches@[b as int]);
                        lemma_branches_differ(old(self).branches@, self.branches@, b as int);
                    }
                    return StepResult::Progress;
                }
                br.status = BranchStatus::WaitingEvent;
                br.pending = Some(PendingOp::FileRead { dst });
                let case = br.case;
                let ghost brv = br;
                self.branches.insert(b, br);
                proof {
                    assert(self.branches@ =~= pre.update(b as int, brv));
                    self.lemma_local_change(*old(self), b as int);
                }
                let action = Action::DoReadFile { case, file };
                proof {
                    assert(action_for(*old(self), *self, b as int, action));
                }
                StepResult::Acted { branch: b, action }
            },
            Directive::Run { run } => {
                let RunSpec {
                    bin,
                    cwd,
                    user,
                    stdin,
                    stdout,
                    stderr,
                    args,
                    env: envs,
                    ignore_code,
                    success_codes,
                    fail_codes,
                } = run;
                match input_ready(&self.env, &stdin, MAX_NEST) {
                    ReadyCheck::Refused => {
                        let ghost brv = br;
                        self.branches.insert(b, br);
                        proof {
                            assert(self.branches@ =~= pre.update(b as int, brv));
                            self.lemma_local_change(*old(self), b as int);
                        }
                        let ghost mid = *self;
                        self.fail_branch(b);
                        proof {
                            self.lemma_fail_frame(*old(self), mid, b as int);
                            assert(self.branches@[b as int] != old(self).branches@[b as int]);
                            lemma_branches_differ(old(self).branches@, self.branches@, b as int);
                        }
                        return StepResult::Progress;
                    },
                    ReadyCheck::BlockedOn { id } => {
                        let d2 = Directive::Run {
                            run: RunSpec {
                                bin,
                                cwd,
                                user,
                                stdin,
                                stdout,
                                stderr,
                                args,
                                env: envs,
                                ignore_code,
                                success_codes,
                                fail_codes,
                            },
                        };
                        let f2 = br.frames.len() - 1;
                        let mut frame2 = br.frames.remove(f2);
                        frame2.rest.insert(0, d2);
                        br.frames.push(frame2);
                        br.status = BranchStatus::WaitingStreamData { id };
                        let ghost brv = br;
                        self.branches.insert(b, br);
                        proof {
                            assert(self.branches@ =~= pre.update(b as int, brv));
                            self.lemma_local_change(*old(self), b as int);
                            assert(self.branches@[b as int] != old(self).branches@[b as int]);
                            lemma_branches_differ(old(self).branches@, self.branches@, b as int);
                        }
                        return StepResult::Progress;
                    },
                    _ => {},
                }
                let ghost e_run0 = self.env;
                let stdin_bytes = match input_collect(&mut self.env, &stdin, MAX_NEST) {
                    Some(v) => v,
                    None => {
                        let ghost brv = br;
                        self.branches.insert(b, br);
                        proof {
                            assert(self.branches@ =~= pre.update(b as int, brv));
                            self.lemma_local_change(*old(self), b as int);
                        }
                        let ghost mid = *self;
                        self.fail_branch(b);
                        proof {
                            self.lemma_fail_frame(*old(self), mid, b as int);
                            assert(self.branches@[b as int] != old(self).branches@[b as int]);
                            lemma_branches_differ(old(self).branches@, self.branches@, b as int);
                        }
                        return StepResult::Progress;
                    },
                };
                let ghost e_mid = self.env;
                let mut arg_bytes: Vec<Vec<u8>> = Vec::new();
                let mut ai: usize = 0;
                let mut arg_fail = false;
                while ai < args.len()
                    invariant
                        ai <= args@.len(),
                        !arg_fail ==> arg_bytes@.len() == ai,
                        streams_closedness_unchanged(old(self).env, self.env),
                        self.env.strings@ == old(self).env.strings@,
                        b < pre.len(),
                        pre == old(self).branches@,
                        self.branches@ == pre.remove(b as int),
                        self.cases == old(self).cases,
                        self.next_case == old(self).next_case,
                        self.next_pid == old(self).next_pid,
                        self.live@ == old(self).live@,
                        self.kills@ == old(self).kills@,
                        self.io_stopped == old(self).io_stopped,
                        self.root_failed == old(self).root_failed,
                    decreases args@.len() - ai,
                {
                    match input_collect(&mut self.env, &args[ai], MAX_NEST) {
                        Some(v) => arg_bytes.push(v),
                        None => {
                            arg_fail = true;
                        },
                    }
                    ai = ai + 1;
                }
                let mut env_bytes: Vec<Vec<u8>> = Vec::new();
                let mut ei: usize = 0;
                while ei < envs.len()
                    invariant
                        ei <= envs@.len(),
                        !arg_fail ==> arg_bytes@.len() == args@.len(),
                        !arg_fail ==> env_bytes@.len() == ei,
                        streams_closedness_unchanged(old(self).env, self.env),
                        self.env.strings@ == old(self).env.strings@,
                        b < pre.len(),
                        pre == old(self).branches@,
                        self.branches@ == pre.remove(b as int),
                        self.cases == old(self).cases,
                        self.next_case == old(self).next_case,
                        self.next_pid == old(self).next_pid,
                        self.live@ == old(self).live@,
                        self.kills@ == old(self).kills@,
                        self.io_stopped == old(self).io_stopped,
                        self.root_failed == old(self).root_failed,
                    decreases envs@.len() - ei,
                {
                    match input_collect(&mut self.env, &envs[ei], MAX_NEST) {
                        Some(v) => env_bytes.push(v),
                        None => {
                            arg_fail = true;
                        },
                    }
                    ei = ei + 1;
                }
                if arg_fail || self.next_pid == usize::MAX {
                    let ghost brv = br;
                    self.branches.insert(b, br);
                    proof {
                        assert(self.branches@ =~= pre.update(b as int, brv));
                        self.lemma_local_change(*old(self), b as int);
                    }
                    let ghost mid = *self;
                    self.fail_branch(b);
                    proof {
                        self.lemma_fail_frame(*old(self), mid, b as int);
                        assert(self.branches@[b as int] != old(self).branches@[b as int]);
                        lemma_branches_differ(old(self).branches@, self.branches@, b as int);
                    }
                    return StepResult::Progress;
                }
                let pid = self.next_pid;
                self.next_pid = self.next_pid + 1;
                self.live.push(pid);
                br.status = BranchStatus::WaitingEvent;
                br.pending = Some(
                    PendingOp::ProcRun {
                        pid,
                        stdout,
                        stderr,
                        ignore_code,
                        success_codes,
                        fail_codes,
                    },
                );
                let case = br.case;
                let ghost brv = br;
                self.branches.insert(b, br);
                proof {
                    assert(self.branches@ =~= pre.update(b as int, brv));
                    self.lemma_local_change(*old(self), b as int);
                }
                let action = Action::DoRun {
                    case,
                    pid,
                    bin,
                    cwd,
                    user,
                    args: arg_bytes,
                    env_vars: env_bytes,
                    stdin: stdin_bytes,
                };
                proof {
                    assert(collect_rel(old(self).env, e_mid, dg->Run_run.stdin, Some(
                        action->DoRun_stdin@,
                    ), MAX_NEST as nat));
                    assert(action_for(*old(self), *self, b as int, action));
                }
                StepResult::Acted { branch: b, action }
            },
            Directive::Conditional { condition, directives } => {
                let hold = eval_condition(&self.env, &condition);
                if hold {
                    br.frames.push(Frame { rest: directives, teardown: None });
                }
                let ghost brv = br;
                self.branches.insert(b, br);
                proof {
                    assert(self.branches@ =~= pre.update(b as int, brv));
                    self.lemma_local_change(*old(self), b as int);
                    assert(self.branches@[b as int] != old(self).branches@[b as int]) by {
                        if brv.frames@.len() == old(self).branches@[b as int].frames@.len() {
                            assert(brv.frames@.last().rest@.len() + 1 == old(
                                self,
                            ).branches@[b as int].frames@.last().rest@.len());
                        }
                    }
                    lemma_branches_differ(old(self).branches@, self.branches@, b as int);
                }
                StepResult::Progress
            },
            Directive::Simul {
                blocks,
                finish_on_first_fail,
                kill_on_first_fail,
                stop_file_io_on_first_fail,
            } => {
                let nb = blocks.len();
                if nb == 0 {
                    let ghost brv = br;
                    self.branches.insert(b, br);
                    proof {
                        assert(self.branches@ =~= pre.update(b as int, brv));
                        self.lemma_local_change(*old(self), b as int);
                        assert(brv.frames@.last().rest@.len() + 1 == old(
                            self,
                        ).branches@[b as int].frames@.last().rest@.len());
                        assert(self.branches@[b as int] != old(self).branches@[b as int]);
                        lemma_branches_differ(old(self).branches@, self.branches@, b as int);
                    }
                    return StepResult::Progress;
                }
                br.status = BranchStatus::WaitingChildren { pending: nb, any_failed: false };
                let case = br.case;
                let ghost brv = br;
                self.branches.insert(b, br);
                let ghost based = self.branches@;
                proof {
                    assert(based =~= pre.update(b as int, brv));
                }
                let flags = SimulFlags {
                    finish_on_first_fail,
                    kill_on_first_fail,
                    stop_file_io_on_first_fail,
                };
                let mut blocks_m = blocks;
                while blocks_m.len() > 0
                    invariant
                        self.env == old(self).env,
                        self.branches@.len() >= based.len(),
                        based.len() == old(self).branches@.len(),
                        b < based.len(),
                        forall|k: int|
                            0 <= k < based.len() ==> self.branches@[k] == based[k],
                        forall|k: int|
                            based.len() <= k < self.branches@.len() ==> (#[trigger] self.branches@[k]).parent
                                == Some(b) && self.branches@[k].status is Runnable,
                    decreases blocks_m@.len(),
                {
                    let blk = blocks_m.remove(0);
                    self.branches.push(
                        Branch {
                            frames: vec![Frame { rest: blk, teardown: None }],
                            status: BranchStatus::Runnable,
                            case,
                            parent: Some(b),
                            flags,
                            pending: None,
                        },
                    );
                }
                proof {
                    assert forall|k: int|
                        0 <= k < old(self).branches@.len() implies #[trigger] stream_wait_rule(
                        old(self).branches@[k],
                        self.branches@[k],
                        self.env,
                    ) by {
                        assert(old(self).wf_branch(k));
                        assert(self.branches@[k] == based[k]);
                    }
                    assert forall|k: int|
                        0 <= k < self.branches@.len() implies #[trigger] self.wf_branch(k) by {
                        if k < based.len() {
                            assert(self.branches@[k] == based[k]);
                            assert(old(self).wf_branch(k));
                        }
                    }
                    assert(self.branches@[b as int] == based[b as int]);
                    assert(based[b as int] == brv);
                    assert(self.branches@[b as int].status is WaitingChildren);
                    assert(self.branches@[b as int] != old(self).branches@[b as int]);
                    lemma_branches_differ(old(self).branches@, self.branches@, b as int);
                }
                StepResult::Progress
            },
            Directive::ForkCases { directives, simul } => {
                let nc = self.cases;
                if nc == 0 {
                    let ghost brv = br;
                    self.branches.insert(b, br);
                    proof {
                        assert(self.branches@ =~= pre.update(b as int, brv));
                        self.lemma_local_change(*old(self), b as int);
                        assert(brv.frames@.last().rest@.len() + 1 == old(
                            self,
                        ).branches@[b as int].frames@.last().rest@.len());
                        assert(self.branches@[b as int] != old(self).branches@[b as int]);
                        lemma_branches_differ(old(self).branches@, self.branches@, b as int);
                    }
                    return StepResult::Progress;
                }
                let mut bodies: Vec<Vec<Directive>> = Vec::new();
                let mut ci: usize = 0;
                let mut clone_failed = false;
                while ci + 1 < nc
                    invariant
                        ci < nc,
                    decreases nc - ci,
                {
                    match clone_directives(&directives, MAX_NEST) {
                        Some(c) => bodies.push(c),
                        None => {
                            clone_failed = true;
                        },
                    }
                    ci = ci + 1;
                }
                bodies.push(directives);
                if clone_failed {
                    let ghost brv = br;
                    self.branches.insert(b, br);
                    proof {
                        assert(self.branches@ =~= pre.update(b as int, brv));
                        self.lemma_local_change(*old(self), b as int);
                    }
                    let ghost mid = *self;
                    self.fail_branch(b);
                    proof {
                        self.lemma_fail_frame(*old(self), mid, b as int);
                        assert(self.branches@[b as int] != old(self).branches@[b as int]);
                        lemma_branches_differ(old(self).branches@, self.branches@, b as int);
                    }
                    return StepResult::Progress;
                }
                if bodies.len() != nc {
                    let ghost brv = br;
                    self.branches.insert(b, br);
                    proof {
                        assert(self.branches@ =~= pre.update(b as int, brv));
                        self.lemma_local_change(*old(self), b as int);
                    }
                    let ghost mid = *self;
                    self.fail_branch(b);
                    proof {
                        self.lemma_fail_frame(*old(self), mid, b as int);
                        assert(self.branches@[b as int] != old(self).branches@[b as int]);
                        lemma_branches_differ(old(self).branches@, self.branches@, b as int);
                    }
                    return StepResult::Progress;
                }
                let flags = br.flags;
                br.status = BranchStatus::WaitingChildren { pending: nc, any_failed: false };
                let ghost brv = br;
                self.branches.insert(b, br);
                let ghost based = self.branches@;
                proof {
                    assert(based =~= pre.update(b as int, brv));
                }
                let base = self.branches.len();
                let mut i: usize = 0;
                let mut bodies_m = bodies;
                while i < nc
                    invariant
                        i <= nc,
                        self.env == old(self).env,
                        bodies_m@.len() == nc - i,
                        base == based.len(),
                        self.branches@.len() == base + i,
                        based.len() == old(self).branches@.len(),
                        b < based.len(),
                        forall|k: int|
                            0 <= k < based.len() ==> self.branches@[k] == based[k],
                        forall|k: int|
                            based.len() <= k < self.branches@.len() ==> (#[trigger] self.branches@[k]).parent
                                == Some(b) && (self.branches@[k].status is Runnable || (
                            self.branches@[k].status matches BranchStatus::WaitingTurn { prev }
                                && prev < k)),
                    decreases nc - i,
                {
                    let body = bodies_m.remove(0);
                    let status = if simul || i == 0 {
                        BranchStatus::Runnable
                    } else {
                        BranchStatus::WaitingTurn { prev: self.branches.len() - 1 }
                    };
                    self.branches.push(
                        Branch {
                            frames: vec![Frame { rest: body, teardown: None }],
                            status,
                            case: i,
                            parent: Some(b),
                            flags,
                            pending: None,
                        },
                    );
                    i = i + 1;
                }
                proof {
                    assert forall|k: int|
                        0 <= k < old(self).branches@.len() implies #[trigger] stream_wait_rule(
                        old(self).branches@[k],
                        self.branches@[k],
                        self.env,
                    ) by {
                        assert(old(self).wf_branch(k));
                        assert(self.branches@[k] == based[k]);
                    }
                    assert forall|k: int|
                        0 <= k < self.branches@.len() implies #[trigger] self.wf_branch(k) by {
                        if k < based.len() {
                            assert(self.branches@[k] == based[k]);
                            assert(old(self).wf_branch(k));
                        }
                    }
                    assert(self.branches@[b as int] == based[b as int]);
                    assert(based[b as int] == brv);
                    assert(self.branches@[b as int].status is WaitingChildren);
                    assert(self.branches@[b as int] != old(self).branches@[b as int]);
                    lemma_branches_differ(old(self).branches@, self.branches@, b as int);
                }
                StepResult::Progress
            },
            Directive::SpawnContainer { directives, diffs } => {
                if self.next_case == usize::MAX {
                    let ghost brv = br;
                    self.branches.insert(b, br);
                    proof {
                        assert(self.branches@ =~= pre.update(b as int, brv));
                        self.lemma_local_change(*old(self), b as int);
                    }
                    let ghost mid = *self;
                    self.fail_branch(b);
                    proof {
                        self.lemma_fail_frame(*old(self), mid, b as int);
                        assert(self.branches@[b as int] != old(self).branches@[b as int]);
                        lemma_branches_differ(old(self).branches@, self.branches@, b as int);
                    }
                    return StepResult::Progress;
                }
                let nc = self.next_case;
                self.next_case = self.next_case + 1;
                br.status = BranchStatus::WaitingEvent;
                br.pending = Some(PendingOp::Spawn { directives, case: nc });
                let ghost brv = br;
                self.branches.insert(b, br);
                proof {
                    assert(self.branches@ =~= pre.update(b as int, brv));
                    self.lemma_local_change(*old(self), b as int);
                }
                let action = Action::DoSpawn { case: nc, diffs };
                proof {
                    assert(action_for(*old(self), *self, b as int, action));
                }
                StepResult::Acted { branch: b, action }
            },
        }
    }

    /// Consume the outcome of the action that branch `b` issued. A
    /// completed process resumes or fails its branch exactly per the
    /// exit-code policy; on a failure under `kill_on_first_fail`, every
    /// other live process is queued for a termination signal before
    /// anything else runs. Close-waiters move only if a fail-fast policy
    /// abandons them; no stream changes between open and closed.
    pub fn deliver(&mut self, b: usize, ev: Event)
        requires
            old(self).wf(),
            b < old(self).branches@.len(),
            old(self).branches@[b as int].status is WaitingEvent,
            old(self).branches@[b as int].pending matches Some(p) && event_fits(p, ev),
        ensures
            final(self).wf(),
            final(self).branches@.len() == old(self).branches@.len(),
            forall|sid: Seq<char>|
                spec_stream_closed(final(self).env, sid) == spec_stream_closed(
                    old(self).env,
                    sid,
                ),
            forall|j: int|
                0 <= j < old(self).branches@.len() ==> #[trigger] stream_wait_rule(
                    old(self).branches@[j],
                    final(self).branches@[j],
                    final(self).env,
                ),
            ({
                let p0 = old(self).branches@[b as int].pending->Some_0;
                match (p0, ev) {
                    (
                        PendingOp::ProcRun {
                            pid,
                            stdout,
                            stderr,
                            ignore_code,
                            success_codes,
                            fail_codes,
                        },
                        Event::ProcDone { code, .. },
                    ) => {
                        let ok = spec_exit_ok(
                            code,
                            ignore_code,
                            match success_codes {
                                Some(v) => Some(v@),
                                None => None,
                            },
                            match fail_codes {
                                Some(v) => Some(v@),
                                None => None,
                            },
                        );
                        &&& (ok ==> final(self).branches@[b as int].status is Runnable)
                        &&& (!ok ==> final(self).branches@[b as int].status is DoneFailed)
                        &&& ((!ok && old(self).branches@[b as int].flags.kill_on_first_fail)
                            ==> forall|k: int|
                            0 <= k < old(self).live@.len() && old(self).live@[k] != pid
                                ==> final(self).kills@.contains(#[trigger] old(self).live@[k]))
                        &&& match ev {
                            Event::ProcDone { stdout: so, stderr: se, .. } => exists|emid: Env|
                                #[trigger] route_rel(old(self).env, emid, stdout, so@)
                                    && route_rel(emid, final(self).env, stderr, se@),
                            _ => true,
                        }
                    },
                    (PendingOp::FileWrite, Event::WriteDone { ok }) => {
                        &&& (ok ==> final(self).branches@[b as int].status is Runnable)
                        &&& (!ok ==> final(self).branches@[b as int].status is DoneFailed)
                    },
                    (PendingOp::FileRead { dst }, Event::ReadDone { bytes }) => match bytes {
                        Some(bs) => final(self).branches@[b as int].status is Runnable
                            && route_rel(old(self).env, final(self).env, dst, bs@),
                        None => final(self).branches@[b as int].status is DoneFailed,
                    },
                    _ => true,
                }
            }),
    {
        let ghost pre = self.branches@;
        let mut br = self.branches.remove(b);
        let pd = br.pending;
        br.pending = None;
        br.status = BranchStatus::Runnable;
        let ghost brv = br;
        self.branches.insert(b, br);
        proof {
            assert(self.branches@ =~= pre.update(b as int, brv));
            self.lemma_local_change(*old(self), b as int);
        }
        match (pd, ev) {
            (Some(PendingOp::FileWrite), Event::WriteDone { ok }) => {
                if !ok {
                    let ghost mid = *self;
                    self.fail_branch(b);
                    proof {
                        self.lemma_fail_frame(*old(self), mid, b as int);
                        assert(self.branches@[b as int] != old(self).branches@[b as int]);
                        lemma_branches_differ(old(self).branches@, self.branches@, b as int);
                    }
                }
            },
            (Some(PendingOp::FileRead { dst }), Event::ReadDone { bytes }) => {
                match bytes {
                    Some(bs) => {
                        let ghost mid = *self;
                        self.route_output(dst, bs);
                        proof {
                            assert(route_frame_rule(
                                mid.branches@[b as int],
                                self.branches@[b as int],
                            ));
                            assert forall|j: int|
                                0 <= j < old(self).branches@.len() implies
                                #[trigger] stream_wait_rule(
                                old(self).branches@[j],
                                self.branches@[j],
                                self.env,
                            ) by {
                                assert(old(self).wf_branch(j));
                                assert(route_frame_rule(mid.branches@[j], self.branches@[j]));
                                if j != b {
                                    assert(mid.branches@[j] == old(self).branches@[j]);
                                }
                            }
                        }
                    },
                    None => {
                        let ghost mid = *self;
                        self.fail_branch(b);
                        proof {
                            self.lemma_fail_frame(*old(self), mid, b as int);
                            assert(self.branches@[b as int] != old(self).branches@[b as int]);
                            lemma_branches_differ(old(self).branches@, self.branches@, b as int);
                        }
                    },
                }
            },
            (
                Some(
                    PendingOp::ProcRun {
                        pid,
                        stdout,
                        stderr,
                        ignore_code,
                        success_codes,
                        fail_codes,
                    },
                ),
                Event::ProcDone { code, stdout: so, stderr: se },
            ) => {
                let ghost m0 = *self;
                self.remove_live(pid);
                proof {
                    assert(self.wf()) by {
                        assert forall|j: int|
                            0 <= j < self.branches@.len() implies #[trigger] self.wf_branch(
                            j,
                        ) by {
                            assert(m0.wf_branch(j));
                        }
                    }
                }
                let ghost m1 = *self;
                self.route_output(stdout, so);
                let ghost m2 = *self;
                self.route_output(stderr, se);
                let ghost m3 = *self;
                proof {
                    assert forall|j: int|
                        0 <= j < old(self).branches@.len() && j != b implies route_frame_rule(
                        old(self).branches@[j],
                        #[trigger] self.branches@[j],
                    ) by {
                        assert(route_frame_rule(m1.branches@[j], m2.branches@[j]));
                        assert(route_frame_rule(m2.branches@[j], m3.branches@[j]));
                        assert(m1.branches@[j] == old(self).branches@[j]);
                    }
                    assert(route_frame_rule(m1.branches@[b as int], m2.branches@[b as int]));
                    assert(route_frame_rule(m2.branches@[b as int], m3.branches@[b as int]));
                    assert(self.branches@[b as int] == brv);
                }
                let ok = exit_status_ok(code, ignore_code, &success_codes, &fail_codes);
                if !ok {
                    let ghost mid = *self;
                    self.fail_branch(b);
                    proof {
                        assert forall|j: int|
                            0 <= j < old(self).branches@.len() implies
                            #[trigger] stream_wait_rule(
                            old(self).branches@[j],
                            self.branches@[j],
                            self.env,
                        ) by {
                            assert(old(self).wf_branch(j));
                            if j != b {
                                assert(route_frame_rule(
                                    old(self).branches@[j],
                                    mid.branches@[j],
                                ));
                                assert(parent_note_rule(mid.branches@[j], self.branches@[j]));
                            }
                        }
                        if old(self).branches@[b as int].flags.kill_on_first_fail {
                            assert forall|k: int|
                                0 <= k < old(self).live@.len() && old(self).live@[k] != pid
                                    implies self.kills@.contains(
                                #[trigger] old(self).live@[k],
                            ) by {
                                let q = old(self).live@[k];
                                assert(mid.live@.contains(q));
                                let w = choose|w: int|
                                    0 <= w < mid.live@.len() && mid.live@[w] == q;
                                assert(self.kills@.contains(mid.live@[w]));
                            }
                        }
                    }
                } else {
                    proof {
                        assert forall|j: int|
                            0 <= j < old(self).branches@.len() implies
                            #[trigger] stream_wait_rule(
                            old(self).branches@[j],
                            self.branches@[j],
                            self.env,
                        ) by {
                            assert(old(self).wf_branch(j));
                            if j != b {
                                assert(route_frame_rule(
                                    old(self).branches@[j],
                                    self.branches@[j],
                                ));
                            }
                        }
                    }
                }
            },
            (Some(PendingOp::Spawn { directives, case }), Event::SpawnDone { ok }) => {
                if ok {
                    let ghost pre2 = self.branches@;
                    let mut br2 = self.branches.remove(b);
                    let oldcase = br2.case;
                    br2.frames.push(Frame { rest: directives, teardown: Some((case, oldcase)) });
                    br2.case = case;
                    let ghost brv2 = br2;
                    self.branches.insert(b, br2);
                    proof {
                        assert(self.branches@ =~= pre2.update(b as int, brv2));
                        assert forall|j: int|
                            0 <= j < old(self).branches@.len() implies
                            #[trigger] stream_wait_rule(
                            old(self).branches@[j],
                            self.branches@[j],
                            self.env,
                        ) by {
                            assert(old(self).wf_branch(j));
                        }
                        assert forall|j: int|
                            0 <= j < self.branches@.len() implies #[trigger] self.wf_branch(
                            j,
                        ) by {
                            assert(old(self).wf_branch(j));
                        }
                    }
                } else {
                    let ghost mid = *self;
                    self.fail_branch(b);
                    proof {
                        self.lemma_fail_frame(*old(self), mid, b as int);
                        assert(self.branches@[b as int] != old(self).branches@[b as int]);
                        lemma_branches_differ(old(self).branches@, self.branches@, b as int);
                    }
                }
            },
            _ => {
                proof {
                    assert(false);
                }
            },
        }
    }

    /// After a change that replaced only branch `b` (never leaving a
    /// close-waiter behind an already-closed stream) and left the
    /// streams' closedness alone, the invariant and the release rule
    /// hold.
    proof fn lemma_local_change(&self, prev: Engine, b: int)
        requires
            prev.wf(),
            0 <= b < prev.branches@.len(),
            prev.branches@[b].status is Runnable || prev.branches@[b].status is WaitingEvent,
            self.branches@.len() == prev.branches@.len(),
            forall|k: int|
                0 <= k < prev.branches@.len() && k != b ==> self.branches@[k]
                    == prev.branches@[k],
            match self.branches@[b].status {
                BranchStatus::WaitingStreamClose { id } => !spec_stream_closed(self.env, id@),
                BranchStatus::WaitingTurn { prev: pv } => pv < b,
                _ => true,
            },
            self.branches@[b].parent == prev.branches@[b].parent,
            streams_closedness_unchanged(prev.env, self.env),
        ensures
            self.wf(),
            forall|j: int|
                0 <= j < prev.branches@.len() ==> #[trigger] stream_wait_rule(
                    prev.branches@[j],
                    self.branches@[j],
                    self.env,
                ),
    {
        assert forall|j: int| 0 <= j < self.branches@.len() implies #[trigger] self.wf_branch(
            j,
        ) by {
            assert(prev.wf_branch(j));
            assert(prev.wf_branch(b));
        }
        assert forall|j: int|
            0 <= j < prev.branches@.len() implies #[trigger] stream_wait_rule(
            prev.branches@[j],
            self.branches@[j],
            self.env,
        ) by {
            assert(prev.wf_branch(j));
        }
    }

    /// After a branch failed (directly or by cancellation) from the
    /// intermediate state `mid`, every other branch either kept its
    /// status or was a parent collecting children; in particular
    /// close-waiters were untouched and no stream changed between open
    /// and closed since `prev`.
    proof fn lemma_fail_frame(&self, prev: Engine, mid: Engine, b: int)
        requires
            prev.wf(),
            0 <= b < prev.branches@.len(),
            mid.branches@.len() == prev.branches@.len(),
            forall|j: int|
                0 <= j < prev.branches@.len() && j != b ==> mid.branches@[j]
                    == prev.branches@[j],
            self.branches@.len() == mid.branches@.len(),
            streams_closedness_unchanged(prev.env, self.env),
            self.branches@[b].status is DoneFailed,
            forall|j: int|
                0 <= j < prev.branches@.len() && j != b ==> #[trigger] parent_note_rule(
                    mid.branches@[j],
                    self.branches@[j],
                ),
        ensures
            forall|j: int|
                0 <= j < prev.branches@.len() ==> #[trigger] stream_wait_rule(
                    prev.branches@[j],
                    self.branches@[j],
                    self.env,
                ),
    {
        assert forall|j: int|
            0 <= j < prev.branches@.len() implies #[trigger] stream_wait_rule(
            prev.branches@[j],
            self.branches@[j],
            self.env,
        ) by {
            assert(prev.wf_branch(j));
            if j != b {
                assert(parent_note_rule(mid.branches@[j], self.branches@[j]));
                assert(mid.branches@[j] == prev.branches@[j]);
            }
        }
    }
}

} // verus!
