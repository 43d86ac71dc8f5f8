use vstd::prelude::*;

use crate::DATA_SIZE;
use crate::ExecFault;
use crate::FlushBehavior;
use crate::SinkEvent;
use crate::event_bytes;
use crate::flush_free;
use crate::onwrite_shaped;
use crate::wrap_add;
use crate::wrap_sub;
use crate::zeroed_tape;
use crate::syntax::IDENT_DEC_DATA;
use crate::syntax::IDENT_DEC_DP;
use crate::syntax::IDENT_INC_DATA;
use crate::syntax::IDENT_INC_DP;
use crate::syntax::IDENT_JUMP_NOT_ZERO;
use crate::syntax::IDENT_JUMP_ZERO;
use crate::syntax::IDENT_READ_BYTE;
use crate::syntax::IDENT_WRITE_BYTE;

verus! {

/// The mathematical state of a running interpreter: everything but the
/// source and the input, which never change.
pub ghost struct SrcState {
    pub ip: int,
    pub dp: int,
    pub tape: Seq<u8>,
    pub rp: int,
    pub events: Seq<SinkEvent>,
}

/// The outcome of executing one source opcode.
pub ghost enum SrcStep {
    Going(SrcState),
    Faulted(ExecFault),
}

/// The outcome of a bounded run over the source.
pub ghost enum SrcRun {
    Going(SrcState),
    Halted(SrcState),
    Faulted(ExecFault, SrcState),
}

/// Position of the closer matching an opener, scanning right from `j` at
/// bracket `depth`; `None` when the scan runs off the end.
pub open spec fn find_close(code: Seq<u8>, j: int, depth: int) -> Option<int>
    decreases code.len() - j,
    when 0 <= j
{
    if j >= code.len() {
        None
    } else if code[j] == IDENT_JUMP_ZERO {
        find_close(code, j + 1, depth + 1)
    } else if code[j] == IDENT_JUMP_NOT_ZERO {
        if depth == 0 {
            Some(j)
        } else {
            find_close(code, j + 1, depth - 1)
        }
    } else {
        find_close(code, j + 1, depth)
    }
}

/// Position of the opener matching a closer, scanning left from `j` at
/// bracket `depth`; `None` when the scan runs off the start.
pub open spec fn find_open(code: Seq<u8>, j: int, depth: int) -> Option<int>
    decreases j + 1,
    when j < code.len()
{
    if j < 0 {
        None
    } else if code[j] == IDENT_JUMP_NOT_ZERO {
        find_open(code, j - 1, depth + 1)
    } else if code[j] == IDENT_JUMP_ZERO {
        if depth == 0 {
            Some(j)
        } else {
            find_open(code, j - 1, depth - 1)
        }
    } else {
        find_open(code, j - 1, depth)
    }
}

pub proof fn lemma_find_close_range(code: Seq<u8>, j: int, depth: int)
    requires
        0 <= j,
    ensures
        match find_close(code, j, depth) {
            Some(r) => j <= r < code.len() && code[r] == IDENT_JUMP_NOT_ZERO,
            None => true,
        },
    decreases code.len() - j,
{
    if j < code.len() && !(code[j] == IDENT_JUMP_NOT_ZERO && depth == 0) {
        if code[j] == IDENT_JUMP_ZERO {
            lemma_find_close_range(code, j + 1, depth + 1);
        } else if code[j] == IDENT_JUMP_NOT_ZERO {
            lemma_find_close_range(code, j + 1, depth - 1);
        } else {
            lemma_find_close_range(code, j + 1, depth);
        }
    }
}

pub proof fn lemma_find_open_range(code: Seq<u8>, j: int, depth: int)
    requires
        j < code.len(),
    ensures
        match find_open(code, j, depth) {
            Some(r) => 0 <= r <= j && code[r] == IDENT_JUMP_ZERO,
            None => true,
        },
    decreases j + 1,
{
    if j >= 0 && !(code[j] == IDENT_JUMP_ZERO && depth == 0) {
        if code[j] == IDENT_JUMP_NOT_ZERO {
            lemma_find_open_range(code, j - 1, depth + 1);
        } else if code[j] == IDENT_JUMP_ZERO {
            lemma_find_open_range(code, j - 1, depth - 1);
        } else {
            lemma_find_open_range(code, j - 1, depth);
        }
    }
}

/// One execution step on the opcode byte under `s.ip`. Comment bytes are
/// skipped; a taken bracket lands one past its partner.
pub open spec fn src_step(
    code: Seq<u8>,
    input: Seq<u8>,
    flush: FlushBehavior,
    s: SrcState,
) -> SrcStep {
    let b = code[s.ip];
    if b == IDENT_INC_DP {
        if s.dp + 1 >= DATA_SIZE {
            SrcStep::Faulted(ExecFault::TapeFault)
        } else {
            SrcStep::Going(SrcState { ip: s.ip + 1, dp: s.dp + 1, ..s })
        }
    } else if b == IDENT_DEC_DP {
        if s.dp == 0 {
            SrcStep::Faulted(ExecFault::TapeFault)
        } else {
            SrcStep::Going(SrcState { ip: s.ip + 1, dp: s.dp - 1, ..s })
        }
    } else if b == IDENT_INC_DATA {
        SrcStep::Going(
            SrcState { ip: s.ip + 1, tape: s.tape.update(s.dp, wrap_add(s.tape[s.dp], 1)), ..s },
        )
    } else if b == IDENT_DEC_DATA {
        SrcStep::Going(
            SrcState { ip: s.ip + 1, tape: s.tape.update(s.dp, wrap_sub(s.tape[s.dp], 1)), ..s },
        )
    } else if b == IDENT_WRITE_BYTE {
        SrcStep::Going(
            SrcState {
                ip: s.ip + 1,
                events: s.events + seq![SinkEvent::Byte(s.tape[s.dp])] + if flush is OnWrite {
                    seq![SinkEvent::Flush]
                } else {
                    Seq::empty()
                },
                ..s
            },
        )
    } else if b == IDENT_READ_BYTE {
        if s.rp >= input.len() {
            SrcStep::Faulted(ExecFault::EndOfInput)
        } else {
            SrcStep::Going(
                SrcState { ip: s.ip + 1, tape: s.tape.update(s.dp, input[s.rp]), rp: s.rp + 1, ..s },
            )
        }
    } else if b == IDENT_JUMP_ZERO {
        if s.tape[s.dp] == 0 {
            match find_close(code, s.ip + 1, 0) {
                Some(c) => SrcStep::Going(SrcState { ip: c + 1, ..s }),
                None => SrcStep::Faulted(ExecFault::UnmatchedLoopBegin),
            }
        } else {
            SrcStep::Going(SrcState { ip: s.ip + 1, ..s })
        }
    } else if b == IDENT_JUMP_NOT_ZERO {
        if s.tape[s.dp] != 0 {
            match find_open(code, s.ip - 1, 0) {
                Some(o) => SrcStep::Going(SrcState { ip: o + 1, ..s }),
                None => SrcStep::Faulted(ExecFault::UnmatchedLoopEnd),
            }
        } else {
            SrcStep::Going(SrcState { ip: s.ip + 1, ..s })
        }
    } else {
        SrcStep::Going(SrcState { ip: s.ip + 1, ..s })
    }
}

/// `n` steps from `s0`, stopping at a halt or at the first fault.
pub open spec fn src_run(
    code: Seq<u8>,
    input: Seq<u8>,
    flush: FlushBehavior,
    s0: SrcState,
    n: nat,
) -> SrcRun
    decreases n,
{
    if n == 0 {
        SrcRun::Going(s0)
    } else {
        match src_run(code, input, flush, s0, (n - 1) as nat) {
            SrcRun::Going(s) => if s.ip >= code.len() {
                SrcRun::Halted(s)
            } else {
                match src_step(code, input, flush, s) {
                    SrcStep::Going(s1) => SrcRun::Going(s1),
                    SrcStep::Faulted(f) => SrcRun::Faulted(f, s),
                }
            },
            done => done,
        }
    }
}

/// The state after the run, with the final flush that `OnEnd` performs.
pub open spec fn src_post_flush(s: SrcState, flush: FlushBehavior) -> SrcState {
    if flush is OnEnd {
        SrcState { events: s.events.push(SinkEvent::Flush), ..s }
    } else {
        s
    }
}

/// An interpreter that executes the source program directly: the reference
/// executor whose behaviour defines the language.
pub struct Interpreter {
    pub code: Vec<u8>,
    pub ip: usize,
    pub data: Vec<u8>,
    pub dp: usize,
    pub input: Vec<u8>,
    pub rp: usize,
    pub events: Vec<SinkEvent>,
}

impl Interpreter {
    /// The interpreter as a mathematical state.
    pub open spec fn st(self) -> SrcState {
        SrcState {
            ip: self.ip as int,
            dp: self.dp as int,
            tape: self.data@,
            rp: self.rp as int,
            events: self.events@,
        }
    }

    /// Bounds that every reachable interpreter satisfies.
    pub open spec fn inv(self) -> bool {
        &&& self.ip <= self.code@.len()
        &&& self.data@.len() == DATA_SIZE
        &&& self.dp < DATA_SIZE
        &&& self.rp <= self.input@.len()
    }

    /// Creates a new interpreter for the given source bytes, reading program
    /// input from `input`.
    pub fn new(code: Vec<u8>, input: Vec<u8>) -> (m: Interpreter)
        ensures
            m.code@ == code@,
            m.input@ == input@,
            m.inv(),
            m.st() == (SrcState {
                ip: 0,
                dp: 0,
                tape: Seq::new(DATA_SIZE as nat, |t: int| 0u8),
                rp: 0,
                events: Seq::empty(),
            }),
    {
        let data = zeroed_tape();
        let m = Interpreter { code, ip: 0, data, dp: 0, input, rp: 0, events: Vec::new() };
        proof {
            assert(m.data@ =~= Seq::new(DATA_SIZE as nat, |t: int| 0u8));
        }
        m
    }

    /// Execute one source opcode. Returns `Ok(true)` when an opcode ran,
    /// `Ok(false)` when the program has already halted, and the first fault
    /// otherwise, leaving the interpreter as it was.
    pub fn step(&mut self, flush: FlushBehavior) -> (r: Result<bool, ExecFault>)
        requires
            old(self).inv(),
        ensures
            final(self).code@ == old(self).code@,
            final(self).input@ == old(self).input@,
            final(self).inv(),
            old(self).ip >= old(self).code@.len() ==> r == Ok::<bool, ExecFault>(false)
                && final(self).st() == old(self).st(),
            old(self).ip < old(self).code@.len() ==> match src_step(
                old(self).code@,
                old(self).input@,
                flush,
                old(self).st(),
            ) {
                SrcStep::Going(s1) => r == Ok::<bool, ExecFault>(true) && final(self).st() == s1,
                SrcStep::Faulted(f) => r == Err::<bool, ExecFault>(f)
                    && final(self).st() == old(self).st(),
            },
    {
        if self.ip >= self.code.len() {
            return Ok(false);
        }
        let b: u8 = self.code[self.ip];
        if b == IDENT_INC_DP {
            if self.dp + 1 >= DATA_SIZE {
                return Err(ExecFault::TapeFault);
            }
            self.dp = self.dp + 1;
            self.ip = self.ip + 1;
        } else if b == IDENT_DEC_DP {
            if self.dp == 0 {
                return Err(ExecFault::TapeFault);
            }
            self.dp = self.dp - 1;
            self.ip = self.ip + 1;
        } else if b == IDENT_INC_DATA {
            let v: u8 = self.data[self.dp];
            self.data.set(self.dp, v.wrapping_add(1));
            self.ip = self.ip + 1;
        } else if b == IDENT_DEC_DATA {
            let v: u8 = self.data[self.dp];
            self.data.set(self.dp, v.wrapping_sub(1));
            self.ip = self.ip + 1;
        } else if b == IDENT_WRITE_BYTE {
            let v: u8 = self.data[self.dp];
            let ghost ev0 = self.events@;
            self.events.push(SinkEvent::Byte(v));
            if flush == FlushBehavior::OnWrite {
                self.events.push(SinkEvent::Flush);
                proof {
                    assert(self.events@ =~= ev0 + seq![SinkEvent::Byte(v)] + seq![
                        SinkEvent::Flush,
                    ]);
                }
            } else {
                proof {
                    assert(self.events@ =~= ev0 + seq![SinkEvent::Byte(v)]
                        + Seq::<SinkEvent>::empty());
                }
            }
            self.ip = self.ip + 1;
        } else if b == IDENT_READ_BYTE {
            if self.rp >= self.input.len() {
                return Err(ExecFault::EndOfInput);
            }
            let x: u8 = self.input[self.rp];
            self.data.set(self.dp, x);
            self.rp = self.rp + 1;
            self.ip = self.ip + 1;
        } else if b == IDENT_JUMP_ZERO {
            if self.data[self.dp] == 0 {
                let ghost code0 = self.code@;
                let ghost start = (self.ip + 1) as int;
                let mut j: usize = self.ip + 1;
                let mut depth: usize = 0;
                while j < self.code.len() && !(self.code[j] == IDENT_JUMP_NOT_ZERO && depth == 0)
                    invariant
                        self.code@ == code0,
                        start <= j <= code0.len(),
                        depth <= j,
                        find_close(code0, start, 0) == find_close(code0, j as int, depth as int),
                    decreases code0.len() - j,
                {
                    if self.code[j] == IDENT_JUMP_ZERO {
                        depth = depth + 1;
                    } else if self.code[j] == IDENT_JUMP_NOT_ZERO {
                        depth = depth - 1;
                    }
                    j = j + 1;
                }
                if j >= self.code.len() {
                    return Err(ExecFault::UnmatchedLoopBegin);
                }
                proof {
                    assert(find_close(code0, start, 0) == Some(j as int));
                }
                self.ip = j + 1;
            } else {
                self.ip = self.ip + 1;
            }
        } else if b == IDENT_JUMP_NOT_ZERO {
            if self.data[self.dp] != 0 {
                if self.ip == 0 {
                    return Err(ExecFault::UnmatchedLoopEnd);
                }
                let ghost code0 = self.code@;
                let ghost start = (self.ip - 1) as int;
                let mut j: usize = self.ip - 1;
                let mut depth: usize = 0;
                while j > 0 && !(self.code[j] == IDENT_JUMP_ZERO && depth == 0)
                    invariant
                        self.code@ == code0,
                        0 <= j <= start < code0.len(),
                        start <= usize::MAX - 1,
                        depth <= start - j,
                        find_open(code0, start, 0) == find_open(code0, j as int, depth as int),
                    decreases j,
                {
                    if self.code[j] == IDENT_JUMP_NOT_ZERO {
                        depth = depth + 1;
                    } else if self.code[j] == IDENT_JUMP_ZERO {
                        depth = depth - 1;
                    }
                    j = j - 1;
                }
                if self.code[j] == IDENT_JUMP_ZERO && depth == 0 {
                    proof {
                        assert(find_open(code0, start, 0) == Some(j as int));
                    }
                    self.ip = j + 1;
                } else {
                    proof {
                        assert(j == 0);
                        if code0[0] == IDENT_JUMP_NOT_ZERO {
                            assert(find_open(code0, 0, depth as int) == find_open(
                                code0,
                                -1,
                                depth as int + 1,
                            ));
                            assert(find_open(code0, -1, depth as int + 1) == None::<int>);
                        } else if code0[0] == IDENT_JUMP_ZERO {
                            assert(find_open(code0, 0, depth as int) == find_open(
                                code0,
                                -1,
                                depth as int - 1,
                            ));
                            assert(find_open(code0, -1, depth as int - 1) == None::<int>);
                        } else {
                            assert(find_open(code0, 0, depth as int) == find_open(
                                code0,
                                -1,
                                depth as int,
                            ));
                            assert(find_open(code0, -1, depth as int) == None::<int>);
                        }
                    }
                    return Err(ExecFault::UnmatchedLoopEnd);
                }
            } else {
                self.ip = self.ip + 1;
            }
        } else {
            self.ip = self.ip + 1;
        }
        Ok(true)
    }

    /// Executes at most `max_steps` opcodes. Returns `Ok(true)` when the
    /// program halted (flushing once at the end under `OnEnd`), `Ok(false)`
    /// when the budget ran out first, and the first fault otherwise.
    pub fn execute(&mut self, flush: FlushBehavior, max_steps: usize) -> (r: Result<
        bool,
        ExecFault,
    >)
        requires
            old(self).inv(),
        ensures
            final(self).code@ == old(self).code@,
            final(self).input@ == old(self).input@,
            final(self).inv(),
            match r {
                Ok(true) => exists|n: nat|
                    n <= max_steps && (#[trigger] src_run(
                        old(self).code@,
                        old(self).input@,
                        flush,
                        old(self).st(),
                        n + 1,
                    ) matches SrcRun::Halted(s) && final(self).st() == src_post_flush(s, flush)),
                Ok(false) => src_run(
                    old(self).code@,
                    old(self).input@,
                    flush,
                    old(self).st(),
                    max_steps as nat,
                ) matches SrcRun::Going(s) && final(self).st() == s && s.ip < old(
                    self,
                ).code@.len(),
                Err(f) => exists|n: nat|
                    n <= max_steps && (#[trigger] src_run(
                        old(self).code@,
                        old(self).input@,
                        flush,
                        old(self).st(),
                        n,
                    ) matches SrcRun::Faulted(f2, s) && f2 == f && final(self).st() == s),
            },
    {
        let ghost code0 = self.code@;
        let ghost in0 = self.input@;
        let ghost st0 = self.st();
        let mut steps: usize = 0;
        while steps < max_steps && self.ip < self.code.len()
            invariant
                self.inv(),
                code0 == old(self).code@,
                in0 == old(self).input@,
                st0 == old(self).st(),
                self.code@ == code0,
                self.input@ == in0,
                steps <= max_steps,
                src_run(code0, in0, flush, st0, steps as nat) == SrcRun::Going(self.st()),
            decreases max_steps - steps,
        {
            let ghost pre = self.st();
            let r = self.step(flush);
            match r {
                Ok(_) => {
                    proof {
                        assert(src_run(code0, in0, flush, st0, (steps + 1) as nat)
                            == SrcRun::Going(self.st()));
                    }
                    steps = steps + 1;
                },
                Err(f) => {
                    proof {
                        assert(src_run(code0, in0, flush, st0, (steps + 1) as nat)
                            == SrcRun::Faulted(f, pre));
                        assert((steps + 1) as nat <= max_steps);
                    }
                    return Err(f);
                },
            }
        }
        if self.ip < self.code.len() {
            return Ok(false);
        }
        let ghost s_halt = self.st();
        proof {
            assert(src_run(code0, in0, flush, st0, (steps + 1) as nat) == SrcRun::Halted(s_halt));
        }
        if flush == FlushBehavior::OnEnd {
            self.events.push(SinkEvent::Flush);
        }
        proof {
            assert(final(self).st() == src_post_flush(s_halt, flush));
            assert(src_run(code0, in0, flush, st0, (steps as nat) + 1) matches SrcRun::Halted(s)
                && final(self).st() == src_post_flush(s, flush));
        }
        Ok(true)
    }

    /// The bytes written so far, in order.
    pub fn output(&self) -> (out: Vec<u8>)
        ensures
            out@ == event_bytes(self.events@),
    {
        let mut out: Vec<u8> = Vec::new();
        let mut i: usize = 0;
        while i < self.events.len()
            invariant
                i <= self.events@.len(),
                out@ == event_bytes(self.events@.take(i as int)),
            decreases self.events@.len() - i,
        {
            match self.events[i] {
                SinkEvent::Byte(b) => {
                    out.push(b);
                },
                SinkEvent::Flush => {},
            }
            proof {
                assert(self.events@.take(i + 1).drop_last() =~= self.events@.take(i as int));
                assert(self.events@.take(i + 1).last() == self.events@[i as int]);
            }
            i = i + 1;
        }
        proof {
            assert(self.events@.take(self.events@.len() as int) =~= self.events@);
        }
        out
    }
}

/// Appending one written byte, with its flush under `OnWrite`, preserves the
/// flush discipline of the policy.
proof fn lemma_one_write_shape(es: Seq<SinkEvent>, b: u8, flush: FlushBehavior)
    ensures
        flush is OnWrite && onwrite_shaped(es) ==> onwrite_shaped(
            es + seq![SinkEvent::Byte(b)] + seq![SinkEvent::Flush],
        ),
        !(flush is OnWrite) && flush_free(es) ==> flush_free(
            es + seq![SinkEvent::Byte(b)] + Seq::<SinkEvent>::empty(),
        ),
{
    if flush is OnWrite && onwrite_shaped(es) {
        let post = es + seq![SinkEvent::Byte(b)] + seq![SinkEvent::Flush];
        assert forall|k: int| 0 <= k < post.len() && k % 2 == 0 implies (#[trigger] post[k])
            is Byte by {
            if k < es.len() {
                assert(post[k] == es[k]);
            }
        }
        assert forall|k: int| 0 <= k < post.len() && k % 2 == 1 implies (#[trigger] post[k])
            is Flush by {
            if k < es.len() {
                assert(post[k] == es[k]);
            }
        }
    }
}

/// Flush contract along any interpreter run. Under `OnWrite` every byte in
/// the trace is followed at once by a flush; under `OnEnd` and `Disabled` no
/// flush is emitted while opcodes run (under `OnEnd`, `execute` then flushes
/// exactly once, after the last opcode).
pub proof fn lemma_src_flush_discipline(
    code: Seq<u8>,
    input: Seq<u8>,
    flush: FlushBehavior,
    s0: SrcState,
    n: nat,
)
    requires
        flush is OnWrite ==> onwrite_shaped(s0.events),
        !(flush is OnWrite) ==> flush_free(s0.events),
    ensures
        match src_run(code, input, flush, s0, n) {
            SrcRun::Going(s) => (flush is OnWrite ==> onwrite_shaped(s.events)) && (!(flush
                is OnWrite) ==> flush_free(s.events)),
            SrcRun::Halted(s) => (flush is OnWrite ==> onwrite_shaped(s.events)) && (!(flush
                is OnWrite) ==> flush_free(s.events)),
            SrcRun::Faulted(_, s) => (flush is OnWrite ==> onwrite_shaped(s.events)) && (!(flush
                is OnWrite) ==> flush_free(s.events)),
        },
    decreases n,
{
    if n > 0 {
        lemma_src_flush_discipline(code, input, flush, s0, (n - 1) as nat);
        match src_run(code, input, flush, s0, (n - 1) as nat) {
            SrcRun::Going(s) => {
                if s.ip < code.len() && code[s.ip] == IDENT_WRITE_BYTE {
                    lemma_one_write_shape(s.events, s.tape[s.dp], flush);
                }
            },
            _ => {},
        }
    }
}

/// After `k` steps of a program of `m` AdvanceDP opcodes, the data pointer
/// has advanced `k` cells and nothing else has changed.
proof fn lemma_src_advance_run(
    input: Seq<u8>,
    flush: FlushBehavior,
    s0: SrcState,
    m: nat,
    k: nat,
)
    requires
        s0.ip == 0,
        s0.dp == 0,
        k <= m,
        k <= 29999,
    ensures
        src_run(Seq::new(m, |t: int| IDENT_INC_DP), input, flush, s0, k) == SrcRun::Going(
            SrcState { ip: k as int, dp: k as int, ..s0 },
        ),
    decreases k,
{
    let code = Seq::new(m, |t: int| IDENT_INC_DP);
    if k == 0 {
        assert(SrcState { ip: 0, dp: 0, ..s0 } == s0);
    } else {
        lemma_src_advance_run(input, flush, s0, m, (k - 1) as nat);
        let s = SrcState { ip: k - 1, dp: k - 1, ..s0 };
        assert(code[s.ip] == IDENT_INC_DP);
        assert(src_step(code, input, flush, s) == SrcStep::Going(
            SrcState { ip: k as int, dp: k as int, ..s0 },
        ));
    }
}

/// Tape size boundary: 30000 consecutive AdvanceDP opcodes executed from
/// DP = 0 fault on the last one; 29999 run to completion, leaving the data
/// pointer on the last cell.
pub proof fn lemma_src_tape_boundary(input: Seq<u8>, flush: FlushBehavior, s0: SrcState)
    requires
        s0.ip == 0,
        s0.dp == 0,
    ensures
        src_run(Seq::new(30000, |t: int| IDENT_INC_DP), input, flush, s0, 30000)
            matches SrcRun::Faulted(f, _) && f == ExecFault::TapeFault,
        src_run(Seq::new(29999, |t: int| IDENT_INC_DP), input, flush, s0, 30000)
            matches SrcRun::Halted(s2) && s2.dp == 29999,
{
    lemma_src_advance_run(input, flush, s0, 30000, 29999);
    lemma_src_advance_run(input, flush, s0, 29999, 29999);
    let code1 = Seq::new(30000, |t: int| IDENT_INC_DP);
    let code2 = Seq::new(29999, |t: int| IDENT_INC_DP);
    let s = SrcState { ip: 29999, dp: 29999, ..s0 };
    assert(code1[s.ip] == IDENT_INC_DP);
    assert(src_step(code1, input, flush, s) == SrcStep::Faulted(ExecFault::TapeFault));
    assert(src_run(code1, input, flush, s0, 30000) == SrcRun::Faulted(ExecFault::TapeFault, s));
}

/// Cell wrapping: a single DecCell on a zero cell leaves it equal to 255; a
/// single IncCell on a cell equal to 255 leaves it equal to 0.
pub proof fn lemma_src_cell_wrapping(
    code: Seq<u8>,
    input: Seq<u8>,
    flush: FlushBehavior,
    s: SrcState,
)
    requires
        0 <= s.ip < code.len(),
        0 <= s.dp < s.tape.len(),
    ensures
        code[s.ip] == IDENT_DEC_DATA && s.tape[s.dp] == 0 ==> (src_step(code, input, flush, s)
            matches SrcStep::Going(s1) && s1.tape[s.dp] == 255),
        code[s.ip] == IDENT_INC_DATA && s.tape[s.dp] == 255 ==> (src_step(code, input, flush, s)
            matches SrcStep::Going(s1) && s1.tape[s.dp] == 0),
{
}

} // verus!
