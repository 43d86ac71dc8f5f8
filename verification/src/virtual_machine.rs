use vstd::prelude::*;

use crate::DATA_SIZE;
use crate::ExecFault;
use crate::FlushBehavior;
use crate::SinkEvent;
use crate::compiler::Instruction;
use crate::compiler::spec_compile;
use crate::compiler::lemma_compile_folds_run;
use crate::compiler::well_formed;
use crate::compiler::wf_at;
use crate::event_bytes;
use crate::flush_free;
use crate::onwrite_shaped;
use crate::wrap_add;
use crate::wrap_sub;
use crate::zeroed_tape;
use crate::syntax::IDENT_INC_DP;

verus! {

/// The mathematical state of a running virtual machine: everything but the
/// program and the input, which never change.
pub ghost struct VmState {
    pub ip: int,
    pub dp: int,
    pub tape: Seq<u8>,
    pub rp: int,
    pub events: Seq<SinkEvent>,
}

/// The outcome of dispatching one instruction.
pub ghost enum VmStep {
    Going(VmState),
    Faulted(ExecFault),
}

/// The outcome of a bounded run: still going, halted (instruction pointer
/// past the end), or aborted by the first fault, with the state it happened
/// in.
pub ghost enum VmRun {
    Going(VmState),
    Halted(VmState),
    Faulted(ExecFault, VmState),
}

/// The trace appended by one `WriteByte` instruction carrying count `n`:
/// `n` bytes, each followed by a flush when the policy is `OnWrite`.
pub open spec fn write_events(b: u8, n: nat, flush: FlushBehavior) -> Seq<SinkEvent>
    decreases n,
{
    if n == 0 {
        Seq::empty()
    } else {
        write_events(b, (n - 1) as nat, flush) + seq![SinkEvent::Byte(b)] + if flush
            is OnWrite {
            seq![SinkEvent::Flush]
        } else {
            Seq::empty()
        }
    }
}

/// One dispatch of the instruction under `s.ip`.
pub open spec fn vm_step(
    prog: Seq<Instruction>,
    input: Seq<u8>,
    flush: FlushBehavior,
    s: VmState,
) -> VmStep {
    match prog[s.ip] {
        Instruction::IncDP(n) => if s.dp + n >= DATA_SIZE {
            VmStep::Faulted(ExecFault::TapeFault)
        } else {
            VmStep::Going(VmState { ip: s.ip + 1, dp: s.dp + n, ..s })
        },
        Instruction::DecDP(n) => if s.dp - n < 0 {
            VmStep::Faulted(ExecFault::TapeFault)
        } else {
            VmStep::Going(VmState { ip: s.ip + 1, dp: s.dp - n, ..s })
        },
        Instruction::IncByteAtDP(n) => VmStep::Going(
            VmState { ip: s.ip + 1, tape: s.tape.update(s.dp, wrap_add(s.tape[s.dp], n)), ..s },
        ),
        Instruction::DecByteAtDP(n) => VmStep::Going(
            VmState { ip: s.ip + 1, tape: s.tape.update(s.dp, wrap_sub(s.tape[s.dp], n)), ..s },
        ),
        Instruction::WriteByte(n) => VmStep::Going(
            VmState { ip: s.ip + 1, events: s.events + write_events(s.tape[s.dp], n as nat, flush), ..s },
        ),
        Instruction::ReadByte => if s.rp >= input.len() {
            VmStep::Faulted(ExecFault::EndOfInput)
        } else {
            VmStep::Going(
                VmState { ip: s.ip + 1, tape: s.tape.update(s.dp, input[s.rp]), rp: s.rp + 1, ..s },
            )
        },
        Instruction::JumpZero(f) => if s.tape[s.dp] == 0 {
            VmStep::Going(VmState { ip: s.ip + f, ..s })
        } else {
            VmStep::Going(VmState { ip: s.ip + 1, ..s })
        },
        Instruction::JumpNotZero(b) => if s.tape[s.dp] != 0 {
            VmStep::Going(VmState { ip: s.ip - b, ..s })
        } else {
            VmStep::Going(VmState { ip: s.ip + 1, ..s })
        },
        _ => VmStep::Going(VmState { ip: s.ip + 1, ..s }),
    }
}

/// `n` dispatches from `s0`, stopping at a halt or at the first fault.
pub open spec fn vm_run(
    prog: Seq<Instruction>,
    input: Seq<u8>,
    flush: FlushBehavior,
    s0: VmState,
    n: nat,
) -> VmRun
    decreases n,
{
    if n == 0 {
        VmRun::Going(s0)
    } else {
        match vm_run(prog, input, flush, s0, (n - 1) as nat) {
            VmRun::Going(s) => if s.ip >= prog.len() {
                VmRun::Halted(s)
            } else {
                match vm_step(prog, input, flush, s) {
                    VmStep::Going(s1) => VmRun::Going(s1),
                    VmStep::Faulted(f) => VmRun::Faulted(f, s),
                }
            },
            done => done,
        }
    }
}

/// The state after the run, with the final flush that `OnEnd` performs.
pub open spec fn post_flush(s: VmState, flush: FlushBehavior) -> VmState {
    if flush is OnEnd {
        VmState { events: s.events.push(SinkEvent::Flush), ..s }
    } else {
        s
    }
}

/// A virtual machine that executes compiled bytecode.
pub struct VirtualMachine {
    pub instructions: Vec<Instruction>,
    pub ip: usize,
    pub data: Vec<u8>,
    pub dp: usize,
    pub input: Vec<u8>,
    pub rp: usize,
    pub events: Vec<SinkEvent>,
}

impl VirtualMachine {
    /// The machine as a mathematical state.
    pub open spec fn st(self) -> VmState {
        VmState {
            ip: self.ip as int,
            dp: self.dp as int,
            tape: self.data@,
            rp: self.rp as int,
            events: self.events@,
        }
    }

    /// Bounds that every reachable machine satisfies.
    pub open spec fn inv(self) -> bool {
        &&& self.ip <= self.instructions@.len()
        &&& self.data@.len() == DATA_SIZE
        &&& self.dp < DATA_SIZE
        &&& self.rp <= self.input@.len()
    }

    /// Create a new virtual machine that executes the given `instructions`,
    /// reading program input from `input`.
    pub fn new(instructions: Vec<Instruction>, input: Vec<u8>) -> (m: VirtualMachine)
        ensures
            m.instructions@ == instructions@,
            m.input@ == input@,
            m.inv(),
            m.st() == (VmState {
                ip: 0,
                dp: 0,
                tape: Seq::new(DATA_SIZE as nat, |t: int| 0u8),
                rp: 0,
                events: Seq::empty(),
            }),
    {
        let data = zeroed_tape();
        let m = VirtualMachine { instructions, ip: 0, data, dp: 0, input, rp: 0, events: Vec::new() };
        proof {
            assert(m.data@ =~= Seq::new(DATA_SIZE as nat, |t: int| 0u8));
        }
        m
    }

    /// Dispatch one instruction. Returns `Ok(true)` when an instruction ran,
    /// `Ok(false)` when the program has already halted, and the first fault
    /// otherwise, leaving the machine as it was.
    pub fn step(&mut self, flush: FlushBehavior) -> (r: Result<bool, ExecFault>)
        requires
            well_formed(old(self).instructions@),
            old(self).inv(),
        ensures
            final(self).instructions@ == old(self).instructions@,
            final(self).input@ == old(self).input@,
            final(self).inv(),
            old(self).ip >= old(self).instructions@.len() ==> r == Ok::<bool, ExecFault>(false)
                && final(self).st() == old(self).st(),
            old(self).ip < old(self).instructions@.len() ==> match vm_step(
                old(self).instructions@,
                old(self).input@,
                flush,
                old(self).st(),
            ) {
                VmStep::Going(s1) => r == Ok::<bool, ExecFault>(true) && final(self).st() == s1,
                VmStep::Faulted(f) => r == Err::<bool, ExecFault>(f) && final(self).st() == old(
                    self,
                ).st(),
            },
    {
        if self.ip >= self.instructions.len() {
            return Ok(false);
        }
        proof {
            assert(wf_at(self.instructions@, self.ip as int));
        }
        let instr: Instruction = self.instructions[self.ip];
        match instr {
            Instruction::IncDP(n) => {
                if n >= DATA_SIZE - self.dp {
                    return Err(ExecFault::TapeFault);
                }
                self.dp = self.dp + n;
                self.ip = self.ip + 1;
            },
            Instruction::DecDP(n) => {
                if n > self.dp {
                    return Err(ExecFault::TapeFault);
                }
                self.dp = self.dp - n;
                self.ip = self.ip + 1;
            },
            Instruction::IncByteAtDP(n) => {
                let m: u8 = (n % 256) as u8;
                let v: u8 = self.data[self.dp];
                self.data.set(self.dp, v.wrapping_add(m));
                self.ip = self.ip + 1;
            },
            Instruction::DecByteAtDP(n) => {
                let m: u8 = (n % 256) as u8;
                let v: u8 = self.data[self.dp];
                self.data.set(self.dp, v.wrapping_sub(m));
                self.ip = self.ip + 1;
            },
            Instruction::WriteByte(n) => {
                let b: u8 = self.data[self.dp];
                let ghost ev0 = self.events@;
                let ghost self0 = *self;
                let mut t: usize = 0;
                while t < n
                    invariant
                        t <= n,
                        self.events@ == ev0 + write_events(b, t as nat, flush),
                        self.instructions@ == self0.instructions@,
                        self.input@ == self0.input@,
                        self.data@ == self0.data@,
                        self.ip == self0.ip,
                        self.dp == self0.dp,
                        self.rp == self0.rp,
                    decreases n - t,
                {
                    self.events.push(SinkEvent::Byte(b));
                    if flush == FlushBehavior::OnWrite {
                        self.events.push(SinkEvent::Flush);
                        proof {
                            assert(self.events@ =~= ev0 + write_events(b, (t + 1) as nat, flush));
                        }
                    } else {
                        proof {
                            assert(self.events@ =~= ev0 + write_events(b, (t + 1) as nat, flush));
                        }
                    }
                    t = t + 1;
                }
                self.ip = self.ip + 1;
            },
            Instruction::ReadByte => {
                if self.rp >= self.input.len() {
                    return Err(ExecFault::EndOfInput);
                }
                let x: u8 = self.input[self.rp];
                self.data.set(self.dp, x);
                self.rp = self.rp + 1;
                self.ip = self.ip + 1;
            },
            Instruction::JumpZero(f) => {
                if self.data[self.dp] == 0 {
                    self.ip = self.ip + f;
                } else {
                    self.ip = self.ip + 1;
                }
            },
            Instruction::JumpNotZero(b) => {
                if self.data[self.dp] != 0 {
                    self.ip = self.ip - b;
                } else {
                    self.ip = self.ip + 1;
                }
            },
            _ => {
                self.ip = self.ip + 1;
            },
        }
        Ok(true)
    }

    /// Executes at most `max_steps` instructions. Returns `Ok(true)` when the
    /// program halted (flushing once at the end under `OnEnd`), `Ok(false)`
    /// when the budget ran out first, and the first fault otherwise.
    pub fn execute(&mut self, flush: FlushBehavior, max_steps: usize) -> (r: Result<
        bool,
        ExecFault,
    >)
        requires
            well_formed(old(self).instructions@),
            old(self).inv(),
        ensures
            final(self).instructions@ == old(self).instructions@,
            final(self).input@ == old(self).input@,
            final(self).inv(),
            match r {
                Ok(true) => exists|n: nat|
                    n <= max_steps && (#[trigger] vm_run(
                        old(self).instructions@,
                        old(self).input@,
                        flush,
                        old(self).st(),
                        n + 1,
                    ) matches VmRun::Halted(s) && final(self).st() == post_flush(s, flush)),
                Ok(false) => vm_run(
                    old(self).instructions@,
                    old(self).input@,
                    flush,
                    old(self).st(),
                    max_steps as nat,
                ) matches VmRun::Going(s) && final(self).st() == s && s.ip
                    < old(self).instructions@.len(),
                Err(f) => exists|n: nat|
                    n <= max_steps && (#[trigger] vm_run(
                        old(self).instructions@,
                        old(self).input@,
                        flush,
                        old(self).st(),
                        n,
                    ) matches VmRun::Faulted(f2, s) && f2 == f && final(self).st() == s),
            },
    {
        let ghost prog0 = self.instructions@;
        let ghost in0 = self.input@;
        let ghost st0 = self.st();
        let mut steps: usize = 0;
        while steps < max_steps && self.ip < self.instructions.len()
            invariant
                well_formed(self.instructions@),
                self.inv(),
                prog0 == old(self).instructions@,
                in0 == old(self).input@,
                st0 == old(self).st(),
                self.instructions@ == prog0,
                self.input@ == in0,
                steps <= max_steps,
                vm_run(prog0, in0, flush, st0, steps as nat) == VmRun::Going(self.st()),
            decreases max_steps - steps,
        {
            let ghost pre = self.st();
            let r = self.step(flush);
            match r {
                Ok(_) => {
                    proof {
                        assert(vm_run(prog0, in0, flush, st0, (steps + 1) as nat) == VmRun::Going(
                            self.st(),
                        ));
                    }
                    steps = steps + 1;
                },
                Err(f) => {
                    proof {
                        assert(vm_run(prog0, in0, flush, st0, (steps + 1) as nat)
                            == VmRun::Faulted(f, pre));
                        assert((steps + 1) as nat <= max_steps);
                    }
                    return Err(f);
                },
            }
        }
        if self.ip < self.instructions.len() {
            return Ok(false);
        }
        let ghost s_halt = self.st();
        proof {
            assert(vm_run(prog0, in0, flush, st0, (steps + 1) as nat) == VmRun::Halted(s_halt));
        }
        if flush == FlushBehavior::OnEnd {
            self.events.push(SinkEvent::Flush);
        }
        proof {
            assert(final(self).st() == post_flush(s_halt, flush));
            assert(vm_run(prog0, in0, flush, st0, (steps as nat) + 1) matches VmRun::Halted(s)
                && final(self).st() == post_flush(s, flush));
        }
        Ok(true)
    }

    /// The bytes written so far, in order.
    pub fn output(&self) -> (out: Vec<u8>)
        ensures
            out@ == event_bytes(self.events@),
    {
        let mut out: Vec<u8> = Vec::new();
        let mut i: usize = 0;
        while i < self.events.len()
            invariant
                i <= self.events@.len(),
                out@ == event_bytes(self.events@.take(i as int)),
            decreases self.events@.len() - i,
        {
            match self.events[i] {
                SinkEvent::Byte(b) => {
                    out.push(b);
                },
                SinkEvent::Flush => {},
            }
            proof {
                assert(self.events@.take(i + 1).drop_last() =~= self.events@.take(i as int));
                assert(self.events@.take(i + 1).last() == self.events@[i as int]);
            }
            i = i + 1;
        }
        proof {
            assert(self.events@.take(self.events@.len() as int) =~= self.events@);
        }
        out
    }
}

/// Appending one write's trace preserves the flush discipline of the policy.
proof fn lemma_write_events_shape(es: Seq<SinkEvent>, b: u8, n: nat, flush: FlushBehavior)
    ensures
        flush is OnWrite && onwrite_shaped(es) ==> onwrite_shaped(
            es + write_events(b, n, flush),
        ),
        !(flush is OnWrite) && flush_free(es) ==> flush_free(es + write_events(b, n, flush)),
    decreases n,
{
    if n == 0 {
        assert(es + write_events(b, n, flush) =~= es);
    } else {
        lemma_write_events_shape(es, b, (n - 1) as nat, flush);
        if flush is OnWrite {
            assert(es + write_events(b, n, flush) =~= (es + write_events(b, (n - 1) as nat, flush))
                + seq![SinkEvent::Byte(b), SinkEvent::Flush]);
            if onwrite_shaped(es) {
                let pre = es + write_events(b, (n - 1) as nat, flush);
                let post = pre + seq![SinkEvent::Byte(b), SinkEvent::Flush];
                assert forall|k: int| 0 <= k < post.len() && k % 2 == 0 implies (#[trigger] post[k])
                    is Byte by {
                    if k < pre.len() {
                        assert(post[k] == pre[k]);
                    }
                }
                assert forall|k: int| 0 <= k < post.len() && k % 2 == 1 implies (#[trigger] post[k])
                    is Flush by {
                    if k < pre.len() {
                        assert(post[k] == pre[k]);
                    }
                }
            }
        } else {
            assert(es + write_events(b, n, flush) =~= (es + write_events(b, (n - 1) as nat, flush))
                + seq![SinkEvent::Byte(b)]);
        }
    }
}

/// Flush contract along any virtual machine run. Under `OnWrite` every byte
/// in the trace is followed at once by a flush; under `OnEnd` and `Disabled`
/// no flush is emitted while instructions run (under `OnEnd`, `execute` then
/// flushes exactly once, after the last instruction).
pub proof fn lemma_vm_flush_discipline(
    prog: Seq<Instruction>,
    input: Seq<u8>,
    flush: FlushBehavior,
    s0: VmState,
    n: nat,
)
    requires
        flush is OnWrite ==> onwrite_shaped(s0.events),
        !(flush is OnWrite) ==> flush_free(s0.events),
    ensures
        match vm_run(prog, input, flush, s0, n) {
            VmRun::Going(s) => (flush is OnWrite ==> onwrite_shaped(s.events)) && (!(flush
                is OnWrite) ==> flush_free(s.events)),
            VmRun::Halted(s) => (flush is OnWrite ==> onwrite_shaped(s.events)) && (!(flush
                is OnWrite) ==> flush_free(s.events)),
            VmRun::Faulted(_, s) => (flush is OnWrite ==> onwrite_shaped(s.events)) && (!(flush
                is OnWrite) ==> flush_free(s.events)),
        },
    decreases n,
{
    if n > 0 {
        lemma_vm_flush_discipline(prog, input, flush, s0, (n - 1) as nat);
        match vm_run(prog, input, flush, s0, (n - 1) as nat) {
            VmRun::Going(s) => {
                if s.ip < prog.len() {
                    match prog[s.ip] {
                        Instruction::WriteByte(m) => {
                            lemma_write_events_shape(s.events, s.tape[s.dp], m as nat, flush);
                        },
                        _ => {},
                    }
                }
            },
            _ => {},
        }
    }
}

/// Tape size boundary: a run of 30000 AdvanceDP opcodes compiles to a single
/// folded instruction that faults when executed from DP = 0, while a run of
/// 29999 halts with the data pointer on the last cell.
pub proof fn lemma_tape_boundary(input: Seq<u8>, flush: FlushBehavior, s: VmState)
    requires
        s.ip == 0,
        s.dp == 0,
    ensures
        spec_compile(Seq::new(30000, |t: int| IDENT_INC_DP)) == Ok::<
            Seq<Instruction>,
            crate::compiler::CompileError,
        >(seq![Instruction::IncDP(30000)]),
        spec_compile(Seq::new(29999, |t: int| IDENT_INC_DP)) == Ok::<
            Seq<Instruction>,
            crate::compiler::CompileError,
        >(seq![Instruction::IncDP(29999)]),
        vm_run(seq![Instruction::IncDP(30000)], input, flush, s, 1) matches VmRun::Faulted(
            f,
            _,
        ) && f == ExecFault::TapeFault,
        vm_run(seq![Instruction::IncDP(29999)], input, flush, s, 2) matches VmRun::Halted(s2)
            && s2.dp == 29999,
{
    lemma_compile_folds_run(IDENT_INC_DP, 30000);
    lemma_compile_folds_run(IDENT_INC_DP, 29999);
    let p1 = seq![Instruction::IncDP(30000)];
    let p2 = seq![Instruction::IncDP(29999)];
    assert(vm_run(p1, input, flush, s, 0) == VmRun::Going(s));
    assert(vm_run(p2, input, flush, s, 0) == VmRun::Going(s));
    assert(vm_step(p2, input, flush, s) == VmStep::Going(VmState { ip: 1, dp: 29999, ..s }));
    assert(vm_run(p2, input, flush, s, 1) == VmRun::Going(VmState { ip: 1, dp: 29999, ..s }));
}

/// Cell wrapping at the bytecode level: subtracting one from a zero cell
/// leaves 255, adding one to a cell at 255 leaves 0.
pub proof fn lemma_vm_cell_wrapping()
    ensures
        wrap_sub(0u8, 1) == 255u8,
        wrap_add(255u8, 1) == 0u8,
{
}

} // verus!
