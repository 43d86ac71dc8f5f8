use vstd::prelude::*;

use crate::compiler::Instruction;
use crate::compiler::well_formed;
use crate::compiler::wf_at;

verus! {

/// Largest body size, in bytes, that the signed 32-bit jump displacements
/// can span.
pub const MAX_CODE_LEN: usize = 0x7fffffe0;

/// Lowering failed because the program does not fit the jump encodings.
#[derive(Debug, PartialEq, Eq, Structural, Clone, Copy)]
pub enum JitError {
    CodeTooLarge,
}

/// The four little-endian bytes of `x`.
pub open spec fn le4(x: u32) -> Seq<u8> {
    seq![
        (x % 256) as u8,
        ((x / 0x100) % 256) as u8,
        ((x / 0x10000) % 256) as u8,
        ((x / 0x1000000) % 256) as u8,
    ]
}

/// The eight little-endian bytes of `x`.
pub open spec fn le8(x: u64) -> Seq<u8> {
    seq![
        (x % 256) as u8,
        ((x / 0x100) % 256) as u8,
        ((x / 0x10000) % 256) as u8,
        ((x / 0x1000000) % 256) as u8,
        ((x / 0x100000000) % 256) as u8,
        ((x / 0x10000000000) % 256) as u8,
        ((x / 0x1000000000000) % 256) as u8,
        ((x / 0x100000000000000) % 256) as u8,
    ]
}

/// push rbp; push r12; mov r12, <tape address>; mov rbp, rsp.
pub open spec fn enc_prologue(data_start: u64) -> Seq<u8> {
    seq![0x55u8, 0x41u8, 0x54u8, 0x49u8, 0xbcu8] + le8(data_start) + seq![0x48u8, 0x89u8, 0xe5u8]
}

/// mov rsp, rbp; pop r12; pop rbp; ret.
pub open spec fn enc_epilogue() -> Seq<u8> {
    seq![0x48u8, 0x89u8, 0xecu8, 0x41u8, 0x5cu8, 0x5du8, 0xc3u8]
}

/// inc r12, or add r12 with an 8-bit or 32-bit immediate, by run length.
/// Counts beyond 32 bits have no encoding; `lower` refuses them.
pub open spec fn enc_inc_dp(n: usize) -> Seq<u8> {
    if n == 0 {
        Seq::empty()
    } else if n == 1 {
        seq![0x49u8, 0xffu8, 0xc4u8]
    } else if n <= 127 {
        seq![0x49u8, 0x83u8, 0xc4u8, n as u8]
    } else {
        seq![0x49u8, 0x81u8, 0xc4u8] + le4(((n as int) % 0x100000000) as u32)
    }
}

/// dec r12, or sub r12 with an 8-bit or 32-bit immediate, by run length.
/// Counts beyond 32 bits have no encoding; `lower` refuses them.
pub open spec fn enc_dec_dp(n: usize) -> Seq<u8> {
    if n == 0 {
        Seq::empty()
    } else if n == 1 {
        seq![0x49u8, 0xffu8, 0xccu8]
    } else if n <= 127 {
        seq![0x49u8, 0x83u8, 0xecu8, n as u8]
    } else {
        seq![0x49u8, 0x81u8, 0xecu8] + le4(((n as int) % 0x100000000) as u32)
    }
}

/// inc or add on the byte at [r12]; the count acts modulo 256.
pub open spec fn enc_add_cell(n: usize) -> Seq<u8> {
    let m = (n as int) % 256;
    if m == 0 {
        Seq::empty()
    } else if m == 1 {
        seq![0x41u8, 0xfeu8, 0x04u8, 0x24u8]
    } else {
        seq![0x41u8, 0x80u8, 0x04u8, 0x24u8, m as u8]
    }
}

/// dec or sub on the byte at [r12]; the count acts modulo 256.
pub open spec fn enc_sub_cell(n: usize) -> Seq<u8> {
    let m = (n as int) % 256;
    if m == 0 {
        Seq::empty()
    } else if m == 1 {
        seq![0x41u8, 0xfeu8, 0x0cu8, 0x24u8]
    } else {
        seq![0x41u8, 0x80u8, 0x2cu8, 0x24u8, m as u8]
    }
}

/// One write(2) syscall of the byte at [r12] to file descriptor 1.
pub open spec fn enc_write_once() -> Seq<u8> {
    seq![
        0xb8u8, 0x01u8, 0x00u8, 0x00u8, 0x00u8, 0xbfu8, 0x01u8, 0x00u8, 0x00u8, 0x00u8, 0x4cu8,
        0x89u8, 0xe6u8, 0xbau8, 0x01u8, 0x00u8, 0x00u8, 0x00u8, 0x0fu8, 0x05u8,
    ]
}

/// A folded write: one syscall per repetition.
pub open spec fn enc_write(n: nat) -> Seq<u8>
    decreases n,
{
    if n == 0 {
        Seq::empty()
    } else {
        enc_write((n - 1) as nat) + enc_write_once()
    }
}

/// One read(2) syscall into the byte at [r12] from file descriptor 0.
pub open spec fn enc_read() -> Seq<u8> {
    seq![
        0xb8u8, 0x00u8, 0x00u8, 0x00u8, 0x00u8, 0xbfu8, 0x00u8, 0x00u8, 0x00u8, 0x00u8, 0x4cu8,
        0x89u8, 0xe6u8, 0xbau8, 0x01u8, 0x00u8, 0x00u8, 0x00u8, 0x0fu8, 0x05u8,
    ]
}

/// cmp byte [r12], 0; je with a forward 32-bit displacement.
pub open spec fn enc_jz(disp: int) -> Seq<u8> {
    seq![0x41u8, 0x80u8, 0x3cu8, 0x24u8, 0x00u8, 0x0fu8, 0x84u8] + le4(disp as u32)
}

/// cmp byte [r12], 0; jne back over `disp` bytes plus its own 11 bytes.
pub open spec fn enc_jnz(disp: int) -> Seq<u8> {
    seq![0x41u8, 0x80u8, 0x3cu8, 0x24u8, 0x00u8, 0x0fu8, 0x85u8] + le4(
        (0x100000000 - (disp + 11)) as u32,
    )
}

/// Every pointer-move count fits the 32-bit immediate its encoding embeds.
/// Lowering refuses programs that break this, so no emitted move is ever
/// truncated.
pub open spec fn dp_counts_fit(prog: Seq<Instruction>) -> bool {
    forall|i: int|
        0 <= i < prog.len() ==> match #[trigger] prog[i] {
            Instruction::IncDP(n) => n < 0x100000000,
            Instruction::DecDP(n) => n < 0x100000000,
            _ => true,
        }
}

/// The number of native bytes each instruction occupies: deterministic in
/// the payload alone, never in the jump target, which is what makes the
/// measure-then-emit jump resolution sound.
pub open spec fn instr_len(i: Instruction) -> nat {
    match i {
        Instruction::IncDP(n) => if n == 0 {
            0
        } else if n == 1 {
            3
        } else if n <= 127 {
            4
        } else {
            7
        },
        Instruction::DecDP(n) => if n == 0 {
            0
        } else if n == 1 {
            3
        } else if n <= 127 {
            4
        } else {
            7
        },
        Instruction::IncByteAtDP(n) => if (n as int) % 256 == 0 {
            0
        } else if (n as int) % 256 == 1 {
            4
        } else {
            5
        },
        Instruction::DecByteAtDP(n) => if (n as int) % 256 == 0 {
            0
        } else if (n as int) % 256 == 1 {
            4
        } else {
            5
        },
        Instruction::WriteByte(n) => 20 * n as nat,
        Instruction::ReadByte => 20,
        Instruction::JumpZero(_) => 11,
        Instruction::JumpNotZero(_) => 11,
        Instruction::JumpZeroPlaceholder => 0,
        Instruction::JumpNotZeroPlaceholder => 0,
    }
}

/// Total native size of the instructions in `[lo, hi)`.
pub open spec fn span_len(prog: Seq<Instruction>, lo: int, hi: int) -> nat
    decreases hi - lo,
{
    if lo >= hi {
        0
    } else {
        span_len(prog, lo, hi - 1) + instr_len(prog[hi - 1])
    }
}

pub proof fn lemma_span_additive(prog: Seq<Instruction>, a: int, b: int, c: int)
    requires
        a <= b <= c,
    ensures
        span_len(prog, a, c) == span_len(prog, a, b) + span_len(prog, b, c),
    decreases c - b,
{
    if b < c {
        lemma_span_additive(prog, a, b, c - 1);
    }
}

pub proof fn lemma_enc_write_len(n: nat)
    ensures
        enc_write(n).len() == 20 * n,
    decreases n,
{
    if n > 0 {
        lemma_enc_write_len((n - 1) as nat);
    }
}

/// The bytes of the instruction at `i`, with jump displacements measured over
/// the bytecode between the jump and its partner.
pub open spec fn enc_at(prog: Seq<Instruction>, i: int) -> Seq<u8> {
    match prog[i] {
        Instruction::IncDP(n) => enc_inc_dp(n),
        Instruction::DecDP(n) => enc_dec_dp(n),
        Instruction::IncByteAtDP(n) => enc_add_cell(n),
        Instruction::DecByteAtDP(n) => enc_sub_cell(n),
        Instruction::WriteByte(n) => enc_write(n as nat),
        Instruction::ReadByte => enc_read(),
        Instruction::JumpZero(f) => enc_jz(span_len(prog, i + 1, i + f) as int),
        Instruction::JumpNotZero(b) => enc_jnz(span_len(prog, i - b, i) as int),
        Instruction::JumpZeroPlaceholder => Seq::empty(),
        Instruction::JumpNotZeroPlaceholder => Seq::empty(),
    }
}

/// Measurement and emission agree: the bytes of the instruction at `i` are
/// exactly as many as `instr_len` says, whatever its jump target.
pub proof fn lemma_enc_at_len(prog: Seq<Instruction>, i: int)
    requires
        0 <= i < prog.len(),
    ensures
        enc_at(prog, i).len() == instr_len(prog[i]),
{
    match prog[i] {
        Instruction::WriteByte(n) => {
            lemma_enc_write_len(n as nat);
        },
        _ => {},
    }
}

/// The native code for the instructions in `[0, hi)`, concatenated in order.
pub open spec fn emit_range(prog: Seq<Instruction>, hi: int) -> Seq<u8>
    decreases hi,
{
    if hi <= 0 {
        Seq::empty()
    } else {
        emit_range(prog, hi - 1) + enc_at(prog, hi - 1)
    }
}

/// Measurement and emission agree over the whole program: the emitted body
/// is exactly as long as the measured sizes say, so the displacements the
/// first pass computed are the distances that hold in the final buffer.
pub proof fn lemma_emit_range_len(prog: Seq<Instruction>, hi: int)
    requires
        hi <= prog.len(),
    ensures
        emit_range(prog, hi).len() == span_len(prog, 0, hi),
    decreases hi,
{
    if hi > 0 {
        lemma_emit_range_len(prog, hi - 1);
        lemma_enc_at_len(prog, hi - 1);
    }
}

/// Encapsulates machine code instructions. While `suspend_write` is set the
/// emitters only measure: they return the byte length they would append,
/// without appending.
#[derive(Debug)]
pub struct MachineCode {
    pub buf: Vec<u8>,
    pub suspend_write: bool,
}

impl Default for MachineCode {
    fn default() -> (r: MachineCode)
        ensures
            r.buf@ == Seq::<u8>::empty(),
            !r.suspend_write,
    {
        MachineCode { buf: Vec::new(), suspend_write: false }
    }
}

/// What one emitter call appends: nothing in measure mode, its encoding
/// otherwise.
pub open spec fn appended(old_mc: MachineCode, new_mc: MachineCode, code: Seq<u8>) -> bool {
    &&& new_mc.suspend_write == old_mc.suspend_write
    &&& new_mc.buf@ == old_mc.buf@ + if old_mc.suspend_write {
        Seq::<u8>::empty()
    } else {
        code
    }
}

impl MachineCode {
    fn write(&mut self, code: Vec<u8>) -> (len: usize)
        ensures
            len == code@.len(),
            appended(*old(self), *final(self), code@),
    {
        let len = code.len();
        if !self.suspend_write {
            let mut c = code;
            self.buf.append(&mut c);
        } else {
            proof {
                assert(self.buf@ + Seq::<u8>::empty() =~= self.buf@);
            }
        }
        len
    }

    pub fn emit_stack_setup(&mut self, data_start: u64) -> (len: usize)
        ensures
            len == enc_prologue(data_start).len(),
            appended(*old(self), *final(self), enc_prologue(data_start)),
    {
        let mut code: Vec<u8> = Vec::new();
        code.push(0x55);
        code.push(0x41);
        code.push(0x54);
        code.push(0x49);
        code.push(0xbc);
        code.push((data_start % 256) as u8);
        code.push(((data_start / 0x100) % 256) as u8);
        code.push(((data_start / 0x10000) % 256) as u8);
        code.push(((data_start / 0x1000000) % 256) as u8);
        code.push(((data_start / 0x100000000) % 256) as u8);
        code.push(((data_start / 0x10000000000) % 256) as u8);
        code.push(((data_start / 0x1000000000000) % 256) as u8);
        code.push(((data_start / 0x100000000000000) % 256) as u8);
        code.push(0x48);
        code.push(0x89);
        code.push(0xe5);
        proof {
            assert(code@ =~= enc_prologue(data_start));
        }
        self.write(code)
    }

    pub fn emit_stack_teardown(&mut self) -> (len: usize)
        ensures
            len == enc_epilogue().len(),
            appended(*old(self), *final(self), enc_epilogue()),
    {
        let mut code: Vec<u8> = Vec::new();
        code.push(0x48);
        code.push(0x89);
        code.push(0xec);
        code.push(0x41);
        code.push(0x5c);
        code.push(0x5d);
        code.push(0xc3);
        proof {
            assert(code@ =~= enc_epilogue());
        }
        self.write(code)
    }

    pub fn emit_inc_dp(&mut self, n: usize) -> (len: usize)
        ensures
            len == enc_inc_dp(n).len(),
            appended(*old(self), *final(self), enc_inc_dp(n)),
    {
        let mut code: Vec<u8> = Vec::new();
        if n == 1 {
            code.push(0x49);
            code.push(0xff);
            code.push(0xc4);
        } else if n >= 2 && n <= 127 {
            code.push(0x49);
            code.push(0x83);
            code.push(0xc4);
            code.push(n as u8);
        } else if n >= 128 {
            let d: u64 = (n as u64) % 0x100000000;
            code.push(0x49);
            code.push(0x81);
            code.push(0xc4);
            code.push((d % 256) as u8);
            code.push(((d / 0x100) % 256) as u8);
            code.push(((d / 0x10000) % 256) as u8);
            code.push(((d / 0x1000000) % 256) as u8);
        }
        proof {
            assert(code@ =~= enc_inc_dp(n));
        }
        self.write(code)
    }

    pub fn emit_dec_dp(&mut self, n: usize) -> (len: usize)
        ensures
            len == enc_dec_dp(n).len(),
            appended(*old(self), *final(self), enc_dec_dp(n)),
    {
        let mut code: Vec<u8> = Vec::new();
        if n == 1 {
            code.push(0x49);
            code.push(0xff);
            code.push(0xcc);
        } else if n >= 2 && n <= 127 {
            code.push(0x49);
            code.push(0x83);
            code.push(0xec);
            code.push(n as u8);
        } else if n >= 128 {
            let d: u64 = (n as u64) % 0x100000000;
            code.push(0x49);
            code.push(0x81);
            code.push(0xec);
            code.push((d % 256) as u8);
            code.push(((d / 0x100) % 256) as u8);
            code.push(((d / 0x10000) % 256) as u8);
            code.push(((d / 0x1000000) % 256) as u8);
        }
        proof {
            assert(code@ =~= enc_dec_dp(n));
        }
        self.write(code)
    }

    pub fn emit_inc_byte_at_dp(&mut self, n: usize) -> (len: usize)
        ensures
            len == enc_add_cell(n).len(),
            appended(*old(self), *final(self), enc_add_cell(n)),
    {
        let m: u8 = (n % 256) as u8;
        let mut code: Vec<u8> = Vec::new();
        if m == 1 {
            code.push(0x41);
            code.push(0xfe);
            code.push(0x04);
            code.push(0x24);
        } else if m >= 2 {
            code.push(0x41);
            code.push(0x80);
            code.push(0x04);
            code.push(0x24);
            code.push(m);
        }
        proof {
            assert(code@ =~= enc_add_cell(n));
        }
        self.write(code)
    }

    pub fn emit_dec_byte_at_dp(&mut self, n: usize) -> (len: usize)
        ensures
            len == enc_sub_cell(n).len(),
            appended(*old(self), *final(self), enc_sub_cell(n)),
    {
        let m: u8 = (n % 256) as u8;
        let mut code: Vec<u8> = Vec::new();
        if m == 1 {
            code.push(0x41);
            code.push(0xfe);
            code.push(0x0c);
            code.push(0x24);
        } else if m >= 2 {
            code.push(0x41);
            code.push(0x80);
            code.push(0x2c);
            code.push(0x24);
            code.push(m);
        }
        proof {
            assert(code@ =~= enc_sub_cell(n));
        }
        self.write(code)
    }

    fn write_syscall_code(&mut self) -> (len: usize)
        ensures
            len == enc_write_once().len(),
            appended(*old(self), *final(self), enc_write_once()),
    {
        let mut code: Vec<u8> = Vec::new();
        code.push(0xb8);
        code.push(0x01);
        code.push(0x00);
        code.push(0x00);
        code.push(0x00);
        code.push(0xbf);
        code.push(0x01);
        code.push(0x00);
        code.push(0x00);
        code.push(0x00);
        code.push(0x4c);
        code.push(0x89);
        code.push(0xe6);
        code.push(0xba);
        code.push(0x01);
        code.push(0x00);
        code.push(0x00);
        code.push(0x00);
        code.push(0x0f);
        code.push(0x05);
        proof {
            assert(code@ =~= enc_write_once());
        }
        self.write(code)
    }

    pub fn emit_write_byte_at_dp(&mut self, n: usize) -> (len: usize)
        requires
            20 * n <= usize::MAX,
        ensures
            len == enc_write(n as nat).len(),
            appended(*old(self), *final(self), enc_write(n as nat)),
    {
        proof {
            lemma_enc_write_len(n as nat);
        }
        let ghost mc0 = *self;
        let mut total: usize = 0;
        let mut t: usize = 0;
        while t < n
            invariant
                t <= n,
                20 * n <= usize::MAX,
                total == 20 * t,
                appended(mc0, *self, enc_write(t as nat)),
            decreases n - t,
        {
            proof {
                lemma_enc_write_len(t as nat);
                lemma_enc_write_len((t + 1) as nat);
            }
            let l: usize = self.write_syscall_code();
            proof {
                if !mc0.suspend_write {
                    assert(mc0.buf@ + enc_write(t as nat) + enc_write_once() =~= mc0.buf@
                        + enc_write((t + 1) as nat));
                } else {
                    assert(mc0.buf@ + Seq::<u8>::empty() + Seq::<u8>::empty() =~= mc0.buf@
                        + Seq::<u8>::empty());
                }
            }
            total = total + l;
            t = t + 1;
        }
        total
    }

    pub fn emit_read_byte_at_dp(&mut self) -> (len: usize)
        ensures
            len == enc_read().len(),
            appended(*old(self), *final(self), enc_read()),
    {
        let mut code: Vec<u8> = Vec::new();
        code.push(0xb8);
        code.push(0x00);
        code.push(0x00);
        code.push(0x00);
        code.push(0x00);
        code.push(0xbf);
        code.push(0x00);
        code.push(0x00);
        code.push(0x00);
        code.push(0x00);
        code.push(0x4c);
        code.push(0x89);
        code.push(0xe6);
        code.push(0xba);
        code.push(0x01);
        code.push(0x00);
        code.push(0x00);
        code.push(0x00);
        code.push(0x0f);
        code.push(0x05);
        proof {
            assert(code@ =~= enc_read());
        }
        self.write(code)
    }

    pub fn emit_jump_zero(&mut self, skip_bytes: i32) -> (len: usize)
        requires
            skip_bytes >= 0,
        ensures
            len == enc_jz(skip_bytes as int).len(),
            appended(*old(self), *final(self), enc_jz(skip_bytes as int)),
    {
        let d: u32 = skip_bytes as u32;
        let mut code: Vec<u8> = Vec::new();
        code.push(0x41);
        code.push(0x80);
        code.push(0x3c);
        code.push(0x24);
        code.push(0x00);
        code.push(0x0f);
        code.push(0x84);
        code.push((d % 256) as u8);
        code.push(((d / 0x100) % 256) as u8);
        code.push(((d / 0x10000) % 256) as u8);
        code.push(((d / 0x1000000) % 256) as u8);
        proof {
            assert(code@ =~= enc_jz(skip_bytes as int));
        }
        self.write(code)
    }

    pub fn emit_jump_not_zero(&mut self, skip_bytes: usize) -> (len: usize)
        requires
            skip_bytes + 11 <= 0x7fffffff,
        ensures
            len == enc_jnz(skip_bytes as int).len(),
            appended(*old(self), *final(self), enc_jnz(skip_bytes as int)),
    {
        // The jump instruction itself is 11 bytes long; the displacement is
        // taken from its end, so the magnitude includes those 11 bytes.
        let v: u64 = 0x100000000u64 - ((skip_bytes as u64) + 11);
        let d: u32 = v as u32;
        let mut code: Vec<u8> = Vec::new();
        code.push(0x41);
        code.push(0x80);
        code.push(0x3c);
        code.push(0x24);
        code.push(0x00);
        code.push(0x0f);
        code.push(0x85);
        code.push((d % 256) as u8);
        code.push(((d / 0x100) % 256) as u8);
        code.push(((d / 0x10000) % 256) as u8);
        code.push(((d / 0x1000000) % 256) as u8);
        proof {
            assert(code@ =~= enc_jnz(skip_bytes as int));
        }
        self.write(code)
    }

    /// Measure one instruction: the length its code would occupy, with the
    /// buffer left untouched. Jump instructions measure 11 bytes whatever
    /// their displacement.
    pub fn get_only_len(&mut self, instruction: &Instruction) -> (len: usize)
        requires
            match *instruction {
                Instruction::WriteByte(n) => 20 * n <= usize::MAX,
                _ => true,
            },
        ensures
            len == instr_len(*instruction),
            final(self).buf@ == old(self).buf@,
            !final(self).suspend_write,
    {
        self.suspend_write = true;
        let len: usize = match *instruction {
            Instruction::IncDP(n) => self.emit_inc_dp(n),
            Instruction::DecDP(n) => self.emit_dec_dp(n),
            Instruction::IncByteAtDP(n) => self.emit_inc_byte_at_dp(n),
            Instruction::DecByteAtDP(n) => self.emit_dec_byte_at_dp(n),
            Instruction::WriteByte(n) => {
                proof {
                    lemma_enc_write_len(n as nat);
                }
                self.emit_write_byte_at_dp(n)
            },
            Instruction::ReadByte => self.emit_read_byte_at_dp(),
            Instruction::JumpZero(_) => self.emit_jump_zero(0),
            Instruction::JumpNotZero(_) => self.emit_jump_not_zero(0),
            Instruction::JumpZeroPlaceholder => 0,
            Instruction::JumpNotZeroPlaceholder => 0,
        };
        self.suspend_write = false;
        len
    }

    pub fn get_buf(&self) -> (b: &Vec<u8>)
        ensures
            b@ == self.buf@,
    {
        &self.buf
    }
}

/// A JIT compiler that lowers instructions to machine code for x86-64 Linux.
pub struct JitCompiler {
    pub instructions: Vec<Instruction>,
    pub machine_code: MachineCode,
}

impl JitCompiler {
    /// Create a new JIT compiler that lowers the given instructions.
    pub fn new(instructions: Vec<Instruction>) -> (c: JitCompiler)
        ensures
            c.instructions@ == instructions@,
            c.machine_code.buf@ == Seq::<u8>::empty(),
            !c.machine_code.suspend_write,
    {
        JitCompiler { instructions, machine_code: MachineCode::default() }
    }

    /// The byte length the given instruction will occupy, measured on the
    /// emitters themselves.
    pub fn get_instruction_bytes(&mut self, instruction: &Instruction) -> (len: usize)
        requires
            match *instruction {
                Instruction::WriteByte(n) => 20 * n <= usize::MAX,
                _ => true,
            },
        ensures
            len == instr_len(*instruction),
            final(self).instructions@ == old(self).instructions@,
            final(self).machine_code.buf@ == old(self).machine_code.buf@,
            !final(self).machine_code.suspend_write,
    {
        self.machine_code.get_only_len(instruction)
    }

    /// Lower the whole program into the machine code buffer: prologue binding
    /// the tape address, the body with both jump displacements measured over
    /// the instructions between the partners, and the epilogue. Fails exactly
    /// when the body cannot fit the signed 32-bit displacements, or when a
    /// pointer-move count cannot fit its 32-bit immediate.
    pub fn lower(&mut self, data_start: u64) -> (r: Result<(), JitError>)
        requires
            well_formed(old(self).instructions@),
            old(self).machine_code.buf@.len() == 0,
            !old(self).machine_code.suspend_write,
        ensures
            final(self).instructions@ == old(self).instructions@,
            match r {
                Ok(()) => span_len(
                    old(self).instructions@,
                    0,
                    old(self).instructions@.len() as int,
                ) <= MAX_CODE_LEN && dp_counts_fit(old(self).instructions@)
                    && final(self).machine_code.buf@ == enc_prologue(data_start) + emit_range(
                    old(self).instructions@,
                    old(self).instructions@.len() as int,
                ) + enc_epilogue(),
                Err(e) => e == JitError::CodeTooLarge && (span_len(
                    old(self).instructions@,
                    0,
                    old(self).instructions@.len() as int,
                ) > MAX_CODE_LEN || !dp_counts_fit(old(self).instructions@))
                    && final(self).machine_code.buf@ == old(self).machine_code.buf@,
            },
    {
        let ghost prog0 = self.instructions@;
        let ghost hi = prog0.len() as int;
        // First pass: size the whole body, refusing programs the jump
        // encodings cannot span.
        let mut total: usize = 0;
        let mut i: usize = 0;
        while i < self.instructions.len()
            invariant
                prog0 == old(self).instructions@,
                hi == prog0.len() as int,
                self.instructions@ == prog0,
                self.machine_code.buf@ == old(self).machine_code.buf@,
                old(self).machine_code.buf@.len() == 0,
                !self.machine_code.suspend_write,
                0 <= i <= prog0.len(),
                total == span_len(prog0, 0, i as int),
                total <= MAX_CODE_LEN,
                forall|t: int|
                    0 <= t < i ==> match #[trigger] prog0[t] {
                        Instruction::IncDP(n) => n < 0x100000000,
                        Instruction::DecDP(n) => n < 0x100000000,
                        _ => true,
                    },
            decreases prog0.len() - i,
        {
            let instr: Instruction = self.instructions[i];
            let li: usize = match instr {
                Instruction::WriteByte(n) => {
                    if n > MAX_CODE_LEN / 20 {
                        proof {
                            assert(span_len(prog0, 0, i + 1) > MAX_CODE_LEN);
                            lemma_span_additive(prog0, 0, i + 1, hi);
                        }
                        return Err(JitError::CodeTooLarge);
                    }
                    20 * n
                },
                Instruction::IncDP(n) => {
                    if (n as u64) >= 0x100000000u64 {
                        proof {
                            assert(!dp_counts_fit(prog0));
                        }
                        return Err(JitError::CodeTooLarge);
                    }
                    self.machine_code.get_only_len(&instr)
                },
                Instruction::DecDP(n) => {
                    if (n as u64) >= 0x100000000u64 {
                        proof {
                            assert(!dp_counts_fit(prog0));
                        }
                        return Err(JitError::CodeTooLarge);
                    }
                    self.machine_code.get_only_len(&instr)
                },
                _ => self.machine_code.get_only_len(&instr),
            };
            if li > MAX_CODE_LEN - total {
                proof {
                    assert(span_len(prog0, 0, i + 1) > MAX_CODE_LEN);
                    lemma_span_additive(prog0, 0, i + 1, hi);
                }
                return Err(JitError::CodeTooLarge);
            }
            total = total + li;
            i = i + 1;
        }
        proof {
            lemma_span_additive(prog0, 0, i as int, hi);
            assert(dp_counts_fit(prog0));
        }
        // Second pass: emit. Every displacement below fits because it is a
        // sub-span of the sized body.
        let n_instrs: usize = self.instructions.len();
        proof {
            assert(prog0.len() == n_instrs as nat);
        }
        self.machine_code.emit_stack_setup(data_start);
        let mut i: usize = 0;
        while i < self.instructions.len()
            invariant
                prog0 == old(self).instructions@,
                hi == prog0.len() as int,
                self.instructions@ == prog0,
                well_formed(prog0),
                old(self).machine_code.buf@.len() == 0,
                !self.machine_code.suspend_write,
                0 <= i <= prog0.len(),
                prog0.len() <= usize::MAX,
                span_len(prog0, 0, hi) <= MAX_CODE_LEN,
                self.machine_code.buf@ == enc_prologue(data_start) + emit_range(prog0, i as int),
            decreases prog0.len() - i,
        {
            let ghost buf1 = self.machine_code.buf@;
            let instr: Instruction = self.instructions[i];
            proof {
                assert(wf_at(prog0, i as int));
                lemma_span_additive(prog0, 0, i as int, i + 1);
                lemma_span_additive(prog0, 0, i + 1, hi);
            }
            match instr {
                Instruction::IncDP(n) => {
                    self.machine_code.emit_inc_dp(n);
                },
                Instruction::DecDP(n) => {
                    self.machine_code.emit_dec_dp(n);
                },
                Instruction::IncByteAtDP(n) => {
                    self.machine_code.emit_inc_byte_at_dp(n);
                },
                Instruction::DecByteAtDP(n) => {
                    self.machine_code.emit_dec_byte_at_dp(n);
                },
                Instruction::WriteByte(n) => {
                    self.machine_code.emit_write_byte_at_dp(n);
                },
                Instruction::ReadByte => {
                    self.machine_code.emit_read_byte_at_dp();
                },
                Instruction::JumpZero(f) => {
                    // Cross-check: the partner really is the matching
                    // backward jump.
                    proof {
                        assert(prog0[i + f - 1] == Instruction::JumpNotZero((f - 2) as usize));
                    }
                    let mut disp: usize = 0;
                    let mut j: usize = i + 1;
                    while j < i + f
                        invariant
                            self.instructions@ == prog0,
                            well_formed(prog0),
                            0 <= i < prog0.len(),
                            i + 1 <= j <= i + f,
                            i + f <= prog0.len(),
                            prog0.len() <= usize::MAX,
                            span_len(prog0, 0, prog0.len() as int) <= MAX_CODE_LEN,
                            disp == span_len(prog0, i + 1, j as int),
                            disp <= MAX_CODE_LEN,
                            self.machine_code.buf@ == buf1,
                            !self.machine_code.suspend_write,
                        decreases i + f - j,
                    {
                        let instr2: Instruction = self.instructions[j];
                        proof {
                            lemma_span_additive(prog0, 0, j as int, j + 1);
                            lemma_span_additive(prog0, 0, j + 1, prog0.len() as int);
                            lemma_span_additive(prog0, i + 1, j as int, j + 1);
                            lemma_span_additive(prog0, 0, i + 1, j + 1);
                        }
                        let l2: usize = self.machine_code.get_only_len(&instr2);
                        disp = disp + l2;
                        j = j + 1;
                    }
                    self.machine_code.emit_jump_zero(disp as i32);
                },
                Instruction::JumpNotZero(b) => {
                    // Cross-check: the partner really is the matching
                    // forward jump.
                    proof {
                        assert(prog0[i - b - 1] == Instruction::JumpZero((b + 2) as usize));
                    }
                    let mut disp: usize = 0;
                    let mut j: usize = i - b;
                    while j < i
                        invariant
                            self.instructions@ == prog0,
                            well_formed(prog0),
                            0 <= i < prog0.len(),
                            i - b <= j <= i,
                            b < i,
                            prog0.len() <= usize::MAX,
                            span_len(prog0, 0, prog0.len() as int) <= MAX_CODE_LEN,
                            disp == span_len(prog0, i - b, j as int),
                            disp <= MAX_CODE_LEN,
                            self.machine_code.buf@ == buf1,
                            !self.machine_code.suspend_write,
                        decreases i - j,
                    {
                        let instr2: Instruction = self.instructions[j];
                        proof {
                            lemma_span_additive(prog0, 0, j as int, j + 1);
                            lemma_span_additive(prog0, 0, j + 1, prog0.len() as int);
                            lemma_span_additive(prog0, i - b, j as int, j + 1);
                            lemma_span_additive(prog0, 0, i - b, j + 1);
                        }
                        let l2: usize = self.machine_code.get_only_len(&instr2);
                        disp = disp + l2;
                        j = j + 1;
                    }
                    self.machine_code.emit_jump_not_zero(disp);
                },
                _ => {
                    proof {
                        assert(false);
                    }
                },
            }
            proof {
                assert(self.machine_code.buf@ =~= enc_prologue(data_start) + emit_range(
                    prog0,
                    i + 1,
                ));
            }
            i = i + 1;
        }
        self.machine_code.emit_stack_teardown();
        proof {
            assert(self.machine_code.buf@ =~= enc_prologue(data_start) + emit_range(prog0, hi)
                + enc_epilogue());
        }
        Ok(())
    }
}

} // verus!
