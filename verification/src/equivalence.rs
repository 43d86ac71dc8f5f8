use vstd::prelude::*;

use crate::DATA_SIZE;
use crate::ExecFault;
use crate::FlushBehavior;
use crate::SinkEvent;
use crate::compiler::CompileError;
use crate::compiler::Instruction;
use crate::compiler::close_pair_at;
use crate::compiler::find_close_ins;
use crate::compiler::find_open_ins;
use crate::compiler::fold_at;
use crate::compiler::fold_one;
use crate::compiler::is_pair;
use crate::compiler::lemma_compile_folds_run;
use crate::compiler::lemma_compile_offsets_match_scan;
use crate::compiler::lemma_compile_well_formed;
use crate::compiler::lemma_fold_no_resolved;
use crate::compiler::lemma_link_props;
use crate::compiler::lemma_run_len_bounds;
use crate::compiler::link_state;
use crate::compiler::not_on_stack;
use crate::compiler::open_pair_at;
use crate::compiler::paired_close;
use crate::compiler::paired_open;
use crate::compiler::run_len;
use crate::compiler::spec_compile;
use crate::compiler::well_formed;
use crate::compiler::wf_at;
use crate::filter_idents;
use crate::interpreter::SrcRun;
use crate::interpreter::SrcState;
use crate::interpreter::SrcStep;
use crate::interpreter::find_close;
use crate::interpreter::find_open;
use crate::interpreter::src_run;
use crate::interpreter::src_step;
use crate::lemma_filter_idempotent;
use crate::lemma_filter_of_idents;
use crate::lemma_wrap_add_chain;
use crate::lemma_wrap_sub_chain;
use crate::syntax::IDENT_DEC_DATA;
use crate::syntax::IDENT_DEC_DP;
use crate::syntax::IDENT_INC_DATA;
use crate::syntax::IDENT_INC_DP;
use crate::syntax::IDENT_JUMP_NOT_ZERO;
use crate::syntax::IDENT_JUMP_ZERO;
use crate::syntax::IDENT_READ_BYTE;
use crate::syntax::IDENT_WRITE_BYTE;
use crate::syntax::spec_is_ident;
use crate::virtual_machine::VmRun;
use crate::virtual_machine::VmState;
use crate::virtual_machine::VmStep;
use crate::virtual_machine::vm_run;
use crate::virtual_machine::vm_step;
use crate::virtual_machine::write_events;
use crate::wrap_add;
use crate::wrap_sub;

verus! {

/// A source program of `k` copies of the opcode byte `o`.
pub open spec fn opcode_run(o: u8, k: nat) -> Seq<u8> {
    Seq::new(k, |t: int| o)
}

/// An interpreter state and a virtual machine state that agree on everything
/// an executed program can observe.
pub open spec fn states_match(ss: SrcState, sv: VmState) -> bool {
    &&& ss.dp == sv.dp
    &&& ss.tape == sv.tape
    &&& ss.rp == sv.rp
    &&& ss.events == sv.events
}

/// Semantic equivalence for a folded run: for any foldable opcode or write
/// `o` and any count `k >= 1`, the single instruction that `o` repeated `k`
/// times compiles to behaves on the virtual machine exactly as the `k`
/// source opcodes behave on the interpreter, from any pair of matching
/// states: either both halt in matching states, or both abort with the same
/// fault. In particular a folded write emits its bytes, and its flushes
/// under `OnWrite`, exactly as the unfolded writes do.
#[verifier::rlimit(40)]
pub proof fn lemma_folded_run_equivalence(
    o: u8,
    k: usize,
    input: Seq<u8>,
    flush: FlushBehavior,
    src0: SrcState,
    vm0: VmState,
)
    requires
        spec_is_ident(o),
        o != IDENT_JUMP_ZERO,
        o != IDENT_JUMP_NOT_ZERO,
        o != IDENT_READ_BYTE,
        1 <= k,
        src0.ip == 0,
        vm0.ip == 0,
        states_match(src0, vm0),
        0 <= src0.dp < DATA_SIZE,
        src0.tape.len() == DATA_SIZE,
    ensures
        spec_compile(opcode_run(o, k as nat)) == Ok::<Seq<Instruction>, CompileError>(
            seq![fold_one(o, k)],
        ),
        match vm_run(seq![fold_one(o, k)], input, flush, vm0, 2) {
            VmRun::Halted(sv) => exists|n: nat|
                n <= k + 1 && (#[trigger] src_run(opcode_run(o, k as nat), input, flush, src0, n)
                    matches SrcRun::Halted(ss) && states_match(ss, sv)),
            VmRun::Faulted(f, _) => exists|n: nat|
                n <= k + 1 && (#[trigger] src_run(opcode_run(o, k as nat), input, flush, src0, n)
                    matches SrcRun::Faulted(f2, _) && f2 == f),
            VmRun::Going(_) => false,
        },
{
    let code = opcode_run(o, k as nat);
    let prog = seq![fold_one(o, k)];
    assert(code =~= Seq::new(k as nat, |t: int| o));
    assert(forall|t: int| 0 <= t < code.len() ==> #[trigger] code[t] == o);
    lemma_compile_folds_run(o, k);
    assert(vm_run(prog, input, flush, vm0, 0) == VmRun::Going(vm0));
    if o == IDENT_INC_DATA {
        let v = src0.tape[src0.dp];
        assert(vm_step(prog, input, flush, vm0) == VmStep::Going(
            VmState { ip: 1, tape: vm0.tape.update(vm0.dp, wrap_add(v, k)), ..vm0 },
        ));
        lemma_block_inc_data(code, input, flush, src0, 0, k as int, k as int);
        let ss = SrcState { ip: k as int, tape: src0.tape.update(src0.dp, wrap_add(v, k)), ..src0 };
        assert(src_run(code, input, flush, src0, (k + 1) as nat) == SrcRun::Halted(ss));
    } else if o == IDENT_DEC_DATA {
        let v = src0.tape[src0.dp];
        assert(vm_step(prog, input, flush, vm0) == VmStep::Going(
            VmState { ip: 1, tape: vm0.tape.update(vm0.dp, wrap_sub(v, k)), ..vm0 },
        ));
        lemma_block_dec_data(code, input, flush, src0, 0, k as int, k as int);
        let ss = SrcState { ip: k as int, tape: src0.tape.update(src0.dp, wrap_sub(v, k)), ..src0 };
        assert(src_run(code, input, flush, src0, (k + 1) as nat) == SrcRun::Halted(ss));
    } else if o == IDENT_WRITE_BYTE {
        let v = src0.tape[src0.dp];
        assert(vm_step(prog, input, flush, vm0) == VmStep::Going(
            VmState { ip: 1, events: vm0.events + write_events(v, k as nat, flush), ..vm0 },
        ));
        lemma_block_write(code, input, flush, src0, 0, k as int, k as int);
        let ss = SrcState {
            ip: k as int,
            events: src0.events + write_events(v, k as nat, flush),
            ..src0
        };
        assert(src_run(code, input, flush, src0, (k + 1) as nat) == SrcRun::Halted(ss));
    } else if o == IDENT_INC_DP {
        if src0.dp + k < DATA_SIZE {
            assert(vm_step(prog, input, flush, vm0) == VmStep::Going(
                VmState { ip: 1, dp: vm0.dp + k, ..vm0 },
            ));
            lemma_block_inc_dp(code, input, flush, src0, 0, k as int, k as int);
            let ss = SrcState { ip: k as int, dp: src0.dp + k, ..src0 };
            assert(src_run(code, input, flush, src0, (k + 1) as nat) == SrcRun::Halted(ss));
        } else {
            assert(vm_step(prog, input, flush, vm0) == VmStep::Faulted(ExecFault::TapeFault));
            assert(vm_run(prog, input, flush, vm0, 1) == VmRun::Faulted(ExecFault::TapeFault, vm0));
            assert(vm_run(prog, input, flush, vm0, 2) == VmRun::Faulted(ExecFault::TapeFault, vm0));
            let jf = (DATA_SIZE - 1 - src0.dp) as usize;
            assert(jf < k);
            lemma_block_inc_dp(code, input, flush, src0, 0, k as int, jf as int);
            let s = SrcState { ip: jf as int, dp: DATA_SIZE - 1, ..src0 };
            assert(code[s.ip] == IDENT_INC_DP);
            assert(src_step(code, input, flush, s) == SrcStep::Faulted(ExecFault::TapeFault));
            assert(src_run(code, input, flush, src0, (jf + 1) as nat) == SrcRun::Faulted(
                ExecFault::TapeFault,
                s,
            ));
        }
    } else {
        if k <= src0.dp {
            assert(vm_step(prog, input, flush, vm0) == VmStep::Going(
                VmState { ip: 1, dp: vm0.dp - k, ..vm0 },
            ));
            lemma_block_dec_dp(code, input, flush, src0, 0, k as int, k as int);
            let ss = SrcState { ip: k as int, dp: src0.dp - k, ..src0 };
            assert(src_run(code, input, flush, src0, (k + 1) as nat) == SrcRun::Halted(ss));
        } else {
            assert(vm_step(prog, input, flush, vm0) == VmStep::Faulted(ExecFault::TapeFault));
            assert(vm_run(prog, input, flush, vm0, 1) == VmRun::Faulted(ExecFault::TapeFault, vm0));
            assert(vm_run(prog, input, flush, vm0, 2) == VmRun::Faulted(ExecFault::TapeFault, vm0));
            let jf = src0.dp as usize;
            assert(jf < k);
            lemma_block_dec_dp(code, input, flush, src0, 0, k as int, jf as int);
            let s = SrcState { ip: jf as int, dp: 0, ..src0 };
            assert(code[s.ip] == IDENT_DEC_DP);
            assert(src_step(code, input, flush, s) == SrcStep::Faulted(ExecFault::TapeFault));
            assert(src_run(code, input, flush, src0, (jf + 1) as nat) == SrcRun::Faulted(
                ExecFault::TapeFault,
                s,
            ));
        }
    }
}


/// Width of the block that starts at source position `q`: a bracket or a
/// read stands alone, every other opcode spans its maximal run.
pub open spec fn block_width(code: Seq<u8>, q: int) -> int {
    if code[q] == IDENT_JUMP_ZERO || code[q] == IDENT_JUMP_NOT_ZERO || code[q]
        == IDENT_READ_BYTE {
        1
    } else {
        run_len(code, q)
    }
}

/// Source position of the `u`-th instruction that folding emits from
/// position `i` on.
pub open spec fn src_of(code: Seq<u8>, i: int, u: int) -> int
    decreases u,
{
    if u <= 0 {
        i
    } else {
        src_of(code, i + block_width(code, i), u - 1)
    }
}

/// Source position of the `u`-th instruction of the whole program.
pub open spec fn pos_of(code: Seq<u8>, u: int) -> int {
    src_of(code, 0, u)
}

/// A run covers equal bytes.
proof fn lemma_run_uniform_bytes(s: Seq<u8>, i: int)
    requires
        0 <= i < s.len(),
    ensures
        forall|k: int| i <= k < i + run_len(s, i) ==> s[k] == s[i],
    decreases s.len() - i,
{
    lemma_run_len_bounds(s, i);
    if i + 1 < s.len() && s[i + 1] == s[i] {
        lemma_run_uniform_bytes(s, i + 1);
    }
}

/// The facts that carry the fold index map: each instruction sits on its own
/// block of the source, blocks tile the program, and the map ends exactly at
/// the end of the source.
proof fn lemma_src_of_facts(code: Seq<u8>, i: int, u: int)
    requires
        0 <= i,
        0 <= u <= fold_at(code, i).len(),
    ensures
        u < fold_at(code, i).len() ==> {
            let q = src_of(code, i, u);
            &&& i <= q < code.len()
            &&& src_of(code, i, u + 1) == q + block_width(code, q)
            &&& q + block_width(code, q) <= code.len()
            &&& 1 <= block_width(code, q)
            &&& (forall|k: int| q <= k < q + block_width(code, q) ==> code[k] == code[q])
            &&& fold_at(code, i)[u] == (if code[q] == IDENT_JUMP_ZERO {
                Instruction::JumpZeroPlaceholder
            } else if code[q] == IDENT_JUMP_NOT_ZERO {
                Instruction::JumpNotZeroPlaceholder
            } else {
                fold_one(code[q], run_len(code, q) as usize)
            })
        },
        u == fold_at(code, i).len() ==> src_of(code, i, u) >= code.len(),
        i <= src_of(code, i, u),
    decreases u,
{
    if u == 0 {
        if 0 < fold_at(code, i).len() {
            assert(i < code.len());
            assert(src_of(code, i + block_width(code, i), 0) == i + block_width(code, i));
            if code[i] == IDENT_JUMP_ZERO || code[i] == IDENT_JUMP_NOT_ZERO || code[i]
                == IDENT_READ_BYTE {
                assert(src_of(code, i, 1) == i + 1);
            } else {
                lemma_run_len_bounds(code, i);
                lemma_run_uniform_bytes(code, i);
                assert(src_of(code, i, 1) == i + run_len(code, i));
            }
        } else {
            assert(i >= code.len());
        }
    } else {
        if i < code.len() {
            if code[i] == IDENT_JUMP_ZERO || code[i] == IDENT_JUMP_NOT_ZERO || code[i]
                == IDENT_READ_BYTE {
                lemma_src_of_facts(code, i + 1, u - 1);
                assert(src_of(code, i, u) == src_of(code, i + 1, u - 1));
                assert(src_of(code, i, u + 1) == src_of(code, i + 1, u));
            } else {
                lemma_run_len_bounds(code, i);
                let w = run_len(code, i);
                lemma_src_of_facts(code, i + w, u - 1);
                assert(src_of(code, i, u) == src_of(code, i + w, u - 1));
                assert(src_of(code, i, u + 1) == src_of(code, i + w, u));
            }
        } else {
            assert(fold_at(code, i).len() == 0);
        }
    }
}



/// Both scans find the recorded partner of every pair.
pub open spec fn scan_matched(prog: Seq<Instruction>) -> bool {
    forall|m: int, j: int|
        #[trigger] is_pair(prog, m, j) ==> find_close_ins(prog, m + 1, 0) == Some(j)
            && find_open_ins(prog, j - 1, 0) == Some(m)
}

/// The bytecode mirrors the source block for block: the `u`-th instruction
/// is the one its block folds to.
pub open spec fn gen_mirrors(code: Seq<u8>, prog: Seq<Instruction>) -> bool {
    &&& forall|t: int| 0 <= t < code.len() ==> spec_is_ident(#[trigger] code[t])
    &&& prog.len() == fold_at(code, 0).len()
    &&& forall|u: int|
        0 <= u < prog.len() ==> {
            let q = pos_of(code, u);
            if code[q] == IDENT_JUMP_ZERO {
                (#[trigger] prog[u]) is JumpZero
            } else if code[q] == IDENT_JUMP_NOT_ZERO {
                prog[u] is JumpNotZero
            } else {
                prog[u] == fold_one(code[q], run_len(code, q) as usize)
            }
        }
}

/// Compiling a comment-free program yields bytecode that mirrors its blocks.
proof fn lemma_compile_gen_mirrors(code: Seq<u8>, prog: Seq<Instruction>)
    requires
        forall|t: int| 0 <= t < code.len() ==> spec_is_ident(#[trigger] code[t]),
        code.len() <= usize::MAX,
        spec_compile(code) == Ok::<Seq<Instruction>, CompileError>(prog),
    ensures
        gen_mirrors(code, prog),
{
    lemma_filter_of_idents(code);
    let p = fold_at(code, 0);
    crate::compiler::lemma_fold_len(code, 0);
    lemma_fold_no_resolved(code, 0);
    lemma_link_props(p, p.len() as int);
    let st = link_state(p, p.len() as int);
    assert forall|u: int| 0 <= u < prog.len() implies {
        let q = pos_of(code, u);
        if code[q] == IDENT_JUMP_ZERO {
            (#[trigger] prog[u]) is JumpZero
        } else if code[q] == IDENT_JUMP_NOT_ZERO {
            prog[u] is JumpNotZero
        } else {
            prog[u] == fold_one(code[q], run_len(code, q) as usize)
        }
    } by {
        lemma_src_of_facts(code, 0, u);
        let q = pos_of(code, u);
        if code[q] == IDENT_JUMP_ZERO {
            assert(p[u] is JumpZeroPlaceholder);
            assert(not_on_stack(st.stack, u));
            assert(paired_open(p, st.out, u, p.len() as int));
            let f = choose|f: int| #[trigger] open_pair_at(p, st.out, u, f, p.len() as int);
        } else if code[q] == IDENT_JUMP_NOT_ZERO {
            assert(p[u] is JumpNotZeroPlaceholder);
            assert(paired_close(st.out, u));
            let bk = choose|bk: int| #[trigger] close_pair_at(st.out, u, bk);
        } else {
            assert(p[u] == fold_one(code[q], run_len(code, q) as usize));
        }
    }
}

/// A forward scan does not move its depth over a bracket-free stretch.
proof fn lemma_scan_skip_fwd(code: Seq<u8>, a: int, b: int, d: int)
    requires
        0 <= a <= b <= code.len(),
        forall|k: int|
            a <= k < b ==> #[trigger] code[k] != IDENT_JUMP_ZERO && code[k] != IDENT_JUMP_NOT_ZERO,
    ensures
        find_close(code, a, d) == find_close(code, b, d),
    decreases b - a,
{
    if a < b {
        lemma_scan_skip_fwd(code, a + 1, b, d);
    }
}

/// A backward scan does not move its depth over a bracket-free stretch.
proof fn lemma_scan_skip_back(code: Seq<u8>, a: int, b: int, d: int)
    requires
        -1 <= a <= b < code.len(),
        forall|k: int|
            a < k <= b ==> #[trigger] code[k] != IDENT_JUMP_ZERO && code[k] != IDENT_JUMP_NOT_ZERO,
    ensures
        find_open(code, b, d) == find_open(code, a, d),
    decreases b - a,
{
    if a < b {
        lemma_scan_skip_back(code, a, b - 1, d);
    }
}

/// The source-level forward scan mirrors the bytecode-level one through the
/// block map.
proof fn lemma_mapped_close_scan(code: Seq<u8>, prog: Seq<Instruction>, u: int, d: int)
    requires
        gen_mirrors(code, prog),
        0 <= u <= prog.len(),
    ensures
        match find_close_ins(prog, u, d) {
            Some(w) => 0 <= w < prog.len() && find_close(code, pos_of(code, u), d) == Some(
                pos_of(code, w),
            ),
            None => find_close(code, pos_of(code, u), d) == None::<int>,
        },
    decreases prog.len() - u,
{
    lemma_src_of_facts(code, 0, u);
    if u == prog.len() {
        assert(find_close_ins(prog, u, d) == None::<int>);
        assert(find_close(code, pos_of(code, u), d) == None::<int>);
    } else {
        let q = pos_of(code, u);
        let w = block_width(code, q);
        assert(pos_of(code, u + 1) == q + w);
        if code[q] == IDENT_JUMP_ZERO {
            assert(prog[u] is JumpZero);
            assert(find_close_ins(prog, u, d) == find_close_ins(prog, u + 1, d + 1));
            assert(find_close(code, q, d) == find_close(code, q + 1, d + 1));
            lemma_mapped_close_scan(code, prog, u + 1, d + 1);
        } else if code[q] == IDENT_JUMP_NOT_ZERO {
            assert(prog[u] is JumpNotZero);
            if d == 0 {
                assert(find_close_ins(prog, u, d) == Some(u));
                assert(find_close(code, q, d) == Some(q));
            } else {
                assert(find_close_ins(prog, u, d) == find_close_ins(prog, u + 1, d - 1));
                assert(find_close(code, q, d) == find_close(code, q + 1, d - 1));
                lemma_mapped_close_scan(code, prog, u + 1, d - 1);
            }
        } else {
            assert(!(prog[u] is JumpZero) && !(prog[u] is JumpNotZero));
            assert(find_close_ins(prog, u, d) == find_close_ins(prog, u + 1, d));
            lemma_scan_skip_fwd(code, q, q + w, d);
            lemma_mapped_close_scan(code, prog, u + 1, d);
        }
    }
}

/// The source-level backward scan mirrors the bytecode-level one through the
/// block map.
proof fn lemma_mapped_open_scan(code: Seq<u8>, prog: Seq<Instruction>, u: int, d: int)
    requires
        gen_mirrors(code, prog),
        -1 <= u < prog.len(),
    ensures
        match find_open_ins(prog, u, d) {
            Some(w) => 0 <= w < prog.len() && find_open(code, pos_of(code, u + 1) - 1, d) == Some(
                pos_of(code, w),
            ),
            None => find_open(code, pos_of(code, u + 1) - 1, d) == None::<int>,
        },
    decreases u + 1,
{
    if u == -1 {
        assert(pos_of(code, 0) == 0);
        assert(find_open_ins(prog, -1, d) == None::<int>);
        assert(find_open(code, -1, d) == None::<int>);
    } else {
        lemma_src_of_facts(code, 0, u);
        let q = pos_of(code, u);
        let w = block_width(code, q);
        assert(pos_of(code, u + 1) == q + w);
        if code[q] == IDENT_JUMP_ZERO {
            assert(prog[u] is JumpZero);
            assert(w == 1);
            if d == 0 {
                assert(find_open_ins(prog, u, d) == Some(u));
                assert(find_open(code, q, d) == Some(q));
            } else {
                assert(find_open_ins(prog, u, d) == find_open_ins(prog, u - 1, d - 1));
                assert(find_open(code, q, d) == find_open(code, q - 1, d - 1));
                lemma_mapped_open_scan(code, prog, u - 1, d - 1);
            }
        } else if code[q] == IDENT_JUMP_NOT_ZERO {
            assert(prog[u] is JumpNotZero);
            assert(w == 1);
            assert(find_open_ins(prog, u, d) == find_open_ins(prog, u - 1, d + 1));
            assert(find_open(code, q, d) == find_open(code, q - 1, d + 1));
            lemma_mapped_open_scan(code, prog, u - 1, d + 1);
        } else {
            assert(!(prog[u] is JumpZero) && !(prog[u] is JumpNotZero));
            assert(find_open_ins(prog, u, d) == find_open_ins(prog, u - 1, d));
            lemma_scan_skip_back(code, q - 1, q + w - 1, d);
            lemma_mapped_open_scan(code, prog, u - 1, d);
        }
    }
}



/// Running `j` opcodes of a block of IncCell opcodes adds `j` to the cell.
proof fn lemma_block_inc_data(
    code: Seq<u8>,
    input: Seq<u8>,
    flush: FlushBehavior,
    ss: SrcState,
    a: int,
    r: int,
    j: int,
)
    requires
        0 <= a,
        a + r <= code.len(),
        code.len() <= usize::MAX,
        forall|k: int| a <= k < a + r ==> #[trigger] code[k] == IDENT_INC_DATA,
        ss.ip == a,
        0 <= ss.dp < ss.tape.len(),
        0 <= j <= r,
    ensures
        src_run(code, input, flush, ss, j as nat) == SrcRun::Going(
            SrcState {
                ip: a + j,
                tape: ss.tape.update(ss.dp, wrap_add(ss.tape[ss.dp], j as usize)),
                ..ss
            },
        ),
    decreases j,
{
    let v = ss.tape[ss.dp];
    if j == 0 {
        assert(ss.tape.update(ss.dp, wrap_add(v, 0)) =~= ss.tape);
        assert(SrcState { ip: a, tape: ss.tape.update(ss.dp, wrap_add(v, 0)), ..ss } == ss);
    } else {
        lemma_block_inc_data(code, input, flush, ss, a, r, j - 1);
        let s = SrcState {
            ip: a + j - 1,
            tape: ss.tape.update(ss.dp, wrap_add(v, (j - 1) as usize)),
            ..ss
        };
        assert(code[s.ip] == IDENT_INC_DATA);
        assert(s.tape[ss.dp] == wrap_add(v, (j - 1) as usize));
        lemma_wrap_add_chain(v, (j - 1) as usize);
        assert(s.tape.update(ss.dp, wrap_add(s.tape[ss.dp], 1)) =~= ss.tape.update(
            ss.dp,
            wrap_add(v, j as usize),
        ));
        assert(src_step(code, input, flush, s) == SrcStep::Going(
            SrcState { ip: a + j, tape: ss.tape.update(ss.dp, wrap_add(v, j as usize)), ..ss },
        ));
    }
}

/// Running `j` opcodes of a block of DecCell opcodes takes `j` from the cell.
proof fn lemma_block_dec_data(
    code: Seq<u8>,
    input: Seq<u8>,
    flush: FlushBehavior,
    ss: SrcState,
    a: int,
    r: int,
    j: int,
)
    requires
        0 <= a,
        a + r <= code.len(),
        code.len() <= usize::MAX,
        forall|k: int| a <= k < a + r ==> #[trigger] code[k] == IDENT_DEC_DATA,
        ss.ip == a,
        0 <= ss.dp < ss.tape.len(),
        0 <= j <= r,
    ensures
        src_run(code, input, flush, ss, j as nat) == SrcRun::Going(
            SrcState {
                ip: a + j,
                tape: ss.tape.update(ss.dp, wrap_sub(ss.tape[ss.dp], j as usize)),
                ..ss
            },
        ),
    decreases j,
{
    let v = ss.tape[ss.dp];
    if j == 0 {
        assert(ss.tape.update(ss.dp, wrap_sub(v, 0)) =~= ss.tape);
        assert(SrcState { ip: a, tape: ss.tape.update(ss.dp, wrap_sub(v, 0)), ..ss } == ss);
    } else {
        lemma_block_dec_data(code, input, flush, ss, a, r, j - 1);
        let s = SrcState {
            ip: a + j - 1,
            tape: ss.tape.update(ss.dp, wrap_sub(v, (j - 1) as usize)),
            ..ss
        };
        assert(code[s.ip] == IDENT_DEC_DATA);
        assert(s.tape[ss.dp] == wrap_sub(v, (j - 1) as usize));
        lemma_wrap_sub_chain(v, (j - 1) as usize);
        assert(s.tape.update(ss.dp, wrap_sub(s.tape[ss.dp], 1)) =~= ss.tape.update(
            ss.dp,
            wrap_sub(v, j as usize),
        ));
        assert(src_step(code, input, flush, s) == SrcStep::Going(
            SrcState { ip: a + j, tape: ss.tape.update(ss.dp, wrap_sub(v, j as usize)), ..ss },
        ));
    }
}

/// Running `j` opcodes of a block of AdvanceDP opcodes moves the pointer by
/// `j`, while it stays on the tape.
proof fn lemma_block_inc_dp(
    code: Seq<u8>,
    input: Seq<u8>,
    flush: FlushBehavior,
    ss: SrcState,
    a: int,
    r: int,
    j: int,
)
    requires
        0 <= a,
        a + r <= code.len(),
        forall|k: int| a <= k < a + r ==> #[trigger] code[k] == IDENT_INC_DP,
        ss.ip == a,
        0 <= ss.dp,
        ss.dp + j <= DATA_SIZE - 1,
        0 <= j <= r,
    ensures
        src_run(code, input, flush, ss, j as nat) == SrcRun::Going(
            SrcState { ip: a + j, dp: ss.dp + j, ..ss },
        ),
    decreases j,
{
    if j == 0 {
        assert(SrcState { ip: a, dp: ss.dp + 0, ..ss } == ss);
    } else {
        lemma_block_inc_dp(code, input, flush, ss, a, r, j - 1);
        let s = SrcState { ip: a + j - 1, dp: ss.dp + j - 1, ..ss };
        assert(code[s.ip] == IDENT_INC_DP);
        assert(src_step(code, input, flush, s) == SrcStep::Going(
            SrcState { ip: a + j, dp: ss.dp + j, ..ss },
        ));
    }
}

/// Running `j` opcodes of a block of RetreatDP opcodes moves the pointer
/// back by `j`, while it stays on the tape.
proof fn lemma_block_dec_dp(
    code: Seq<u8>,
    input: Seq<u8>,
    flush: FlushBehavior,
    ss: SrcState,
    a: int,
    r: int,
    j: int,
)
    requires
        0 <= a,
        a + r <= code.len(),
        forall|k: int| a <= k < a + r ==> #[trigger] code[k] == IDENT_DEC_DP,
        ss.ip == a,
        0 <= j <= ss.dp,
        j <= r,
    ensures
        src_run(code, input, flush, ss, j as nat) == SrcRun::Going(
            SrcState { ip: a + j, dp: ss.dp - j, ..ss },
        ),
    decreases j,
{
    if j == 0 {
        assert(SrcState { ip: a, dp: ss.dp - 0, ..ss } == ss);
    } else {
        lemma_block_dec_dp(code, input, flush, ss, a, r, j - 1);
        let s = SrcState { ip: a + j - 1, dp: ss.dp - (j - 1), ..ss };
        assert(code[s.ip] == IDENT_DEC_DP);
        assert(src_step(code, input, flush, s) == SrcStep::Going(
            SrcState { ip: a + j, dp: ss.dp - j, ..ss },
        ));
    }
}

/// Running `j` opcodes of a block of Write opcodes emits the cell `j` times.
proof fn lemma_block_write(
    code: Seq<u8>,
    input: Seq<u8>,
    flush: FlushBehavior,
    ss: SrcState,
    a: int,
    r: int,
    j: int,
)
    requires
        0 <= a,
        a + r <= code.len(),
        forall|k: int| a <= k < a + r ==> #[trigger] code[k] == IDENT_WRITE_BYTE,
        ss.ip == a,
        0 <= ss.dp < ss.tape.len(),
        0 <= j <= r,
    ensures
        src_run(code, input, flush, ss, j as nat) == SrcRun::Going(
            SrcState {
                ip: a + j,
                events: ss.events + write_events(ss.tape[ss.dp], j as nat, flush),
                ..ss
            },
        ),
    decreases j,
{
    let v = ss.tape[ss.dp];
    if j == 0 {
        assert(ss.events + write_events(v, 0, flush) =~= ss.events);
        assert(SrcState { ip: a, events: ss.events + write_events(v, 0, flush), ..ss } == ss);
    } else {
        lemma_block_write(code, input, flush, ss, a, r, j - 1);
        let s = SrcState {
            ip: a + j - 1,
            events: ss.events + write_events(v, (j - 1) as nat, flush),
            ..ss
        };
        assert(code[s.ip] == IDENT_WRITE_BYTE);
        assert(s.tape[s.dp] == v);
        if flush is OnWrite {
            assert(s.events + seq![SinkEvent::Byte(v)] + seq![SinkEvent::Flush] =~= ss.events
                + write_events(v, j as nat, flush));
        } else {
            assert(s.events + seq![SinkEvent::Byte(v)] + Seq::<SinkEvent>::empty() =~= ss.events
                + write_events(v, j as nat, flush));
        }
        assert(src_step(code, input, flush, s) == SrcStep::Going(
            SrcState { ip: a + j, events: ss.events + write_events(v, j as nat, flush), ..ss },
        ));
    }
}

/// Runs compose: `x + y` steps are `x` steps and then `y` more, unless the
/// run already ended.
proof fn lemma_src_run_compose(
    code: Seq<u8>,
    input: Seq<u8>,
    flush: FlushBehavior,
    s0: SrcState,
    x: nat,
    y: nat,
)
    ensures
        src_run(code, input, flush, s0, x + y) == match src_run(code, input, flush, s0, x) {
            SrcRun::Going(s) => src_run(code, input, flush, s, y),
            done => done,
        },
    decreases y,
{
    if y == 0 {
        match src_run(code, input, flush, s0, x) {
            SrcRun::Going(s) => {
                assert(src_run(code, input, flush, s, 0) == SrcRun::Going(s));
            },
            _ => {},
        }
    } else {
        lemma_src_run_compose(code, input, flush, s0, x, (y - 1) as nat);
        assert(x + y == (x + (y - 1) as nat) + 1);
    }
}



/// The correspondence the simulation maintains: matching observable state,
/// the interpreter standing at the start of the block of the instruction
/// the virtual machine is about to dispatch, and the data pointer on the
/// tape.
pub open spec fn gen_corr(
    code: Seq<u8>,
    prog: Seq<Instruction>,
    ss: SrcState,
    sv: VmState,
) -> bool {
    &&& states_match(ss, sv)
    &&& ss.ip == pos_of(code, sv.ip)
    &&& 0 <= sv.ip <= prog.len()
    &&& 0 <= ss.dp < DATA_SIZE
    &&& ss.tape.len() == DATA_SIZE
}

/// One dispatch of the virtual machine corresponds to running the whole
/// source block it folds: to the same next state, or to the same fault with
/// the same output.
proof fn lemma_gen_step_block(
    code: Seq<u8>,
    prog: Seq<Instruction>,
    input: Seq<u8>,
    flush: FlushBehavior,
    ss: SrcState,
    sv: VmState,
)
    requires
        gen_mirrors(code, prog),
        well_formed(prog),
        scan_matched(prog),
        code.len() <= usize::MAX,
        gen_corr(code, prog, ss, sv),
        sv.ip < prog.len(),
    ensures
        match vm_step(prog, input, flush, sv) {
            VmStep::Going(sv1) => exists|k: nat|
                1 <= k && ((#[trigger] src_run(code, input, flush, ss, k))
                    matches SrcRun::Going(ss1) && gen_corr(code, prog, ss1, sv1)),
            VmStep::Faulted(f) => exists|k: nat|
                (#[trigger] src_run(code, input, flush, ss, k)) matches SrcRun::Faulted(f2, ssf)
                    && f2 == f && ssf.events == ss.events,
        },
{
    let u = sv.ip;
    crate::compiler::lemma_fold_len(code, 0);
    lemma_src_of_facts(code, 0, u);
    let q = pos_of(code, u);
    let w = block_width(code, q);
    assert(ss.ip == q);
    assert(wf_at(prog, u));
    assert(src_run(code, input, flush, ss, 0) == SrcRun::Going(ss));
    let b = code[q];
    if b == IDENT_INC_DP {
        assert(prog[u] == Instruction::IncDP(w as usize));
        if sv.dp + w >= DATA_SIZE {
            assert(vm_step(prog, input, flush, sv) == VmStep::Faulted(ExecFault::TapeFault));
            let jf = DATA_SIZE - 1 - ss.dp;
            assert(0 <= jf < w);
            lemma_block_inc_dp(code, input, flush, ss, q, w, jf);
            let s = SrcState { ip: q + jf, dp: DATA_SIZE - 1, ..ss };
            assert(code[s.ip] == IDENT_INC_DP);
            assert(src_step(code, input, flush, s) == SrcStep::Faulted(ExecFault::TapeFault));
            assert(src_run(code, input, flush, ss, (jf + 1) as nat) == SrcRun::Faulted(
                ExecFault::TapeFault,
                s,
            ));
        } else {
            lemma_block_inc_dp(code, input, flush, ss, q, w, w);
            let ss1 = SrcState { ip: q + w, dp: ss.dp + w, ..ss };
            assert(src_run(code, input, flush, ss, w as nat) == SrcRun::Going(ss1));
            assert(vm_step(prog, input, flush, sv) == VmStep::Going(
                VmState { ip: u + 1, dp: sv.dp + w as usize, ..sv },
            ));
            assert(gen_corr(code, prog, ss1, VmState { ip: u + 1, dp: sv.dp + w as usize, ..sv }));
        }
    } else if b == IDENT_DEC_DP {
        assert(prog[u] == Instruction::DecDP(w as usize));
        if w > sv.dp {
            assert(vm_step(prog, input, flush, sv) == VmStep::Faulted(ExecFault::TapeFault));
            let jf = ss.dp;
            assert(0 <= jf < w);
            lemma_block_dec_dp(code, input, flush, ss, q, w, jf);
            let s = SrcState { ip: q + jf, dp: 0, ..ss };
            assert(code[s.ip] == IDENT_DEC_DP);
            assert(src_step(code, input, flush, s) == SrcStep::Faulted(ExecFault::TapeFault));
            assert(src_run(code, input, flush, ss, (jf + 1) as nat) == SrcRun::Faulted(
                ExecFault::TapeFault,
                s,
            ));
        } else {
            lemma_block_dec_dp(code, input, flush, ss, q, w, w);
            let ss1 = SrcState { ip: q + w, dp: ss.dp - w, ..ss };
            assert(src_run(code, input, flush, ss, w as nat) == SrcRun::Going(ss1));
            assert(vm_step(prog, input, flush, sv) == VmStep::Going(
                VmState { ip: u + 1, dp: sv.dp - w as usize, ..sv },
            ));
            assert(gen_corr(code, prog, ss1, VmState { ip: u + 1, dp: sv.dp - w as usize, ..sv }));
        }
    } else if b == IDENT_INC_DATA {
        assert(prog[u] == Instruction::IncByteAtDP(w as usize));
        let v = ss.tape[ss.dp];
        lemma_block_inc_data(code, input, flush, ss, q, w, w);
        let ss1 = SrcState { ip: q + w, tape: ss.tape.update(ss.dp, wrap_add(v, w as usize)), ..ss };
        assert(src_run(code, input, flush, ss, w as nat) == SrcRun::Going(ss1));
        let sv1 = VmState { ip: u + 1, tape: sv.tape.update(sv.dp, wrap_add(v, w as usize)), ..sv };
        assert(vm_step(prog, input, flush, sv) == VmStep::Going(sv1));
        assert(gen_corr(code, prog, ss1, sv1));
    } else if b == IDENT_DEC_DATA {
        assert(prog[u] == Instruction::DecByteAtDP(w as usize));
        let v = ss.tape[ss.dp];
        lemma_block_dec_data(code, input, flush, ss, q, w, w);
        let ss1 = SrcState { ip: q + w, tape: ss.tape.update(ss.dp, wrap_sub(v, w as usize)), ..ss };
        assert(src_run(code, input, flush, ss, w as nat) == SrcRun::Going(ss1));
        let sv1 = VmState { ip: u + 1, tape: sv.tape.update(sv.dp, wrap_sub(v, w as usize)), ..sv };
        assert(vm_step(prog, input, flush, sv) == VmStep::Going(sv1));
        assert(gen_corr(code, prog, ss1, sv1));
    } else if b == IDENT_WRITE_BYTE {
        assert(prog[u] == Instruction::WriteByte(w as usize));
        let v = ss.tape[ss.dp];
        lemma_block_write(code, input, flush, ss, q, w, w);
        let ss1 = SrcState { ip: q + w, events: ss.events + write_events(v, w as nat, flush), ..ss };
        assert(src_run(code, input, flush, ss, w as nat) == SrcRun::Going(ss1));
        let sv1 = VmState { ip: u + 1, events: sv.events + write_events(v, w as nat, flush), ..sv };
        assert(vm_step(prog, input, flush, sv) == VmStep::Going(sv1));
        assert(gen_corr(code, prog, ss1, sv1));
    } else if b == IDENT_READ_BYTE {
        assert(prog[u] == Instruction::ReadByte);
        assert(w == 1);
        if ss.rp >= input.len() {
            assert(vm_step(prog, input, flush, sv) == VmStep::Faulted(ExecFault::EndOfInput));
            assert(src_step(code, input, flush, ss) == SrcStep::Faulted(ExecFault::EndOfInput));
            assert(src_run(code, input, flush, ss, 1) == SrcRun::Faulted(
                ExecFault::EndOfInput,
                ss,
            ));
        } else {
            let ss1 = SrcState {
                ip: q + 1,
                tape: ss.tape.update(ss.dp, input[ss.rp]),
                rp: ss.rp + 1,
                ..ss
            };
            let sv1 = VmState {
                ip: u + 1,
                tape: sv.tape.update(sv.dp, input[sv.rp]),
                rp: sv.rp + 1,
                ..sv
            };
            assert(src_step(code, input, flush, ss) == SrcStep::Going(ss1));
            assert(src_run(code, input, flush, ss, 1) == SrcRun::Going(ss1));
            assert(vm_step(prog, input, flush, sv) == VmStep::Going(sv1));
            assert(gen_corr(code, prog, ss1, sv1));
        }
    } else if b == IDENT_JUMP_ZERO {
        assert(prog[u] is JumpZero);
        let f = prog[u]->JumpZero_0;
        assert(w == 1);
        if ss.tape[ss.dp] == 0 {
            assert(is_pair(prog, u, u + f - 1));
            assert(find_close_ins(prog, u + 1, 0) == Some(u + f - 1));
            lemma_mapped_close_scan(code, prog, u + 1, 0);
            let q2 = pos_of(code, u + f - 1);
            assert(find_close(code, q + 1, 0) == Some(q2));
            lemma_src_of_facts(code, 0, u + f - 1);
            assert(code[q2] == IDENT_JUMP_NOT_ZERO) by {
                assert(prog[u + f - 1] is JumpNotZero);
                if code[q2] == IDENT_JUMP_ZERO {
                    assert(prog[u + f - 1] is JumpZero);
                } else if code[q2] != IDENT_JUMP_NOT_ZERO {
                    assert(prog[u + f - 1] == fold_one(code[q2], run_len(code, q2) as usize));
                }
            }
            assert(pos_of(code, u + f) == q2 + 1);
            let ss1 = SrcState { ip: q2 + 1, ..ss };
            assert(src_step(code, input, flush, ss) == SrcStep::Going(ss1));
            assert(src_run(code, input, flush, ss, 1) == SrcRun::Going(ss1));
            let sv1 = VmState { ip: u + f, ..sv };
            assert(vm_step(prog, input, flush, sv) == VmStep::Going(sv1));
            assert(gen_corr(code, prog, ss1, sv1));
        } else {
            let ss1 = SrcState { ip: q + 1, ..ss };
            let sv1 = VmState { ip: u + 1, ..sv };
            assert(src_step(code, input, flush, ss) == SrcStep::Going(ss1));
            assert(src_run(code, input, flush, ss, 1) == SrcRun::Going(ss1));
            assert(vm_step(prog, input, flush, sv) == VmStep::Going(sv1));
            assert(gen_corr(code, prog, ss1, sv1));
        }
    } else {
        assert(b == IDENT_JUMP_NOT_ZERO);
        assert(prog[u] is JumpNotZero);
        let bk = prog[u]->JumpNotZero_0;
        assert(w == 1);
        if ss.tape[ss.dp] != 0 {
            let m = u - bk - 1;
            assert(bk + 2 <= usize::MAX);
            assert(prog[m] == Instruction::JumpZero((bk + 2) as usize));
            assert(is_pair(prog, m, u));
            assert(find_open_ins(prog, u - 1, 0) == Some(m));
            lemma_mapped_open_scan(code, prog, u - 1, 0);
            let qm = pos_of(code, m);
            assert(find_open(code, q - 1, 0) == Some(qm));
            lemma_src_of_facts(code, 0, m);
            assert(code[qm] == IDENT_JUMP_ZERO) by {
                assert(prog[m] is JumpZero);
                if code[qm] == IDENT_JUMP_NOT_ZERO {
                    assert(prog[m] is JumpNotZero);
                } else if code[qm] != IDENT_JUMP_ZERO {
                    assert(prog[m] == fold_one(code[qm], run_len(code, qm) as usize));
                }
            }
            assert(pos_of(code, m + 1) == qm + 1);
            let ss1 = SrcState { ip: qm + 1, ..ss };
            assert(src_step(code, input, flush, ss) == SrcStep::Going(ss1));
            assert(src_run(code, input, flush, ss, 1) == SrcRun::Going(ss1));
            let sv1 = VmState { ip: u - bk, ..sv };
            assert(vm_step(prog, input, flush, sv) == VmStep::Going(sv1));
            assert(gen_corr(code, prog, ss1, sv1));
        } else {
            let ss1 = SrcState { ip: q + 1, ..ss };
            let sv1 = VmState { ip: u + 1, ..sv };
            assert(src_step(code, input, flush, ss) == SrcStep::Going(ss1));
            assert(src_run(code, input, flush, ss, 1) == SrcRun::Going(ss1));
            assert(vm_step(prog, input, flush, sv) == VmStep::Going(sv1));
            assert(gen_corr(code, prog, ss1, sv1));
        }
    }
}



proof fn lemma_gen_run_equivalence_n(
    code: Seq<u8>,
    prog: Seq<Instruction>,
    input: Seq<u8>,
    flush: FlushBehavior,
    ss0: SrcState,
    sv0: VmState,
    n: nat,
)
    requires
        gen_mirrors(code, prog),
        well_formed(prog),
        scan_matched(prog),
        code.len() <= usize::MAX,
        gen_corr(code, prog, ss0, sv0),
    ensures
        match vm_run(prog, input, flush, sv0, n) {
            VmRun::Going(sv) => exists|ns: nat|
                (#[trigger] src_run(code, input, flush, ss0, ns)) matches SrcRun::Going(ss)
                    && gen_corr(code, prog, ss, sv),
            VmRun::Halted(sv) => exists|ns: nat|
                (#[trigger] src_run(code, input, flush, ss0, ns)) matches SrcRun::Halted(ss)
                    && states_match(ss, sv),
            VmRun::Faulted(f, sv) => exists|ns: nat|
                (#[trigger] src_run(code, input, flush, ss0, ns)) matches SrcRun::Faulted(f2, ssf)
                    && f2 == f && ssf.events == sv.events,
        },
    decreases n,
{
    if n == 0 {
        assert(src_run(code, input, flush, ss0, 0) == SrcRun::Going(ss0));
    } else {
        lemma_gen_run_equivalence_n(code, prog, input, flush, ss0, sv0, (n - 1) as nat);
        match vm_run(prog, input, flush, sv0, (n - 1) as nat) {
            VmRun::Going(sv) => {
                let ns = choose|ns: nat|
                    (#[trigger] src_run(code, input, flush, ss0, ns)) matches SrcRun::Going(ss)
                        && gen_corr(code, prog, ss, sv);
                let ss = src_run(code, input, flush, ss0, ns)->Going_0;
                if sv.ip >= prog.len() {
                    assert(vm_run(prog, input, flush, sv0, n) == VmRun::Halted(sv));
                    assert(sv.ip == prog.len());
                    lemma_src_of_facts(code, 0, prog.len() as int);
                    assert(ss.ip >= code.len());
                    assert(src_run(code, input, flush, ss0, ns + 1) == SrcRun::Halted(ss));
                } else {
                    lemma_gen_step_block(code, prog, input, flush, ss, sv);
                    match vm_step(prog, input, flush, sv) {
                        VmStep::Going(sv1) => {
                            assert(vm_run(prog, input, flush, sv0, n) == VmRun::Going(sv1));
                            let k = choose|k: nat|
                                1 <= k && ((#[trigger] src_run(code, input, flush, ss, k))
                                    matches SrcRun::Going(ss1) && gen_corr(code, prog, ss1, sv1));
                            lemma_src_run_compose(code, input, flush, ss0, ns, k);
                            assert(src_run(code, input, flush, ss0, ns + k) == src_run(
                                code,
                                input,
                                flush,
                                ss,
                                k,
                            ));
                        },
                        VmStep::Faulted(f) => {
                            assert(vm_run(prog, input, flush, sv0, n) == VmRun::Faulted(f, sv));
                            let k = choose|k: nat|
                                (#[trigger] src_run(code, input, flush, ss, k))
                                    matches SrcRun::Faulted(f2, ssf) && f2 == f && ssf.events
                                    == ss.events;
                            lemma_src_run_compose(code, input, flush, ss0, ns, k);
                            assert(src_run(code, input, flush, ss0, ns + k) == src_run(
                                code,
                                input,
                                flush,
                                ss,
                                k,
                            ));
                        },
                    }
                }
            },
            _ => {},
        }
    }
}

/// Semantic equivalence of the reference interpreter and the virtual
/// machine on compiled bytecode. For a comment-free program, every outcome
/// the virtual machine can reach — still running, halted, or aborted by a
/// fault — is reached by the interpreter on the source: with the same tape,
/// data pointer, input position and output trace when running or halted,
/// and with the same fault and the same output at a fault.
pub proof fn lemma_run_equivalence(
    code: Seq<u8>,
    prog: Seq<Instruction>,
    input: Seq<u8>,
    flush: FlushBehavior,
    ss0: SrcState,
    sv0: VmState,
    n: nat,
)
    requires
        forall|t: int| 0 <= t < code.len() ==> spec_is_ident(#[trigger] code[t]),
        code.len() <= usize::MAX,
        spec_compile(code) == Ok::<Seq<Instruction>, CompileError>(prog),
        states_match(ss0, sv0),
        ss0.ip == 0,
        sv0.ip == 0,
        0 <= ss0.dp < DATA_SIZE,
        ss0.tape.len() == DATA_SIZE,
    ensures
        match vm_run(prog, input, flush, sv0, n) {
            VmRun::Going(sv) => exists|ns: nat|
                (#[trigger] src_run(code, input, flush, ss0, ns)) matches SrcRun::Going(ss)
                    && states_match(ss, sv),
            VmRun::Halted(sv) => exists|ns: nat|
                (#[trigger] src_run(code, input, flush, ss0, ns)) matches SrcRun::Halted(ss)
                    && states_match(ss, sv),
            VmRun::Faulted(f, sv) => exists|ns: nat|
                (#[trigger] src_run(code, input, flush, ss0, ns)) matches SrcRun::Faulted(f2, ssf)
                    && f2 == f && ssf.events == sv.events,
        },
{
    lemma_compile_gen_mirrors(code, prog);
    lemma_compile_well_formed(code, prog);
    lemma_compile_offsets_match_scan(code, prog);
    assert(scan_matched(prog));
    assert(pos_of(code, 0) == 0);
    lemma_gen_run_equivalence_n(code, prog, input, flush, ss0, sv0, n);
    match vm_run(prog, input, flush, sv0, n) {
        VmRun::Going(sv) => {
            let ns = choose|ns: nat|
                (#[trigger] src_run(code, input, flush, ss0, ns)) matches SrcRun::Going(ss)
                    && gen_corr(code, prog, ss, sv);
        },
        _ => {},
    }
}



/// How many opcode bytes lie before position `p` of the raw source: the
/// position the filtered program has reached when the raw one stands at `p`.
pub open spec fn nident(code: Seq<u8>, p: int) -> int {
    filter_idents(code.take(p)).len() as int
}

proof fn lemma_nident_step(code: Seq<u8>, p: int)
    requires
        0 <= p < code.len(),
    ensures
        nident(code, p + 1) == nident(code, p) + if spec_is_ident(code[p]) {
            1int
        } else {
            0int
        },
{
    assert(code.take(p + 1).drop_last() =~= code.take(p));
    assert(code.take(p + 1).last() == code[p]);
}

/// The filtered prefix of a raw prefix is a prefix of the filtered program,
/// and an opcode byte lands at its own count.
proof fn lemma_filter_prefix(code: Seq<u8>, p: int)
    requires
        0 <= p <= code.len(),
    ensures
        0 <= nident(code, p) <= filter_idents(code).len(),
        filter_idents(code.take(p)) == filter_idents(code).take(nident(code, p)),
        p < code.len() && spec_is_ident(code[p]) ==> nident(code, p) < filter_idents(code).len()
            && filter_idents(code)[nident(code, p)] == code[p],
    decreases code.len() - p,
{
    let fl = filter_idents(code);
    if p == code.len() {
        assert(code.take(p) =~= code);
        assert(fl.take(nident(code, p)) =~= fl);
    } else {
        lemma_filter_prefix(code, p + 1);
        lemma_nident_step(code, p);
        assert(code.take(p + 1).drop_last() =~= code.take(p));
        assert(code.take(p + 1).last() == code[p]);
        if spec_is_ident(code[p]) {
            assert(filter_idents(code.take(p + 1)) == filter_idents(code.take(p)) + seq![
                code[p],
            ]);
            assert(filter_idents(code.take(p)) =~= fl.take(nident(code, p) + 1).drop_last());
            assert(fl.take(nident(code, p) + 1).drop_last() =~= fl.take(nident(code, p)));
            assert(fl[nident(code, p)] == filter_idents(code.take(p + 1)).last());
        } else {
            assert(filter_idents(code.take(p + 1)) =~= filter_idents(code.take(p)));
        }
    }
}

/// The first opcode byte at or after `t`, or the end of the source.
pub open spec fn next_ident(code: Seq<u8>, t: int) -> int
    decreases code.len() - t,
    when 0 <= t
{
    if t >= code.len() {
        code.len() as int
    } else if spec_is_ident(code[t]) {
        t
    } else {
        next_ident(code, t + 1)
    }
}

proof fn lemma_next_ident(code: Seq<u8>, t: int)
    requires
        0 <= t <= code.len(),
    ensures
        t <= next_ident(code, t) <= code.len(),
        next_ident(code, t) < code.len() ==> spec_is_ident(code[next_ident(code, t)]),
        forall|k: int| t <= k < next_ident(code, t) ==> !spec_is_ident(#[trigger] code[k]),
        nident(code, next_ident(code, t)) == nident(code, t),
    decreases code.len() - t,
{
    if t < code.len() && !spec_is_ident(code[t]) {
        lemma_next_ident(code, t + 1);
        lemma_nident_step(code, t);
    }
}



/// The raw forward scan mirrors the scan over the filtered program through
/// the opcode count.
proof fn lemma_mapped_close_raw(code: Seq<u8>, p: int, d: int)
    requires
        0 <= p <= code.len(),
    ensures
        match find_close(code, p, d) {
            Some(r) => 0 <= r < code.len() && code[r] == IDENT_JUMP_NOT_ZERO && find_close(
                filter_idents(code),
                nident(code, p),
                d,
            ) == Some(nident(code, r)),
            None => find_close(filter_idents(code), nident(code, p), d) == None::<int>,
        },
    decreases code.len() - p,
{
    let fl = filter_idents(code);
    lemma_filter_prefix(code, p);
    if p == code.len() {
        assert(code.take(p) =~= code);
        assert(nident(code, p) == fl.len());
        assert(find_close(fl, nident(code, p), d) == None::<int>);
    } else {
        lemma_nident_step(code, p);
        if code[p] == IDENT_JUMP_ZERO {
            assert(fl[nident(code, p)] == code[p]);
            assert(find_close(fl, nident(code, p), d) == find_close(fl, nident(code, p) + 1, d + 1));
            lemma_mapped_close_raw(code, p + 1, d + 1);
        } else if code[p] == IDENT_JUMP_NOT_ZERO {
            assert(fl[nident(code, p)] == code[p]);
            if d == 0 {
                assert(find_close(fl, nident(code, p), d) == Some(nident(code, p)));
            } else {
                assert(find_close(fl, nident(code, p), d) == find_close(
                    fl,
                    nident(code, p) + 1,
                    d - 1,
                ));
                lemma_mapped_close_raw(code, p + 1, d - 1);
            }
        } else if spec_is_ident(code[p]) {
            assert(fl[nident(code, p)] == code[p]);
            assert(find_close(fl, nident(code, p), d) == find_close(fl, nident(code, p) + 1, d));
            lemma_mapped_close_raw(code, p + 1, d);
        } else {
            lemma_mapped_close_raw(code, p + 1, d);
        }
    }
}

/// The raw backward scan mirrors the scan over the filtered program through
/// the opcode count.
proof fn lemma_mapped_open_raw(code: Seq<u8>, p: int, d: int)
    requires
        -1 <= p < code.len(),
    ensures
        match find_open(code, p, d) {
            Some(r) => 0 <= r <= p && code[r] == IDENT_JUMP_ZERO && find_open(
                filter_idents(code),
                nident(code, p + 1) - 1,
                d,
            ) == Some(nident(code, r)),
            None => find_open(filter_idents(code), nident(code, p + 1) - 1, d) == None::<int>,
        },
    decreases p + 1,
{
    let fl = filter_idents(code);
    lemma_filter_prefix(code, p + 1);
    if p == -1 {
        assert(code.take(0) =~= Seq::<u8>::empty());
        assert(nident(code, 0) == 0);
        assert(find_open(fl, -1, d) == None::<int>);
    } else {
        lemma_nident_step(code, p);
        lemma_filter_prefix(code, p);
        if code[p] == IDENT_JUMP_NOT_ZERO {
            assert(nident(code, p + 1) - 1 == nident(code, p));
            assert(fl[nident(code, p)] == code[p]);
            assert(find_open(fl, nident(code, p), d) == find_open(fl, nident(code, p) - 1, d + 1));
            lemma_mapped_open_raw(code, p - 1, d + 1);
        } else if code[p] == IDENT_JUMP_ZERO {
            assert(nident(code, p + 1) - 1 == nident(code, p));
            assert(fl[nident(code, p)] == code[p]);
            if d == 0 {
                assert(find_open(fl, nident(code, p), d) == Some(nident(code, p)));
            } else {
                assert(find_open(fl, nident(code, p), d) == find_open(
                    fl,
                    nident(code, p) - 1,
                    d - 1,
                ));
                lemma_mapped_open_raw(code, p - 1, d - 1);
            }
        } else if spec_is_ident(code[p]) {
            assert(nident(code, p + 1) - 1 == nident(code, p));
            assert(fl[nident(code, p)] == code[p]);
            assert(find_open(fl, nident(code, p), d) == find_open(fl, nident(code, p) - 1, d));
            lemma_mapped_open_raw(code, p - 1, d);
        } else {
            assert(nident(code, p + 1) == nident(code, p));
            lemma_mapped_open_raw(code, p - 1, d);
        }
    }
}



/// Comment bytes are skipped: running over a stretch without opcode bytes
/// only moves the instruction pointer.
proof fn lemma_comment_walk(
    code: Seq<u8>,
    input: Seq<u8>,
    flush: FlushBehavior,
    rs: SrcState,
    r: int,
)
    requires
        0 <= rs.ip <= r <= code.len(),
        forall|k: int| rs.ip <= k < r ==> !spec_is_ident(#[trigger] code[k]),
    ensures
        src_run(code, input, flush, rs, (r - rs.ip) as nat) == SrcRun::Going(
            SrcState { ip: r, ..rs },
        ),
    decreases r - rs.ip,
{
    if r == rs.ip {
        assert(SrcState { ip: r, ..rs } == rs);
    } else {
        lemma_comment_walk(code, input, flush, rs, r - 1);
        let s = SrcState { ip: r - 1, ..rs };
        assert(!spec_is_ident(code[s.ip]));
        assert(src_step(code, input, flush, s) == SrcStep::Going(SrcState { ip: r, ..rs }));
    }
}

/// The source positions the raw and the filtered interpreter agree on: same
/// observable state, with the raw instruction pointer standing where the
/// count of opcodes passed equals the filtered instruction pointer.
pub open spec fn filter_corr(code: Seq<u8>, rs: SrcState, fs: SrcState) -> bool {
    &&& rs.tape == fs.tape
    &&& rs.dp == fs.dp
    &&& rs.rp == fs.rp
    &&& rs.events == fs.events
    &&& 0 <= rs.ip <= code.len()
    &&& fs.ip == nident(code, rs.ip)
}

/// One step of the interpreter on the filtered program corresponds to a walk
/// over the comments and one opcode step on the raw source.
proof fn lemma_filter_step(
    code: Seq<u8>,
    input: Seq<u8>,
    flush: FlushBehavior,
    rs: SrcState,
    fs: SrcState,
)
    requires
        filter_corr(code, rs, fs),
        fs.ip < filter_idents(code).len(),
    ensures
        match src_step(filter_idents(code), input, flush, fs) {
            SrcStep::Going(fs1) => exists|k: nat|
                1 <= k && ((#[trigger] src_run(code, input, flush, rs, k))
                    matches SrcRun::Going(rs1) && filter_corr(code, rs1, fs1)),
            SrcStep::Faulted(f) => exists|k: nat|
                (#[trigger] src_run(code, input, flush, rs, k)) matches SrcRun::Faulted(f2, rsf)
                    && f2 == f && rsf.events == rs.events,
        },
{
    let fl = filter_idents(code);
    let r = next_ident(code, rs.ip);
    lemma_next_ident(code, rs.ip);
    assert(r < code.len()) by {
        if r == code.len() {
            assert(code.take(r) =~= code);
            assert(nident(code, r) == fl.len());
        }
    }
    lemma_filter_prefix(code, r);
    lemma_nident_step(code, r);
    assert(fl[fs.ip] == code[r]);
    let w = (r - rs.ip) as nat;
    lemma_comment_walk(code, input, flush, rs, r);
    let rr = SrcState { ip: r, ..rs };
    assert(src_run(code, input, flush, rs, w) == SrcRun::Going(rr));
    let b = code[r];
    if b == IDENT_INC_DP {
        if rs.dp + 1 >= DATA_SIZE {
            assert(src_run(code, input, flush, rs, w + 1) == SrcRun::Faulted(
                ExecFault::TapeFault,
                rr,
            ));
        } else {
            let rs1 = SrcState { ip: r + 1, dp: rs.dp + 1, ..rs };
            assert(src_run(code, input, flush, rs, w + 1) == SrcRun::Going(rs1));
            assert(filter_corr(code, rs1, SrcState { ip: fs.ip + 1, dp: fs.dp + 1, ..fs }));
        }
    } else if b == IDENT_DEC_DP {
        if rs.dp == 0 {
            assert(src_run(code, input, flush, rs, w + 1) == SrcRun::Faulted(
                ExecFault::TapeFault,
                rr,
            ));
        } else {
            let rs1 = SrcState { ip: r + 1, dp: rs.dp - 1, ..rs };
            assert(src_run(code, input, flush, rs, w + 1) == SrcRun::Going(rs1));
            assert(filter_corr(code, rs1, SrcState { ip: fs.ip + 1, dp: fs.dp - 1, ..fs }));
        }
    } else if b == IDENT_INC_DATA {
        let rs1 = SrcState {
            ip: r + 1,
            tape: rs.tape.update(rs.dp, wrap_add(rs.tape[rs.dp], 1)),
            ..rs
        };
        assert(src_run(code, input, flush, rs, w + 1) == SrcRun::Going(rs1));
        assert(filter_corr(
            code,
            rs1,
            SrcState { ip: fs.ip + 1, tape: fs.tape.update(fs.dp, wrap_add(fs.tape[fs.dp], 1)), ..fs },
        ));
    } else if b == IDENT_DEC_DATA {
        let rs1 = SrcState {
            ip: r + 1,
            tape: rs.tape.update(rs.dp, wrap_sub(rs.tape[rs.dp], 1)),
            ..rs
        };
        assert(src_run(code, input, flush, rs, w + 1) == SrcRun::Going(rs1));
        assert(filter_corr(
            code,
            rs1,
            SrcState { ip: fs.ip + 1, tape: fs.tape.update(fs.dp, wrap_sub(fs.tape[fs.dp], 1)), ..fs },
        ));
    } else if b == IDENT_WRITE_BYTE {
        let ev = rs.events + seq![SinkEvent::Byte(rs.tape[rs.dp])] + if flush is OnWrite {
            seq![SinkEvent::Flush]
        } else {
            Seq::<SinkEvent>::empty()
        };
        let rs1 = SrcState { ip: r + 1, events: ev, ..rs };
        assert(src_run(code, input, flush, rs, w + 1) == SrcRun::Going(rs1));
        assert(filter_corr(code, rs1, SrcState { ip: fs.ip + 1, events: ev, ..fs }));
    } else if b == IDENT_READ_BYTE {
        if rs.rp >= input.len() {
            assert(src_run(code, input, flush, rs, w + 1) == SrcRun::Faulted(
                ExecFault::EndOfInput,
                rr,
            ));
        } else {
            let rs1 = SrcState {
                ip: r + 1,
                tape: rs.tape.update(rs.dp, input[rs.rp]),
                rp: rs.rp + 1,
                ..rs
            };
            assert(src_run(code, input, flush, rs, w + 1) == SrcRun::Going(rs1));
            assert(filter_corr(
                code,
                rs1,
                SrcState {
                    ip: fs.ip + 1,
                    tape: fs.tape.update(fs.dp, input[fs.rp]),
                    rp: fs.rp + 1,
                    ..fs
                },
            ));
        }
    } else if b == IDENT_JUMP_ZERO {
        if rs.tape[rs.dp] == 0 {
            lemma_mapped_close_raw(code, r + 1, 0);
            match find_close(code, r + 1, 0) {
                Some(c) => {
                    assert(find_close(fl, fs.ip + 1, 0) == Some(nident(code, c)));
                    lemma_nident_step(code, c);
                    let rs1 = SrcState { ip: c + 1, ..rs };
                    assert(src_run(code, input, flush, rs, w + 1) == SrcRun::Going(rs1));
                    assert(filter_corr(code, rs1, SrcState { ip: nident(code, c) + 1, ..fs }));
                },
                None => {
                    assert(find_close(fl, fs.ip + 1, 0) == None::<int>);
                    assert(src_run(code, input, flush, rs, w + 1) == SrcRun::Faulted(
                        ExecFault::UnmatchedLoopBegin,
                        rr,
                    ));
                },
            }
        } else {
            let rs1 = SrcState { ip: r + 1, ..rs };
            assert(src_run(code, input, flush, rs, w + 1) == SrcRun::Going(rs1));
            assert(filter_corr(code, rs1, SrcState { ip: fs.ip + 1, ..fs }));
        }
    } else {
        assert(b == IDENT_JUMP_NOT_ZERO);
        if rs.tape[rs.dp] != 0 {
            lemma_mapped_open_raw(code, r - 1, 0);
            match find_open(code, r - 1, 0) {
                Some(o) => {
                    assert(find_open(fl, fs.ip - 1, 0) == Some(nident(code, o)));
                    lemma_nident_step(code, o);
                    let rs1 = SrcState { ip: o + 1, ..rs };
                    assert(src_run(code, input, flush, rs, w + 1) == SrcRun::Going(rs1));
                    assert(filter_corr(code, rs1, SrcState { ip: nident(code, o) + 1, ..fs }));
                },
                None => {
                    assert(find_open(fl, fs.ip - 1, 0) == None::<int>);
                    assert(src_run(code, input, flush, rs, w + 1) == SrcRun::Faulted(
                        ExecFault::UnmatchedLoopEnd,
                        rr,
                    ));
                },
            }
        } else {
            let rs1 = SrcState { ip: r + 1, ..rs };
            assert(src_run(code, input, flush, rs, w + 1) == SrcRun::Going(rs1));
            assert(filter_corr(code, rs1, SrcState { ip: fs.ip + 1, ..fs }));
        }
    }
}



/// Comment transparency of the interpreter: every outcome it reaches on the
/// filtered program it also reaches on the raw source — with the same tape,
/// data pointer, input position and output trace while running and at the
/// halt, and with the same fault and the same output at a fault. Comment
/// bytes only cost steps.
pub proof fn lemma_filter_run_equivalence(
    code: Seq<u8>,
    input: Seq<u8>,
    flush: FlushBehavior,
    rs0: SrcState,
    fs0: SrcState,
    n: nat,
)
    requires
        filter_corr(code, rs0, fs0),
    ensures
        match src_run(filter_idents(code), input, flush, fs0, n) {
            SrcRun::Going(fs) => exists|ns: nat|
                (#[trigger] src_run(code, input, flush, rs0, ns)) matches SrcRun::Going(rs)
                    && filter_corr(code, rs, fs),
            SrcRun::Halted(fs) => exists|ns: nat|
                (#[trigger] src_run(code, input, flush, rs0, ns)) matches SrcRun::Halted(rs)
                    && rs.tape == fs.tape && rs.dp == fs.dp && rs.rp == fs.rp && rs.events
                    == fs.events,
            SrcRun::Faulted(f, fs) => exists|ns: nat|
                (#[trigger] src_run(code, input, flush, rs0, ns)) matches SrcRun::Faulted(f2, rsf)
                    && f2 == f && rsf.events == fs.events,
        },
    decreases n,
{
    let fl = filter_idents(code);
    if n == 0 {
        assert(src_run(code, input, flush, rs0, 0) == SrcRun::Going(rs0));
    } else {
        lemma_filter_run_equivalence(code, input, flush, rs0, fs0, (n - 1) as nat);
        match src_run(fl, input, flush, fs0, (n - 1) as nat) {
            SrcRun::Going(fs) => {
                let ns = choose|ns: nat|
                    (#[trigger] src_run(code, input, flush, rs0, ns)) matches SrcRun::Going(rs)
                        && filter_corr(code, rs, fs);
                let rs = src_run(code, input, flush, rs0, ns)->Going_0;
                if fs.ip >= fl.len() {
                    assert(src_run(fl, input, flush, fs0, n) == SrcRun::Halted(fs));
                    let r = next_ident(code, rs.ip);
                    lemma_next_ident(code, rs.ip);
                    assert(r == code.len()) by {
                        if r < code.len() {
                            lemma_filter_prefix(code, r);
                        }
                    }
                    lemma_comment_walk(code, input, flush, rs, r);
                    let w = (r - rs.ip) as nat;
                    let rr = SrcState { ip: r, ..rs };
                    lemma_src_run_compose(code, input, flush, rs0, ns, w);
                    assert(src_run(code, input, flush, rs0, ns + w) == SrcRun::Going(rr));
                    assert(src_run(code, input, flush, rs0, ns + w + 1) == SrcRun::Halted(rr));
                } else {
                    lemma_filter_step(code, input, flush, rs, fs);
                    match src_step(fl, input, flush, fs) {
                        SrcStep::Going(fs1) => {
                            assert(src_run(fl, input, flush, fs0, n) == SrcRun::Going(fs1));
                            let k = choose|k: nat|
                                1 <= k && ((#[trigger] src_run(code, input, flush, rs, k))
                                    matches SrcRun::Going(rs1) && filter_corr(code, rs1, fs1));
                            lemma_src_run_compose(code, input, flush, rs0, ns, k);
                            assert(src_run(code, input, flush, rs0, ns + k) == src_run(
                                code,
                                input,
                                flush,
                                rs,
                                k,
                            ));
                        },
                        SrcStep::Faulted(f) => {
                            assert(src_run(fl, input, flush, fs0, n) == SrcRun::Faulted(f, fs));
                            let k = choose|k: nat|
                                (#[trigger] src_run(code, input, flush, rs, k))
                                    matches SrcRun::Faulted(f2, rsf) && f2 == f && rsf.events
                                    == rs.events;
                            lemma_src_run_compose(code, input, flush, rs0, ns, k);
                            assert(src_run(code, input, flush, rs0, ns + k) == src_run(
                                code,
                                input,
                                flush,
                                rs,
                                k,
                            ));
                        },
                    }
                }
            },
            _ => {},
        }
    }
}

/// Semantic equivalence of the reference interpreter on the raw source and
/// the virtual machine on the compiled bytecode: for any source program,
/// comments included, every outcome the virtual machine can reach is
/// reached by the interpreter on the source — with the same tape, data
/// pointer, input position and output trace while running and at the halt,
/// and with the same fault and the same output at a fault.
pub proof fn lemma_source_run_equivalence(
    code: Seq<u8>,
    prog: Seq<Instruction>,
    input: Seq<u8>,
    flush: FlushBehavior,
    rs0: SrcState,
    sv0: VmState,
    n: nat,
)
    requires
        code.len() <= usize::MAX,
        spec_compile(code) == Ok::<Seq<Instruction>, CompileError>(prog),
        states_match(rs0, sv0),
        rs0.ip == 0,
        sv0.ip == 0,
        0 <= rs0.dp < DATA_SIZE,
        rs0.tape.len() == DATA_SIZE,
    ensures
        match vm_run(prog, input, flush, sv0, n) {
            VmRun::Going(sv) => exists|ns: nat|
                (#[trigger] src_run(code, input, flush, rs0, ns)) matches SrcRun::Going(rs)
                    && states_match(rs, sv),
            VmRun::Halted(sv) => exists|ns: nat|
                (#[trigger] src_run(code, input, flush, rs0, ns)) matches SrcRun::Halted(rs)
                    && states_match(rs, sv),
            VmRun::Faulted(f, sv) => exists|ns: nat|
                (#[trigger] src_run(code, input, flush, rs0, ns)) matches SrcRun::Faulted(f2, rsf)
                    && f2 == f && rsf.events == sv.events,
        },
{
    let fl = filter_idents(code);
    crate::lemma_filter_all_idents(code);
    lemma_filter_idempotent(code);
    crate::compiler::lemma_filter_len(code);
    assert(spec_compile(fl) == spec_compile(code));
    lemma_run_equivalence(fl, prog, input, flush, rs0, sv0, n);
    assert(code.take(0) =~= Seq::<u8>::empty());
    assert(filter_corr(code, rs0, rs0));
    match vm_run(prog, input, flush, sv0, n) {
        VmRun::Going(sv) => {
            let nf = choose|nf: nat|
                (#[trigger] src_run(fl, input, flush, rs0, nf)) matches SrcRun::Going(fs)
                    && states_match(fs, sv);
            lemma_filter_run_equivalence(code, input, flush, rs0, rs0, nf);
        },
        VmRun::Halted(sv) => {
            let nf = choose|nf: nat|
                (#[trigger] src_run(fl, input, flush, rs0, nf)) matches SrcRun::Halted(fs)
                    && states_match(fs, sv);
            lemma_filter_run_equivalence(code, input, flush, rs0, rs0, nf);
        },
        VmRun::Faulted(f, sv) => {
            let nf = choose|nf: nat|
                (#[trigger] src_run(fl, input, flush, rs0, nf)) matches SrcRun::Faulted(f2, fsf)
                    && f2 == f && fsf.events == sv.events;
            lemma_filter_run_equivalence(code, input, flush, rs0, rs0, nf);
        },
    }
}


} // verus!
