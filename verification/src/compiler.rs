use vstd::prelude::*;

use crate::filter_idents;
use crate::lemma_filter_all_idents;
use crate::lemma_filter_idempotent;
use crate::lemma_filter_of_idents;
use crate::remove_non_idents;
use crate::syntax::IDENT_DEC_DATA;
use crate::syntax::IDENT_DEC_DP;
use crate::syntax::IDENT_INC_DATA;
use crate::syntax::IDENT_INC_DP;
use crate::syntax::IDENT_JUMP_NOT_ZERO;
use crate::syntax::IDENT_JUMP_ZERO;
use crate::syntax::IDENT_READ_BYTE;
use crate::syntax::IDENT_WRITE_BYTE;
use crate::syntax::spec_is_ident;

verus! {

/// Represents an instruction to execute.
/// The same instruction repeated multiple times is folded into one instruction
/// with the number of repetitions as its argument.
#[derive(Debug, PartialEq, Eq, Structural, Clone, Copy)]
pub enum Instruction {
    /// Increase the data pointer.
    IncDP(usize),
    /// Decrease the data pointer.
    DecDP(usize),
    /// Increase the byte at the data pointer.
    IncByteAtDP(usize),
    /// Decrease the byte at the data pointer.
    DecByteAtDP(usize),
    /// Write the byte at the data pointer to the sink, once per repetition.
    WriteByte(usize),
    /// Read a byte from the input into the byte at the data pointer.
    ReadByte,
    /// If the byte at the data pointer is zero, jump to the instruction after
    /// the matching `JumpNotZero` instruction.
    JumpZero(usize),
    /// Used to determine the relative offset to `JumpNotZero` in the
    /// compilation step.
    JumpZeroPlaceholder,
    /// If the byte at the data pointer is not zero, jump to the instruction
    /// after the matching `JumpZero` instruction.
    JumpNotZero(usize),
    /// Used to determine the relative offset to `JumpZero` in the compilation
    /// step.
    JumpNotZeroPlaceholder,
}

/// An unbalanced bracket found during compilation.
#[derive(Debug, PartialEq, Eq, Structural, Clone, Copy)]
pub enum CompileError {
    /// A loop opener has no matching closer.
    UnmatchedLoopBegin,
    /// A loop closer has no matching opener.
    UnmatchedLoopEnd,
}

/// Length of the maximal run of bytes equal to `s[i]` that starts at `i`.
pub open spec fn run_len(s: Seq<u8>, i: int) -> int
    decreases s.len() - i,
    when 0 <= i < s.len()
{
    if i + 1 < s.len() && s[i + 1] == s[i] {
        1 + run_len(s, i + 1)
    } else {
        1
    }
}

pub proof fn lemma_run_len_bounds(s: Seq<u8>, i: int)
    requires
        0 <= i < s.len(),
    ensures
        1 <= run_len(s, i) <= s.len() - i,
    decreases s.len() - i,
{
    if i + 1 < s.len() && s[i + 1] == s[i] {
        lemma_run_len_bounds(s, i + 1);
    }
}

/// A run is delimited exactly by the first position whose byte differs.
pub proof fn lemma_run_len_char(s: Seq<u8>, i: int, j: int)
    requires
        0 <= i < j <= s.len(),
        forall|t: int| i <= t < j ==> s[t] == s[i],
        j == s.len() || s[j] != s[i],
    ensures
        run_len(s, i) == j - i,
    decreases j - i,
{
    if i + 1 < s.len() && s[i + 1] == s[i] {
        lemma_run_len_char(s, i + 1, j);
    }
}

/// The single folded instruction for a run of `n` copies of the opcode byte
/// `b`. Reads never fold, so their count is irrelevant.
pub open spec fn fold_one(b: u8, n: usize) -> Instruction {
    if b == IDENT_INC_DP {
        Instruction::IncDP(n)
    } else if b == IDENT_DEC_DP {
        Instruction::DecDP(n)
    } else if b == IDENT_INC_DATA {
        Instruction::IncByteAtDP(n)
    } else if b == IDENT_DEC_DATA {
        Instruction::DecByteAtDP(n)
    } else if b == IDENT_WRITE_BYTE {
        Instruction::WriteByte(n)
    } else {
        Instruction::ReadByte
    }
}

/// Run-length folding of the filtered opcode bytes from position `i` on.
/// Brackets emit one placeholder each and reads emit one instruction each;
/// every other opcode emits one folded instruction per maximal run.
pub open spec fn fold_at(s: Seq<u8>, i: int) -> Seq<Instruction>
    decreases s.len() - i,
    when 0 <= i
    via fold_at_decreases
{
    if i >= s.len() {
        Seq::empty()
    } else if s[i] == IDENT_JUMP_ZERO {
        seq![Instruction::JumpZeroPlaceholder] + fold_at(s, i + 1)
    } else if s[i] == IDENT_JUMP_NOT_ZERO {
        seq![Instruction::JumpNotZeroPlaceholder] + fold_at(s, i + 1)
    } else if s[i] == IDENT_READ_BYTE {
        seq![Instruction::ReadByte] + fold_at(s, i + 1)
    } else {
        seq![fold_one(s[i], run_len(s, i) as usize)] + fold_at(s, i + run_len(s, i))
    }
}

#[via_fn]
proof fn fold_at_decreases(s: Seq<u8>, i: int) {
    if 0 <= i < s.len() && s[i] != IDENT_JUMP_ZERO && s[i] != IDENT_JUMP_NOT_ZERO && s[i]
        != IDENT_READ_BYTE {
        lemma_run_len_bounds(s, i);
    }
}

/// Folding never emits a resolved jump, only placeholders.
pub open spec fn no_resolved(p: Seq<Instruction>) -> bool {
    forall|m: int| 0 <= m < p.len() ==> !((#[trigger] p[m]) is JumpZero) && !(p[m] is JumpNotZero)
}

pub proof fn lemma_fold_no_resolved(s: Seq<u8>, i: int)
    requires
        0 <= i,
    ensures
        no_resolved(fold_at(s, i)),
    decreases s.len() - i,
{
    if i < s.len() {
        if s[i] == IDENT_JUMP_ZERO || s[i] == IDENT_JUMP_NOT_ZERO || s[i] == IDENT_READ_BYTE {
            lemma_fold_no_resolved(s, i + 1);
        } else {
            lemma_run_len_bounds(s, i);
            lemma_fold_no_resolved(s, i + run_len(s, i));
        }
    }
}

/// State of the bracket-linking pass after the first `k` instructions have
/// been processed: the partially rewritten program, the positions of the
/// openers still waiting for their closer, and whether a closer without an
/// opener was seen.
pub ghost struct LinkState {
    pub out: Seq<Instruction>,
    pub stack: Seq<int>,
    pub extra_close: bool,
}

/// The linking pass itself. A closer pops the innermost open opener: the pair
/// is rewritten to `JumpZero`/`JumpNotZero` whose offsets land one past the
/// partner.
pub open spec fn link_state(p: Seq<Instruction>, k: int) -> LinkState
    decreases k,
{
    if k <= 0 {
        LinkState { out: p, stack: Seq::empty(), extra_close: false }
    } else {
        let st = link_state(p, k - 1);
        let j = k - 1;
        match p[j] {
            Instruction::JumpZeroPlaceholder => LinkState {
                out: st.out,
                stack: st.stack.push(j),
                extra_close: st.extra_close,
            },
            Instruction::JumpNotZeroPlaceholder => if st.stack.len() == 0 {
                LinkState { out: st.out, stack: st.stack, extra_close: true }
            } else {
                let i = st.stack.last();
                LinkState {
                    out: st.out.update(i, Instruction::JumpZero((j - i + 1) as usize)).update(
                        j,
                        Instruction::JumpNotZero((j - i - 1) as usize),
                    ),
                    stack: st.stack.drop_last(),
                    extra_close: st.extra_close,
                }
            },
            _ => st,
        }
    }
}

/// What compilation returns: the folded and linked program, or the first
/// bracket error. An unmatched opener is reported before an unmatched closer.
pub open spec fn spec_compile(code: Seq<u8>) -> Result<Seq<Instruction>, CompileError> {
    let p = fold_at(filter_idents(code), 0);
    let st = link_state(p, p.len() as int);
    if st.stack.len() > 0 {
        Err(CompileError::UnmatchedLoopBegin)
    } else if st.extra_close {
        Err(CompileError::UnmatchedLoopEnd)
    } else {
        Ok(st.out)
    }
}

/// The local well-formedness condition at index `i`: resolved jumps point one
/// past a partner that points back, and no placeholder remains.
pub open spec fn wf_at(prog: Seq<Instruction>, i: int) -> bool {
    match prog[i] {
        Instruction::JumpZero(f) => 2 <= f && i + f <= prog.len() && prog[i + f - 1]
            == Instruction::JumpNotZero((f - 2) as usize),
        Instruction::JumpNotZero(b) => b + 1 <= i && prog[i - b - 1] == Instruction::JumpZero(
            (b + 2) as usize,
        ),
        Instruction::JumpZeroPlaceholder => false,
        Instruction::JumpNotZeroPlaceholder => false,
        _ => true,
    }
}

/// A bytecode program whose jumps all pair up, with no placeholder left.
pub open spec fn well_formed(prog: Seq<Instruction>) -> bool {
    forall|i: int| 0 <= i < prog.len() ==> wf_at(prog, i)
}

/// `m` is not one of the opener positions waiting on the stack.
pub open spec fn not_on_stack(stack: Seq<int>, m: int) -> bool {
    forall|t: int| 0 <= t < stack.len() ==> stack[t] != m
}

/// The opener at `m` and the closer at `m + f - 1` form a rewritten pair
/// lying below `k`.
pub open spec fn open_pair_at(
    p: Seq<Instruction>,
    out: Seq<Instruction>,
    m: int,
    f: int,
    k: int,
) -> bool {
    &&& 2 <= f
    &&& m + f <= k
    &&& out[m] == Instruction::JumpZero(f as usize)
    &&& out[m + f - 1] == Instruction::JumpNotZero((f - 2) as usize)
    &&& p[m + f - 1] is JumpNotZeroPlaceholder
}

/// The opener at `m` has been rewritten, together with its closer, into a
/// consistent pair lying below `k`.
pub open spec fn paired_open(p: Seq<Instruction>, out: Seq<Instruction>, m: int, k: int) -> bool {
    exists|f: int| #[trigger] open_pair_at(p, out, m, f, k)
}

/// The closer at `j` and the opener at `j - b - 1` point one past each other.
pub open spec fn close_pair_at(out: Seq<Instruction>, j: int, b: int) -> bool {
    &&& 0 <= b
    &&& b + 1 <= j
    &&& out[j] == Instruction::JumpNotZero(b as usize)
    &&& out[j - b - 1] == Instruction::JumpZero((b + 2) as usize)
}

/// The closer at `j` has been rewritten and points back one past its opener.
pub open spec fn paired_close(out: Seq<Instruction>, j: int) -> bool {
    exists|b: int| #[trigger] close_pair_at(out, j, b)
}

/// Positions `m` and `j` are the two ends of one rewritten bracket pair.
pub open spec fn is_pair(out: Seq<Instruction>, m: int, j: int) -> bool {
    0 <= m < out.len() && (out[m] matches Instruction::JumpZero(f) && j == m + f - 1)
}

/// Everything the linking pass maintains after processing `k` instructions.
pub open spec fn link_inv(p: Seq<Instruction>, k: int, st: LinkState) -> bool {
    &&& st.out.len() == p.len()
    &&& forall|m: int| k <= m < p.len() ==> #[trigger] st.out[m] == p[m]
    &&& forall|m: int|
        0 <= m < p.len() && !((#[trigger] p[m]) is JumpZeroPlaceholder) && !(p[m]
            is JumpNotZeroPlaceholder) ==> st.out[m] == p[m]
    &&& forall|t: int|
        0 <= t < st.stack.len() ==> 0 <= #[trigger] st.stack[t] < k && p[st.stack[t]]
            is JumpZeroPlaceholder && st.out[st.stack[t]] is JumpZeroPlaceholder
    &&& forall|t1: int, t2: int| 0 <= t1 < t2 < st.stack.len() ==> st.stack[t1] < st.stack[t2]
    &&& forall|m: int|
        0 <= m < k && (#[trigger] p[m]) is JumpZeroPlaceholder && not_on_stack(st.stack, m)
            ==> paired_open(p, st.out, m, k)
    &&& forall|j: int|
        0 <= j < k && (#[trigger] p[j]) is JumpNotZeroPlaceholder ==> (st.out[j]
            is JumpNotZeroPlaceholder || paired_close(st.out, j))
    &&& !st.extra_close ==> forall|j: int|
        0 <= j < k && (#[trigger] p[j]) is JumpNotZeroPlaceholder ==> !(st.out[j]
            is JumpNotZeroPlaceholder)
    &&& forall|m1: int, j1: int, m2: int, j2: int|
        #[trigger] is_pair(st.out, m1, j1) && #[trigger] is_pair(st.out, m2, j2) && m1 < m2 ==> j1
            < m2 || j2 < j1
    &&& forall|m: int, j: int, t: int|
        #[trigger] is_pair(st.out, m, j) && 0 <= t < st.stack.len() ==> #[trigger] st.stack[t] < m
            || st.stack[t] > j
    &&& forall|m: int, j: int| #[trigger] is_pair(st.out, m, j) ==> m < j < k
}

pub proof fn lemma_link_props(p: Seq<Instruction>, k: int)
    requires
        0 <= k <= p.len(),
        p.len() <= usize::MAX,
        no_resolved(p),
    ensures
        link_inv(p, k, link_state(p, k)),
    decreases k,
{
    if k > 0 {
        lemma_link_props(p, k - 1);
        let st = link_state(p, k - 1);
        let st1 = link_state(p, k);
        let j = k - 1;
        match p[j] {
            Instruction::JumpZeroPlaceholder => {
                assert forall|m: int, jj: int, t: int|
                    #[trigger] is_pair(st1.out, m, jj) && 0 <= t < st1.stack.len() implies #[trigger] st1.stack[t]
                    < m || st1.stack[t] > jj by {
                    if t < st1.stack.len() - 1 {
                        assert(st1.stack[t] == st.stack[t]);
                    } else {
                        assert(st1.stack[t] == j);
                        assert(m < jj < k - 1);
                    }
                }
                assert forall|m: int|
                    0 <= m < k && (#[trigger] p[m]) is JumpZeroPlaceholder && not_on_stack(
                        st1.stack,
                        m,
                    ) implies paired_open(p, st1.out, m, k) by {
                    assert(st1.stack[st1.stack.len() - 1] == j);
                    assert(m != j);
                    assert(not_on_stack(st.stack, m)) by {
                        assert forall|t: int| 0 <= t < st.stack.len() implies st.stack[t] != m by {
                            assert(st1.stack[t] == st.stack[t]);
                        }
                    }
                    assert(paired_open(p, st.out, m, k - 1));
                    let f = choose|f: int| #[trigger] open_pair_at(p, st.out, m, f, k - 1);
                    assert(open_pair_at(p, st1.out, m, f, k));
                }
            },
            Instruction::JumpNotZeroPlaceholder => {
                if st.stack.len() == 0 {
                    assert forall|m: int|
                        0 <= m < k && (#[trigger] p[m]) is JumpZeroPlaceholder && not_on_stack(
                            st1.stack,
                            m,
                        ) implies paired_open(p, st1.out, m, k) by {
                        assert(paired_open(p, st.out, m, k - 1));
                        let f = choose|f: int| #[trigger] open_pair_at(p, st.out, m, f, k - 1);
                        assert(open_pair_at(p, st1.out, m, f, k));
                    }
                } else {
                    let i = st.stack.last();
                    let f = j - i + 1;
                    assert(st1.out[i] == Instruction::JumpZero(f as usize));
                    assert(st1.out[j] == Instruction::JumpNotZero((f - 2) as usize));
                    // Openers still on the stack lie strictly below the popped one.
                    assert forall|t: int| 0 <= t < st1.stack.len() implies 0 <= #[trigger] st1.stack[t]
                        < k && p[st1.stack[t]] is JumpZeroPlaceholder && st1.out[st1.stack[t]]
                        is JumpZeroPlaceholder by {
                        assert(st1.stack[t] == st.stack[t]);
                        assert(st.stack[t] < st.stack[st.stack.len() - 1]);
                    }
                    assert forall|m: int|
                        0 <= m < k && (#[trigger] p[m]) is JumpZeroPlaceholder && not_on_stack(
                            st1.stack,
                            m,
                        ) implies paired_open(p, st1.out, m, k) by {
                        if m == i {
                            assert(2 <= f && i + f <= k);
                            assert(st1.out[i + f - 1] == Instruction::JumpNotZero(
                                (f - 2) as usize,
                            ));
                            assert(open_pair_at(p, st1.out, m, f, k));
                        } else if m == j {
                            assert(false);
                        } else {
                            assert(not_on_stack(st.stack, m)) by {
                                assert forall|t: int| 0 <= t < st.stack.len() implies st.stack[t]
                                    != m by {
                                    if t < st.stack.len() - 1 {
                                        assert(st.stack[t] == st1.stack[t]);
                                    }
                                }
                            }
                            assert(paired_open(p, st.out, m, k - 1));
                            let f2 = choose|f2: int| #[trigger] open_pair_at(p, st.out, m, f2, k - 1);
                            // The untouched pair survives: neither end is i or j.
                            assert(m + f2 - 1 != i);
                            assert(m + f2 - 1 != j);
                            assert(st1.out[m] == st.out[m]);
                            assert(st1.out[m + f2 - 1] == st.out[m + f2 - 1]);
                            assert(open_pair_at(p, st1.out, m, f2, k));
                        }
                    }
                    assert forall|j2: int|
                        0 <= j2 < k && (#[trigger] p[j2]) is JumpNotZeroPlaceholder implies (
                    st1.out[j2] is JumpNotZeroPlaceholder || paired_close(st1.out, j2)) by {
                        if j2 == j {
                            let b = f - 2;
                            assert(st1.out[j - b - 1] == Instruction::JumpZero((b + 2) as usize));
                            assert(close_pair_at(st1.out, j2, b));
                        } else if st.out[j2] is JumpNotZeroPlaceholder {
                        } else {
                            assert(paired_close(st.out, j2));
                            let b = choose|b: int| #[trigger] close_pair_at(st.out, j2, b);
                            assert(j2 != i && j2 != j);
                            assert(j2 - b - 1 != i) by {
                                assert(st.out[i] is JumpZeroPlaceholder);
                            }
                            assert(j2 - b - 1 != j) by {
                                assert(st.out[j] == p[j]);
                            }
                            assert(st1.out[j2] == st.out[j2]);
                            assert(st1.out[j2 - b - 1] == st.out[j2 - b - 1]);
                            assert(close_pair_at(st1.out, j2, b));
                        }
                    }
                    // The rewritten pairs: the fresh one, and the old ones
                    // untouched at both ends.
                    assert(is_pair(st1.out, i, j));
                    assert forall|m: int, jj: int|
                        #[trigger] is_pair(st1.out, m, jj) && !(m == i && jj == j) implies is_pair(
                        st.out,
                        m,
                        jj,
                    ) && m != i && jj < k - 1 by {
                        assert(m != j);
                        assert(m != i) by {
                            if m == i {
                                assert(jj == i + (j - i + 1) - 1);
                            }
                        }
                        assert(st1.out[m] == st.out[m]);
                        assert(is_pair(st.out, m, jj));
                        assert(m < jj < k - 1);
                    }
                    assert forall|m1: int, j1: int, m2: int, j2: int|
                        #[trigger] is_pair(st1.out, m1, j1) && #[trigger] is_pair(st1.out, m2, j2)
                            && m1 < m2 implies j1 < m2 || j2 < j1 by {
                        if m1 == i && j1 == j {
                            // The fresh pair closes at the very end: anything
                            // to its right is inside it.
                            assert(is_pair(st.out, m2, j2));
                            assert(j2 < k - 1);
                        } else if m2 == i && j2 == j {
                            assert(is_pair(st.out, m1, j1));
                            assert(st.stack[st.stack.len() - 1] == i);
                            assert(i < m1 || i > j1);
                            assert(j1 < m2);
                        } else {
                            assert(is_pair(st.out, m1, j1));
                            assert(is_pair(st.out, m2, j2));
                        }
                    }
                    assert forall|m: int, jj: int, t: int|
                        #[trigger] is_pair(st1.out, m, jj) && 0 <= t < st1.stack.len() implies #[trigger] st1.stack[t]
                        < m || st1.stack[t] > jj by {
                        assert(st1.stack[t] == st.stack[t]);
                        if m == i && jj == j {
                            assert(st.stack[t] < st.stack[st.stack.len() - 1]);
                        } else {
                            assert(is_pair(st.out, m, jj));
                        }
                    }
                }
            },
            _ => {
                assert forall|m: int|
                    0 <= m < k && (#[trigger] p[m]) is JumpZeroPlaceholder && not_on_stack(
                        st1.stack,
                        m,
                    ) implies paired_open(p, st1.out, m, k) by {
                    assert(paired_open(p, st.out, m, k - 1));
                    let f = choose|f: int| #[trigger] open_pair_at(p, st.out, m, f, k - 1);
                    assert(open_pair_at(p, st1.out, m, f, k));
                }
            },
        }
    }
}

/// Bracket pairing: in successfully compiled bytecode, every `JumpZero` at
/// index `i` with offset `f` has `JumpNotZero(f - 2)` at index `i + f - 1`,
/// every `JumpNotZero` at index `j` with offset `b` has `JumpZero(b + 2)` at
/// index `j - b - 1`, and no placeholder remains.
pub proof fn lemma_compile_well_formed(code: Seq<u8>, prog: Seq<Instruction>)
    requires
        code.len() <= usize::MAX,
        spec_compile(code) == Ok::<Seq<Instruction>, CompileError>(prog),
    ensures
        well_formed(prog),
{
    let f = filter_idents(code);
    lemma_filter_len(code);
    lemma_fold_len(f, 0);
    let p = fold_at(f, 0);
    lemma_fold_no_resolved(f, 0);
    lemma_link_props(p, p.len() as int);
    let st = link_state(p, p.len() as int);
    assert(st.stack.len() == 0 && !st.extra_close);
    assert forall|i: int| 0 <= i < prog.len() implies wf_at(prog, i) by {
        match p[i] {
            Instruction::JumpZeroPlaceholder => {
                assert(not_on_stack(st.stack, i));
                assert(paired_open(p, st.out, i, p.len() as int));
                let ff = choose|ff: int| #[trigger] open_pair_at(p, st.out, i, ff, p.len() as int);
                assert(wf_at(prog, i));
            },
            Instruction::JumpNotZeroPlaceholder => {
                assert(paired_close(st.out, i));
                let b = choose|b: int| #[trigger] close_pair_at(st.out, i, b);
                assert(wf_at(prog, i));
            },
            _ => {
                assert(prog[i] == p[i]);
            },
        }
    }
}

/// Whether every bracket pair of the program nests: two pairs either lie
/// one inside the other or do not overlap at all.
pub open spec fn nested(prog: Seq<Instruction>) -> bool {
    forall|m1: int, j1: int, m2: int, j2: int|
        #[trigger] is_pair(prog, m1, j1) && #[trigger] is_pair(prog, m2, j2) && m1 < m2 ==> j1
            < m2 || j2 < j1
}

/// Compiled loops nest properly: two bracket pairs either lie one inside
/// the other or do not overlap at all; they never cross.
pub proof fn lemma_compile_jumps_nested(code: Seq<u8>, prog: Seq<Instruction>)
    requires
        code.len() <= usize::MAX,
        spec_compile(code) == Ok::<Seq<Instruction>, CompileError>(prog),
    ensures
        nested(prog),
{
    let f = filter_idents(code);
    lemma_filter_len(code);
    lemma_fold_len(f, 0);
    let p = fold_at(f, 0);
    lemma_fold_no_resolved(f, 0);
    lemma_link_props(p, p.len() as int);
}

/// Position of the closer matching an opener in the bytecode, scanning right
/// from `j` at bracket `depth`: the balanced scan that the reference
/// interpreter performs on the source, run over the instructions instead.
pub open spec fn find_close_ins(prog: Seq<Instruction>, j: int, depth: int) -> Option<int>
    decreases prog.len() - j,
    when 0 <= j
{
    if j >= prog.len() {
        None
    } else if prog[j] is JumpZero {
        find_close_ins(prog, j + 1, depth + 1)
    } else if prog[j] is JumpNotZero {
        if depth == 0 {
            Some(j)
        } else {
            find_close_ins(prog, j + 1, depth - 1)
        }
    } else {
        find_close_ins(prog, j + 1, depth)
    }
}

proof fn lemma_find_close_ins_range(prog: Seq<Instruction>, j: int, depth: int)
    requires
        0 <= j,
    ensures
        match find_close_ins(prog, j, depth) {
            Some(r) => j <= r < prog.len() && prog[r] is JumpNotZero,
            None => true,
        },
    decreases prog.len() - j,
{
    if j < prog.len() && !(prog[j] is JumpNotZero && depth == 0) {
        if prog[j] is JumpZero {
            lemma_find_close_ins_range(prog, j + 1, depth + 1);
        } else if prog[j] is JumpNotZero {
            lemma_find_close_ins_range(prog, j + 1, depth - 1);
        } else {
            lemma_find_close_ins_range(prog, j + 1, depth);
        }
    }
}

/// The scan is memoryless: a scan carrying `d` more levels of depth passes
/// the close `c` that the plain scan stops at, and continues past it with
/// one level consumed.
proof fn lemma_scan_shift(prog: Seq<Instruction>, s: int, d0: int, d: int, c: int)
    requires
        0 <= s,
        0 <= d0,
        d >= 1,
        find_close_ins(prog, s, d0) == Some(c),
    ensures
        find_close_ins(prog, s, d0 + d) == find_close_ins(prog, c + 1, d - 1),
    decreases prog.len() - s,
{
    lemma_find_close_ins_range(prog, s, d0);
    if s == c {
        assert(d0 == 0) by {
            if d0 != 0 {
                lemma_find_close_ins_range(prog, s + 1, d0 - 1);
            }
        }
        assert(find_close_ins(prog, s, d0 + d) == find_close_ins(prog, s + 1, d - 1));
    } else {
        if prog[s] is JumpZero {
            assert(find_close_ins(prog, s + 1, d0 + 1) == Some(c));
            lemma_scan_shift(prog, s + 1, d0 + 1, d, c);
            assert(find_close_ins(prog, s, d0 + d) == find_close_ins(prog, s + 1, d0 + d + 1));
            assert(d0 + d + 1 == (d0 + 1) + d);
        } else if prog[s] is JumpNotZero {
            assert(d0 != 0) by {
                if d0 == 0 {
                    assert(find_close_ins(prog, s, d0) == Some(s));
                }
            }
            assert(find_close_ins(prog, s + 1, d0 - 1) == Some(c));
            lemma_scan_shift(prog, s + 1, d0 - 1, d, c);
            assert(d0 + d != 0);
            assert(find_close_ins(prog, s, d0 + d) == find_close_ins(prog, s + 1, d0 + d - 1));
            assert(d0 + d - 1 == (d0 - 1) + d);
        } else {
            assert(find_close_ins(prog, s + 1, d0) == Some(c));
            lemma_scan_shift(prog, s + 1, d0, d, c);
            assert(find_close_ins(prog, s, d0 + d) == find_close_ins(prog, s + 1, d0 + d));
        }
    }
}

/// A segment closed under pairing: every opener in `[a, j)` closes before
/// `j`, every closer in `[a, j)` opens at `a` or later.
pub open spec fn seg_ok(prog: Seq<Instruction>, a: int, j: int) -> bool {
    forall|t: int|
        a <= t < j ==> match #[trigger] prog[t] {
            Instruction::JumpZero(f) => t + f - 1 < j,
            Instruction::JumpNotZero(b) => t - b - 1 >= a,
            _ => true,
        }
}

/// Scanning a pair-closed segment finds exactly the closer that delimits it.
proof fn lemma_scan_segment(prog: Seq<Instruction>, a: int, j: int)
    requires
        well_formed(prog),
        nested(prog),
        prog.len() <= usize::MAX,
        0 <= a <= j < prog.len(),
        prog[j] is JumpNotZero,
        seg_ok(prog, a, j),
    ensures
        find_close_ins(prog, a, 0) == Some(j),
    decreases j - a,
{
    if a == j {
    } else {
        assert(wf_at(prog, a));
        match prog[a] {
            Instruction::JumpNotZero(b) => {
                assert(a - b - 1 >= a);
                assert(false);
            },
            Instruction::JumpZero(f) => {
                let c = a + f - 1;
                assert(c < j);
                assert(is_pair(prog, a, c));
                assert(prog[c] is JumpNotZero);
                // The inner segment (a, c) is itself pair-closed.
                assert(seg_ok(prog, a + 1, c)) by {
                    assert forall|t: int| a + 1 <= t < c implies match #[trigger] prog[t] {
                        Instruction::JumpZero(f2) => t + f2 - 1 < c,
                        Instruction::JumpNotZero(b2) => t - b2 - 1 >= a + 1,
                        _ => true,
                    } by {
                        assert(wf_at(prog, t));
                        match prog[t] {
                            Instruction::JumpZero(f2) => {
                                assert(is_pair(prog, t, t + f2 - 1));
                                assert(c < t || t + f2 - 1 < c);
                            },
                            Instruction::JumpNotZero(b2) => {
                                let ot = t - b2 - 1;
                                assert(b2 + 2 <= usize::MAX);
                                assert(prog[ot] == Instruction::JumpZero((b2 + 2) as usize));
                                assert(is_pair(prog, ot, t));
                                assert(ot >= a);
                                if ot == a {
                                    assert(t == c);
                                    assert(false);
                                }
                            },
                            _ => {},
                        }
                    }
                }
                lemma_scan_segment(prog, a + 1, c);
                lemma_scan_shift(prog, a + 1, 0, 1, c);
                // The rest of the segment, past the inner pair, is too.
                assert(seg_ok(prog, c + 1, j)) by {
                    assert forall|t: int| c + 1 <= t < j implies match #[trigger] prog[t] {
                        Instruction::JumpZero(f2) => t + f2 - 1 < j,
                        Instruction::JumpNotZero(b2) => t - b2 - 1 >= c + 1,
                        _ => true,
                    } by {
                        assert(wf_at(prog, t));
                        match prog[t] {
                            Instruction::JumpNotZero(b2) => {
                                let ot = t - b2 - 1;
                                assert(b2 + 2 <= usize::MAX);
                                assert(prog[ot] == Instruction::JumpZero((b2 + 2) as usize));
                                assert(is_pair(prog, ot, t));
                                assert(ot >= a);
                                if ot == a {
                                    assert(t == c);
                                    assert(false);
                                } else if ot < c {
                                    assert(is_pair(prog, a, c));
                                    assert(c < ot || t < c);
                                    assert(false);
                                } else if ot == c {
                                    assert(prog[ot] is JumpNotZero);
                                    assert(false);
                                }
                            },
                            _ => {},
                        }
                    }
                }
                lemma_scan_segment(prog, c + 1, j);
            },
            _ => {
                assert(seg_ok(prog, a + 1, j)) by {
                    assert forall|t: int| a + 1 <= t < j implies match #[trigger] prog[t] {
                        Instruction::JumpZero(f2) => t + f2 - 1 < j,
                        Instruction::JumpNotZero(b2) => t - b2 - 1 >= a + 1,
                        _ => true,
                    } by {
                        assert(wf_at(prog, t));
                        match prog[t] {
                            Instruction::JumpNotZero(b2) => {
                                if t - b2 - 1 == a {
                                    assert(prog[a] == Instruction::JumpZero((b2 + 2) as usize));
                                    assert(false);
                                }
                            },
                            _ => {},
                        }
                    }
                }
                lemma_scan_segment(prog, a + 1, j);
            },
        }
    }
}

/// Position of the opener matching a closer in the bytecode, scanning left
/// from `j` at bracket `depth`: the backward balanced scan that the
/// reference interpreter performs on the source, run over the instructions.
pub open spec fn find_open_ins(prog: Seq<Instruction>, j: int, depth: int) -> Option<int>
    decreases j + 1,
    when j < prog.len()
{
    if j < 0 {
        None
    } else if prog[j] is JumpNotZero {
        find_open_ins(prog, j - 1, depth + 1)
    } else if prog[j] is JumpZero {
        if depth == 0 {
            Some(j)
        } else {
            find_open_ins(prog, j - 1, depth - 1)
        }
    } else {
        find_open_ins(prog, j - 1, depth)
    }
}

proof fn lemma_find_open_ins_range(prog: Seq<Instruction>, j: int, depth: int)
    requires
        j < prog.len(),
    ensures
        match find_open_ins(prog, j, depth) {
            Some(r) => 0 <= r <= j && prog[r] is JumpZero,
            None => true,
        },
    decreases j + 1,
{
    if j >= 0 && !(prog[j] is JumpZero && depth == 0) {
        if prog[j] is JumpNotZero {
            lemma_find_open_ins_range(prog, j - 1, depth + 1);
        } else if prog[j] is JumpZero {
            lemma_find_open_ins_range(prog, j - 1, depth - 1);
        } else {
            lemma_find_open_ins_range(prog, j - 1, depth);
        }
    }
}

/// The backward scan is memoryless in the same way as the forward one.
proof fn lemma_scan_shift_back(prog: Seq<Instruction>, s: int, d0: int, d: int, c: int)
    requires
        s < prog.len(),
        0 <= d0,
        d >= 1,
        find_open_ins(prog, s, d0) == Some(c),
    ensures
        find_open_ins(prog, s, d0 + d) == find_open_ins(prog, c - 1, d - 1),
    decreases s + 1,
{
    lemma_find_open_ins_range(prog, s, d0);
    if s == c {
        assert(d0 == 0) by {
            if d0 != 0 {
                lemma_find_open_ins_range(prog, s - 1, d0 - 1);
            }
        }
        assert(find_open_ins(prog, s, d0 + d) == find_open_ins(prog, s - 1, d - 1));
    } else {
        if prog[s] is JumpNotZero {
            assert(find_open_ins(prog, s - 1, d0 + 1) == Some(c));
            lemma_scan_shift_back(prog, s - 1, d0 + 1, d, c);
            assert(find_open_ins(prog, s, d0 + d) == find_open_ins(prog, s - 1, d0 + d + 1));
            assert(d0 + d + 1 == (d0 + 1) + d);
        } else if prog[s] is JumpZero {
            assert(d0 != 0) by {
                if d0 == 0 {
                    assert(find_open_ins(prog, s, d0) == Some(s));
                }
            }
            assert(find_open_ins(prog, s - 1, d0 - 1) == Some(c));
            lemma_scan_shift_back(prog, s - 1, d0 - 1, d, c);
            assert(d0 + d != 0);
            assert(find_open_ins(prog, s, d0 + d) == find_open_ins(prog, s - 1, d0 + d - 1));
            assert(d0 + d - 1 == (d0 - 1) + d);
        } else {
            assert(find_open_ins(prog, s - 1, d0) == Some(c));
            lemma_scan_shift_back(prog, s - 1, d0, d, c);
            assert(find_open_ins(prog, s, d0 + d) == find_open_ins(prog, s - 1, d0 + d));
        }
    }
}

/// A segment closed under pairing from the right: every closer in `(j, a]`
/// opens after `j`, every opener in `(j, a]` closes at `a` or before.
pub open spec fn seg_ok_back(prog: Seq<Instruction>, j: int, a: int) -> bool {
    forall|t: int|
        j < t <= a ==> match #[trigger] prog[t] {
            Instruction::JumpZero(f) => t + f - 1 <= a,
            Instruction::JumpNotZero(b) => t - b - 1 > j,
            _ => true,
        }
}

/// Scanning a pair-closed segment backward finds exactly the opener that
/// delimits it.
proof fn lemma_scan_segment_back(prog: Seq<Instruction>, j: int, a: int)
    requires
        well_formed(prog),
        nested(prog),
        prog.len() <= usize::MAX,
        0 <= j <= a < prog.len(),
        prog[j] is JumpZero,
        seg_ok_back(prog, j, a),
    ensures
        find_open_ins(prog, a, 0) == Some(j),
    decreases a - j,
{
    if a == j {
    } else {
        assert(wf_at(prog, a));
        match prog[a] {
            Instruction::JumpZero(f) => {
                assert(a + f - 1 <= a);
                assert(false);
            },
            Instruction::JumpNotZero(b) => {
                let o = a - b - 1;
                assert(o > j);
                assert(b + 2 <= usize::MAX);
                assert(prog[o] == Instruction::JumpZero((b + 2) as usize));
                assert(is_pair(prog, o, a));
                assert(seg_ok_back(prog, o, a - 1)) by {
                    assert forall|t: int| o < t <= a - 1 implies match #[trigger] prog[t] {
                        Instruction::JumpZero(f2) => t + f2 - 1 <= a - 1,
                        Instruction::JumpNotZero(b2) => t - b2 - 1 > o,
                        _ => true,
                    } by {
                        assert(wf_at(prog, t));
                        match prog[t] {
                            Instruction::JumpZero(f2) => {
                                assert(is_pair(prog, t, t + f2 - 1));
                                assert(a < t || t + f2 - 1 < a);
                            },
                            Instruction::JumpNotZero(b2) => {
                                let ot = t - b2 - 1;
                                assert(b2 + 2 <= usize::MAX);
                                assert(prog[ot] == Instruction::JumpZero((b2 + 2) as usize));
                                assert(is_pair(prog, ot, t));
                                if ot == o {
                                    assert(t == a);
                                    assert(false);
                                } else if ot < o {
                                    assert(t < o || a < t);
                                    assert(false);
                                }
                            },
                            _ => {},
                        }
                    }
                }
                lemma_scan_segment_back(prog, o, a - 1);
                lemma_scan_shift_back(prog, a - 1, 0, 1, o);
                assert(seg_ok_back(prog, j, o - 1)) by {
                    assert forall|t: int| j < t <= o - 1 implies match #[trigger] prog[t] {
                        Instruction::JumpZero(f2) => t + f2 - 1 <= o - 1,
                        Instruction::JumpNotZero(b2) => t - b2 - 1 > j,
                        _ => true,
                    } by {
                        assert(wf_at(prog, t));
                        match prog[t] {
                            Instruction::JumpZero(f2) => {
                                let ct = t + f2 - 1;
                                assert(is_pair(prog, t, ct));
                                assert(ct <= a);
                                if ct == o {
                                    assert(prog[ct] is JumpNotZero);
                                    assert(false);
                                } else if ct > o {
                                    assert(ct < o || a < ct);
                                    assert(false);
                                }
                            },
                            _ => {},
                        }
                    }
                }
                lemma_scan_segment_back(prog, j, o - 1);
            },
            _ => {
                assert(seg_ok_back(prog, j, a - 1)) by {
                    assert forall|t: int| j < t <= a - 1 implies match #[trigger] prog[t] {
                        Instruction::JumpZero(f2) => t + f2 - 1 <= a - 1,
                        Instruction::JumpNotZero(b2) => t - b2 - 1 > j,
                        _ => true,
                    } by {
                        assert(wf_at(prog, t));
                        match prog[t] {
                            Instruction::JumpZero(f2) => {
                                let ct = t + f2 - 1;
                                if ct == a {
                                    assert(prog[a] is JumpNotZero);
                                    assert(false);
                                }
                            },
                            _ => {},
                        }
                    }
                }
                lemma_scan_segment_back(prog, j, a - 1);
            },
        }
    }
}

/// The precomputed forward offsets are exactly what the balanced bracket
/// scan computes: from the instruction after a `JumpZero`, the first closer
/// not balanced by an intervening opener is the partner the offset points
/// at. The virtual machine's jump therefore lands where the reference
/// interpreter's scan lands.
pub proof fn lemma_compile_offsets_match_scan(code: Seq<u8>, prog: Seq<Instruction>)
    requires
        code.len() <= usize::MAX,
        spec_compile(code) == Ok::<Seq<Instruction>, CompileError>(prog),
    ensures
        forall|m: int, j: int|
            #[trigger] is_pair(prog, m, j) ==> find_close_ins(prog, m + 1, 0) == Some(j),
        forall|m: int, j: int|
            #[trigger] is_pair(prog, m, j) ==> find_open_ins(prog, j - 1, 0) == Some(m),
{
    lemma_compile_well_formed(code, prog);
    lemma_compile_jumps_nested(code, prog);
    let fl = filter_idents(code);
    lemma_filter_len(code);
    lemma_fold_len(fl, 0);
    lemma_fold_no_resolved(fl, 0);
    lemma_link_props(fold_at(fl, 0), fold_at(fl, 0).len() as int);
    assert(prog.len() <= usize::MAX);
    assert forall|m: int, j: int| #[trigger] is_pair(prog, m, j) implies find_close_ins(
        prog,
        m + 1,
        0,
    ) == Some(j) by {
        assert(wf_at(prog, m));
        assert(prog[j] is JumpNotZero);
        assert(seg_ok(prog, m + 1, j)) by {
            assert forall|t: int| m + 1 <= t < j implies match #[trigger] prog[t] {
                Instruction::JumpZero(f2) => t + f2 - 1 < j,
                Instruction::JumpNotZero(b2) => t - b2 - 1 >= m + 1,
                _ => true,
            } by {
                assert(wf_at(prog, t));
                match prog[t] {
                    Instruction::JumpZero(f2) => {
                        assert(is_pair(prog, t, t + f2 - 1));
                        assert(j < t || t + f2 - 1 < j);
                    },
                    Instruction::JumpNotZero(b2) => {
                        let ot = t - b2 - 1;
                        assert(b2 + 2 <= usize::MAX);
                        assert(prog[ot] == Instruction::JumpZero((b2 + 2) as usize));
                        assert(is_pair(prog, ot, t));
                        if ot < m {
                            assert(t < m || j < t);
                            assert(false);
                        } else if ot == m {
                            assert(t == j);
                            assert(false);
                        }
                    },
                    _ => {},
                }
            }
        }
        lemma_scan_segment(prog, m + 1, j);
    }
    assert forall|m: int, j: int| #[trigger] is_pair(prog, m, j) implies find_open_ins(
        prog,
        j - 1,
        0,
    ) == Some(m) by {
        assert(wf_at(prog, m));
        assert(prog[m] is JumpZero);
        assert(m <= j - 1);
        assert(seg_ok_back(prog, m, j - 1)) by {
            assert forall|t: int| m < t <= j - 1 implies match #[trigger] prog[t] {
                Instruction::JumpZero(f2) => t + f2 - 1 <= j - 1,
                Instruction::JumpNotZero(b2) => t - b2 - 1 > m,
                _ => true,
            } by {
                assert(wf_at(prog, t));
                match prog[t] {
                    Instruction::JumpZero(f2) => {
                        assert(is_pair(prog, t, t + f2 - 1));
                        assert(j < t || t + f2 - 1 < j);
                    },
                    Instruction::JumpNotZero(b2) => {
                        let ot = t - b2 - 1;
                        assert(b2 + 2 <= usize::MAX);
                        assert(prog[ot] == Instruction::JumpZero((b2 + 2) as usize));
                        assert(is_pair(prog, ot, t));
                        if ot < m {
                            assert(t < m || j < t);
                            assert(false);
                        } else if ot == m {
                            assert(t == j);
                            assert(false);
                        }
                    },
                    _ => {},
                }
            }
        }
        lemma_scan_segment_back(prog, m, j - 1);
    }
}

/// The filter never lengthens the source.
pub proof fn lemma_filter_len(code: Seq<u8>)
    ensures
        filter_idents(code).len() <= code.len(),
    decreases code.len(),
{
    if code.len() > 0 {
        lemma_filter_len(code.drop_last());
    }
}

/// Folding never lengthens the opcode stream.
pub proof fn lemma_fold_len(s: Seq<u8>, i: int)
    requires
        0 <= i,
    ensures
        fold_at(s, i).len() <= s.len() - i || fold_at(s, i).len() == 0,
    decreases s.len() - i,
{
    if i < s.len() {
        if s[i] == IDENT_JUMP_ZERO || s[i] == IDENT_JUMP_NOT_ZERO || s[i] == IDENT_READ_BYTE {
            lemma_fold_len(s, i + 1);
        } else {
            lemma_run_len_bounds(s, i);
            lemma_fold_len(s, i + run_len(s, i));
        }
    }
}

/// Folding correctness: a run of `n >= 1` copies of one foldable opcode
/// compiles to exactly one folded instruction carrying the count `n`. Writes
/// fold the same way; reads and brackets never fold.
pub proof fn lemma_compile_folds_run(b: u8, n: usize)
    requires
        spec_is_ident(b),
        b != IDENT_JUMP_ZERO,
        b != IDENT_JUMP_NOT_ZERO,
        b != IDENT_READ_BYTE,
        n >= 1,
    ensures
        spec_compile(Seq::new(n as nat, |t: int| b)) == Ok::<Seq<Instruction>, CompileError>(
            seq![fold_one(b, n)],
        ),
{
    let s = Seq::new(n as nat, |t: int| b);
    lemma_filter_of_idents(s);
    lemma_run_len_char(s, 0, n as int);
    let p = fold_at(s, 0);
    assert(fold_at(s, n as int) =~= Seq::<Instruction>::empty());
    assert(p =~= seq![fold_one(b, n)]);
    let st0 = link_state(p, 0);
    let st1 = link_state(p, 1);
    assert(st1 == st0);
    assert(st1.out =~= p);
}

/// Compiling is idempotent in the lexical filter: filtering the source once
/// more before compiling changes nothing.
pub proof fn lemma_compile_idempotent(code: Seq<u8>)
    ensures
        spec_compile(filter_idents(filter_idents(code))) == spec_compile(filter_idents(code)),
{
    lemma_filter_idempotent(code);
}

/// A compiler that turns a source program into a list of instructions.
pub struct Compiler {
    pub code: Vec<u8>,
}

impl Compiler {
    /// Create a new Compiler for the given source bytes.
    pub fn new(code: Vec<u8>) -> (c: Compiler)
        ensures
            c.code@ == code@,
    {
        Compiler { code }
    }

    /// Analyze the program and return the list of instructions to execute,
    /// or the first bracket error.
    pub fn compile(&mut self) -> (r: Result<Vec<Instruction>, CompileError>)
        ensures
            final(self).code@ == old(self).code@,
            match r {
                Ok(p) => spec_compile(old(self).code@) == Ok::<Seq<Instruction>, CompileError>(p@),
                Err(e) => spec_compile(old(self).code@) == Err::<Seq<Instruction>, CompileError>(
                    e,
                ),
            },
    {
        let filtered = remove_non_idents(self.code.as_slice());
        proof {
            lemma_filter_all_idents(self.code@);
        }
        // Phase 1: run-length folding into placeholders and folded opcodes.
        let mut p: Vec<Instruction> = Vec::new();
        let mut i: usize = 0;
        while i < filtered.len()
            invariant
                0 <= i <= filtered@.len(),
                forall|t: int| 0 <= t < filtered@.len() ==> spec_is_ident(#[trigger] filtered@[t]),
                fold_at(filtered@, 0) == p@ + fold_at(filtered@, i as int),
            decreases filtered@.len() - i,
        {
            let b: u8 = filtered[i];
            if b == IDENT_JUMP_ZERO {
                proof {
                    assert(fold_at(filtered@, i as int) == seq![Instruction::JumpZeroPlaceholder]
                        + fold_at(filtered@, i + 1));
                    assert(p@ + (seq![Instruction::JumpZeroPlaceholder] + fold_at(
                        filtered@,
                        i + 1,
                    )) =~= p@.push(Instruction::JumpZeroPlaceholder) + fold_at(filtered@, i + 1));
                }
                p.push(Instruction::JumpZeroPlaceholder);
                i = i + 1;
            } else if b == IDENT_JUMP_NOT_ZERO {
                proof {
                    assert(fold_at(filtered@, i as int) == seq![
                        Instruction::JumpNotZeroPlaceholder,
                    ] + fold_at(filtered@, i + 1));
                    assert(p@ + (seq![Instruction::JumpNotZeroPlaceholder] + fold_at(
                        filtered@,
                        i + 1,
                    )) =~= p@.push(Instruction::JumpNotZeroPlaceholder) + fold_at(
                        filtered@,
                        i + 1,
                    ));
                }
                p.push(Instruction::JumpNotZeroPlaceholder);
                i = i + 1;
            } else if b == IDENT_READ_BYTE {
                proof {
                    assert(fold_at(filtered@, i as int) == seq![Instruction::ReadByte] + fold_at(
                        filtered@,
                        i + 1,
                    ));
                    assert(p@ + (seq![Instruction::ReadByte] + fold_at(filtered@, i + 1))
                        =~= p@.push(Instruction::ReadByte) + fold_at(filtered@, i + 1));
                }
                p.push(Instruction::ReadByte);
                i = i + 1;
            } else {
                let mut j: usize = i + 1;
                while j < filtered.len() && filtered[j] == b
                    invariant
                        i < j <= filtered@.len(),
                        filtered@[i as int] == b,
                        forall|t: int| i <= t < j ==> filtered@[t] == b,
                    decreases filtered@.len() - j,
                {
                    j = j + 1;
                }
                let n: usize = j - i;
                let instr: Instruction = if b == IDENT_INC_DP {
                    Instruction::IncDP(n)
                } else if b == IDENT_DEC_DP {
                    Instruction::DecDP(n)
                } else if b == IDENT_INC_DATA {
                    Instruction::IncByteAtDP(n)
                } else if b == IDENT_DEC_DATA {
                    Instruction::DecByteAtDP(n)
                } else if b == IDENT_WRITE_BYTE {
                    Instruction::WriteByte(n)
                } else {
                    Instruction::ReadByte
                };
                proof {
                    lemma_run_len_char(filtered@, i as int, j as int);
                    assert(instr == fold_one(b, n));
                    assert(fold_at(filtered@, i as int) == seq![fold_one(b, n)] + fold_at(
                        filtered@,
                        j as int,
                    ));
                    assert(p@ + (seq![fold_one(b, n)] + fold_at(filtered@, j as int)) =~= p@.push(
                        instr,
                    ) + fold_at(filtered@, j as int));
                }
                p.push(instr);
                i = j;
            }
        }
        proof {
            assert(fold_at(filtered@, filtered@.len() as int) =~= Seq::<Instruction>::empty());
            assert(p@ + Seq::<Instruction>::empty() =~= p@);
            assert(p@ == fold_at(filtered@, 0));
        }
        // Phase 2: link the bracket pairs, innermost first.
        let ghost p0 = p@;
        proof {
            lemma_fold_no_resolved(filtered@, 0);
        }
        let mut stack: Vec<usize> = Vec::new();
        let mut extra_close: bool = false;
        let mut k: usize = 0;
        while k < p.len()
            invariant
                0 <= k <= p@.len(),
                p@.len() == p0.len(),
                no_resolved(p0),
                link_state(p0, k as int).out == p@,
                link_state(p0, k as int).extra_close == extra_close,
                link_state(p0, k as int).stack.len() == stack@.len(),
                forall|t: int|
                    0 <= t < stack@.len() ==> link_state(p0, k as int).stack[t] == stack@[t] as int,
            decreases p@.len() - k,
        {
            proof {
                lemma_link_props(p0, k as int);
            }
            let ghost st = link_state(p0, k as int);
            let ghost st1 = link_state(p0, k as int + 1);
            proof {
                assert(st.out[k as int] == p0[k as int]);
            }
            let instr: Instruction = p[k];
            match instr {
                Instruction::JumpZeroPlaceholder => {
                    stack.push(k);
                    proof {
                        assert(st1.stack == st.stack.push(k as int));
                        assert forall|t: int| 0 <= t < stack@.len() implies st1.stack[t]
                            == stack@[t] as int by {
                            if t < stack@.len() - 1 {
                                assert(st1.stack[t] == st.stack[t]);
                            }
                        }
                    }
                },
                Instruction::JumpNotZeroPlaceholder => {
                    let top: Option<usize> = stack.pop();
                    match top {
                        Some(i0) => {
                            proof {
                                assert(st.stack.last() == i0 as int);
                                assert(0 <= st.stack.last() < k as int);
                                assert(st1.stack == st.stack.drop_last());
                            }
                            p.set(i0, Instruction::JumpZero(k - i0 + 1));
                            p.set(k, Instruction::JumpNotZero(k - i0 - 1));
                            proof {
                                assert(st1.out =~= st.out.update(
                                    i0 as int,
                                    Instruction::JumpZero((k - i0 + 1) as usize),
                                ).update(k as int, Instruction::JumpNotZero((k - i0 - 1) as usize)));
                                assert forall|t: int| 0 <= t < stack@.len() implies st1.stack[t]
                                    == stack@[t] as int by {
                                    assert(st1.stack[t] == st.stack[t]);
                                }
                            }
                        },
                        None => {
                            extra_close = true;
                        },
                    }
                },
                _ => {
                    proof {
                        assert(st1 == st);
                    }
                },
            }
            k = k + 1;
        }
        if stack.len() > 0 {
            Err(CompileError::UnmatchedLoopBegin)
        } else if extra_close {
            Err(CompileError::UnmatchedLoopEnd)
        } else {
            Ok(p)
        }
    }
}

/// Whether the bytecode satisfies `well_formed`, checked at run time.
pub fn check_well_formed(prog: &Vec<Instruction>) -> (b: bool)
    ensures
        b == well_formed(prog@),
{
    let mut i: usize = 0;
    let mut ok: bool = true;
    while i < prog.len()
        invariant
            0 <= i <= prog@.len(),
            ok == forall|t: int| 0 <= t < i ==> wf_at(prog@, t),
        decreases prog@.len() - i,
    {
        let here: bool = match prog[i] {
            Instruction::JumpZero(f) => {
                if 2 <= f && f <= prog.len() - i {
                    match prog[i + f - 1] {
                        Instruction::JumpNotZero(b2) => b2 == f - 2,
                        _ => false,
                    }
                } else {
                    false
                }
            },
            Instruction::JumpNotZero(b2) => {
                if b2 < i {
                    match prog[i - b2 - 1] {
                        Instruction::JumpZero(f) => f >= 2 && f - 2 == b2,
                        _ => false,
                    }
                } else {
                    false
                }
            },
            Instruction::JumpZeroPlaceholder => false,
            Instruction::JumpNotZeroPlaceholder => false,
            _ => true,
        };
        proof {
            assert(here == wf_at(prog@, i as int));
        }
        ok = ok && here;
        i = i + 1;
    }
    ok
}

} // verus!
