use vstd::prelude::*;

pub mod compiler;
pub mod equivalence;
pub mod interpreter;
pub mod jit;
pub mod syntax;
pub mod virtual_machine;

use crate::syntax::spec_is_ident;
use crate::syntax::is_ident;

verus! {

/// Number of cells on the tape available to a program.
pub const DATA_SIZE: usize = 30000;

/// Describes when the output sink is flushed.
#[derive(Debug, Copy, Clone, PartialEq, Eq, Structural)]
pub enum FlushBehavior {
    /// The sink is never flushed by the executor.
    Disabled,
    /// The sink is flushed after every byte written.
    OnWrite,
    /// The sink is flushed once, after the last instruction has executed.
    OnEnd,
}

/// One observable interaction with the output sink, in program order.
#[derive(Debug, Copy, Clone, PartialEq, Eq, Structural)]
pub enum SinkEvent {
    /// One byte was written to the sink.
    Byte(u8),
    /// The sink was flushed.
    Flush,
}

/// A fault that aborts an execution.
#[derive(Debug, Copy, Clone, PartialEq, Eq, Structural)]
pub enum ExecFault {
    /// The data pointer left the tape: it would become negative, or reach
    /// `DATA_SIZE`.
    TapeFault,
    /// A read instruction ran with no input byte left.
    EndOfInput,
    /// A loop opener with no matching closer was taken.
    UnmatchedLoopBegin,
    /// A loop closer with no matching opener was taken.
    UnmatchedLoopEnd,
}

/// The source with every comment byte removed: only the eight opcode bytes
/// remain, in order.
pub open spec fn filter_idents(s: Seq<u8>) -> Seq<u8>
    decreases s.len(),
{
    if s.len() == 0 {
        Seq::empty()
    } else {
        filter_idents(s.drop_last()) + if spec_is_ident(s.last()) {
            seq![s.last()]
        } else {
            Seq::empty()
        }
    }
}

/// The bytes carried by a sink event trace, in order.
pub open spec fn event_bytes(es: Seq<SinkEvent>) -> Seq<u8>
    decreases es.len(),
{
    if es.len() == 0 {
        Seq::empty()
    } else {
        event_bytes(es.drop_last()) + match es.last() {
            SinkEvent::Byte(b) => seq![b],
            SinkEvent::Flush => Seq::empty(),
        }
    }
}

/// Shape of a trace produced under `FlushBehavior::OnWrite`: every byte is
/// followed at once by a flush, and flushes occur nowhere else.
pub open spec fn onwrite_shaped(es: Seq<SinkEvent>) -> bool {
    &&& es.len() % 2 == 0
    &&& forall|k: int| 0 <= k < es.len() && k % 2 == 0 ==> (#[trigger] es[k]) is Byte
    &&& forall|k: int| 0 <= k < es.len() && k % 2 == 1 ==> (#[trigger] es[k]) is Flush
}

/// Shape of a trace that contains no flush at all.
pub open spec fn flush_free(es: Seq<SinkEvent>) -> bool {
    forall|k: int| 0 <= k < es.len() ==> !((#[trigger] es[k]) is Flush)
}

/// The cell value after adding `n` to `v`, wrapping modulo 256.
pub open spec fn wrap_add(v: u8, n: usize) -> u8 {
    let m = n % 256;
    if v + m > 255 {
        (v + m - 256) as u8
    } else {
        (v + m) as u8
    }
}

/// The cell value after subtracting `n` from `v`, wrapping modulo 256.
pub open spec fn wrap_sub(v: u8, n: usize) -> u8 {
    let m = n % 256;
    if v < m {
        (v - m + 256) as u8
    } else {
        (v - m) as u8
    }
}

/// `wrap_add` is addition modulo 256.
pub proof fn lemma_wrap_add_mod(v: u8, n: usize)
    ensures
        wrap_add(v, n) == ((v + n) % 256) as u8,
{
    vstd::arithmetic::div_mod::lemma_add_mod_noop_right(v as int, n as int, 256);
    let m = (n as int) % 256;
    if v + m > 255 {
        vstd::arithmetic::div_mod::lemma_mod_sub_multiples_vanish(v + m, 256);
        vstd::arithmetic::div_mod::lemma_small_mod((v + m - 256) as nat, 256);
    } else {
        vstd::arithmetic::div_mod::lemma_small_mod((v + m) as nat, 256);
    }
}

/// `wrap_sub` is subtraction modulo 256.
pub proof fn lemma_wrap_sub_mod(v: u8, n: usize)
    ensures
        wrap_sub(v, n) == ((v - n) % 256) as u8,
{
    vstd::arithmetic::div_mod::lemma_sub_mod_noop_right(v as int, n as int, 256);
    let m = (n as int) % 256;
    if v < m {
        vstd::arithmetic::div_mod::lemma_mod_add_multiples_vanish(v - m, 256);
        vstd::arithmetic::div_mod::lemma_small_mod((v - m + 256) as nat, 256);
    } else {
        vstd::arithmetic::div_mod::lemma_small_mod((v - m) as nat, 256);
    }
}

/// Adding one more to a wrapped sum continues the wrap.
pub proof fn lemma_wrap_add_chain(v: u8, j: usize)
    requires
        j < usize::MAX,
    ensures
        wrap_add(wrap_add(v, j), 1) == wrap_add(v, (j + 1) as usize),
{
    lemma_wrap_add_mod(v, j);
    lemma_wrap_add_mod(wrap_add(v, j), 1);
    lemma_wrap_add_mod(v, (j + 1) as usize);
    vstd::arithmetic::div_mod::lemma_add_mod_noop(v + j, 1, 256);
    vstd::arithmetic::div_mod::lemma_small_mod(1, 256);
}

/// Taking one more from a wrapped difference continues the wrap.
pub proof fn lemma_wrap_sub_chain(v: u8, j: usize)
    requires
        j < usize::MAX,
    ensures
        wrap_sub(wrap_sub(v, j), 1) == wrap_sub(v, (j + 1) as usize),
{
    lemma_wrap_sub_mod(v, j);
    lemma_wrap_sub_mod(wrap_sub(v, j), 1);
    lemma_wrap_sub_mod(v, (j + 1) as usize);
    vstd::arithmetic::div_mod::lemma_sub_mod_noop(v - j, 1, 256);
    vstd::arithmetic::div_mod::lemma_small_mod(1, 256);
}

/// A fresh, zero-initialised tape of `DATA_SIZE` cells.
pub(crate) fn zeroed_tape() -> (v: Vec<u8>)
    ensures
        v@.len() == DATA_SIZE,
        forall|t: int| 0 <= t < v@.len() ==> v@[t] == 0u8,
{
    let mut v: Vec<u8> = Vec::new();
    let mut i: usize = 0;
    while i < DATA_SIZE
        invariant
            v@.len() == i <= DATA_SIZE,
            forall|t: int| 0 <= t < v@.len() ==> v@[t] == 0u8,
        decreases DATA_SIZE - i,
    {
        v.push(0u8);
        i = i + 1;
    }
    v
}

/// Returns the source as a vector containing only identifiers.
///
/// This way, comment bytes (including every byte of a multi-byte encoded
/// character) are filtered out.
pub fn remove_non_idents(code: &[u8]) -> (r: Vec<u8>)
    ensures
        r@ == filter_idents(code@),
{
    let mut r: Vec<u8> = Vec::new();
    let mut i: usize = 0;
    while i < code.len()
        invariant
            0 <= i <= code@.len(),
            r@ == filter_idents(code@.take(i as int)),
        decreases code@.len() - i,
    {
        if is_ident(code[i]) {
            r.push(code[i]);
        }
        proof {
            assert(code@.take(i + 1).drop_last() =~= code@.take(i as int));
            assert(code@.take(i + 1).last() == code@[i as int]);
        }
        i = i + 1;
    }
    proof {
        assert(code@.take(code@.len() as int) =~= code@);
    }
    r
}

/// Every byte that the filter keeps is an opcode byte.
pub proof fn lemma_filter_all_idents(s: Seq<u8>)
    ensures
        forall|k: int| 0 <= k < filter_idents(s).len() ==> spec_is_ident(#[trigger] filter_idents(s)[k]),
    decreases s.len(),
{
    if s.len() > 0 {
        lemma_filter_all_idents(s.drop_last());
        assert forall|k: int| 0 <= k < filter_idents(s).len() implies spec_is_ident(
            filter_idents(s)[k],
        ) by {
            if k < filter_idents(s.drop_last()).len() {
                assert(filter_idents(s)[k] == filter_idents(s.drop_last())[k]);
            } else {
                assert(filter_idents(s)[k] == s.last());
            }
        }
    }
}

/// Filtering a sequence that already contains only opcode bytes keeps it
/// unchanged.
pub proof fn lemma_filter_of_idents(s: Seq<u8>)
    requires
        forall|k: int| 0 <= k < s.len() ==> spec_is_ident(#[trigger] s[k]),
    ensures
        filter_idents(s) == s,
    decreases s.len(),
{
    if s.len() > 0 {
        lemma_filter_of_idents(s.drop_last());
        assert(filter_idents(s) =~= s);
    } else {
        assert(filter_idents(s) =~= s);
    }
}

/// The lexical filter is idempotent: filtering twice equals filtering once.
pub proof fn lemma_filter_idempotent(s: Seq<u8>)
    ensures
        filter_idents(filter_idents(s)) == filter_idents(s),
{
    lemma_filter_all_idents(s);
    lemma_filter_of_idents(filter_idents(s));
}

} // verus!
