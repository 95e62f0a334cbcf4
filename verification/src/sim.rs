//! A specification-level machine model: the effect of each opcode on a
//! virtual accumulator, stack pointer and stack.  The stack is a byte
//! sequence whose front is the byte at the current top of stack (the lowest
//! address), so a push prepends its little-endian bytes.

use vstd::prelude::*;
use vstd::arithmetic::div_mod::lemma_mod_multiples_vanish;
use crate::codec::{le2, le4, word4};
use crate::opcode::OpCode;

verus! {

/// The machine state seen by the simulator.
pub struct SimState {
    pub eax: int,
    pub esp: int,
    pub stack: Seq<u8>,
}

/// Registers hold 32-bit values.
pub open spec fn sim_wf(s: SimState) -> bool {
    &&& 0 <= s.eax < 0x1_0000_0000
    &&& 0 <= s.esp < 0x1_0000_0000
}

/// A byte pushed as an 8-bit immediate is sign-extended to 32 bits.
pub open spec fn sign_ext8(b: u8) -> int {
    if b < 0x80 {
        b as int
    } else {
        b + 0xffffff00
    }
}

/// 32-bit wrapping addition.
pub open spec fn lane_add32(eax: int, v: int) -> int {
    (eax + v) % 0x1_0000_0000
}

/// Addition on the low 16-bit lane; the high half is untouched and any carry
/// out of bit 15 is lost.
pub open spec fn lane_add16(eax: int, v: int) -> int {
    0x10000 * (eax / 0x10000) + (eax % 0x10000 + v) % 0x10000
}

/// Addition on the low 8-bit lane.
pub open spec fn lane_add8(eax: int, v: int) -> int {
    0x100 * (eax / 0x100) + (eax % 0x100 + v) % 0x100
}

/// 32-bit wrapping subtraction.
pub open spec fn lane_sub32(eax: int, v: int) -> int {
    (eax - v) % 0x1_0000_0000
}

/// Subtraction on the low 16-bit lane.
pub open spec fn lane_sub16(eax: int, v: int) -> int {
    0x10000 * (eax / 0x10000) + (eax % 0x10000 - v) % 0x10000
}

/// Subtraction on the low 8-bit lane.
pub open spec fn lane_sub8(eax: int, v: int) -> int {
    0x100 * (eax / 0x100) + (eax % 0x100 - v) % 0x100
}

/// The effect of one opcode.  `None` means the machine is stuck (a pop with
/// fewer than the needed bytes on the stack).
pub open spec fn exec_op(s: SimState, op: OpCode) -> Option<SimState> {
    match op {
        OpCode::Push8(v) => Some(SimState { stack: le4(sign_ext8(v)) + s.stack, ..s }),
        OpCode::Push16(v) => Some(SimState { stack: le2(v as int) + s.stack, ..s }),
        OpCode::Push32(v) => Some(SimState { stack: le4(v as int) + s.stack, ..s }),
        OpCode::PushEax(_) => Some(SimState { stack: le4(s.eax) + s.stack, ..s }),
        OpCode::PushAx(_) => Some(SimState { stack: le2(s.eax % 0x10000) + s.stack, ..s }),
        OpCode::PushEsp => Some(SimState { stack: le4(s.esp) + s.stack, ..s }),
        OpCode::PopEax => if s.stack.len() >= 4 {
            Some(SimState { eax: word4(s.stack), stack: s.stack.skip(4), ..s })
        } else {
            None
        },
        OpCode::PopEsp => if s.stack.len() >= 4 {
            Some(SimState { esp: word4(s.stack), stack: s.stack.skip(4), ..s })
        } else {
            None
        },
        OpCode::DecEax => Some(SimState { eax: lane_sub32(s.eax, 1), ..s }),
        OpCode::AddEax(v) => Some(SimState { eax: lane_add32(s.eax, v as int), ..s }),
        OpCode::AddAx(v) => Some(SimState { eax: lane_add16(s.eax, v as int), ..s }),
        OpCode::AddAl(v) => Some(SimState { eax: lane_add8(s.eax, v as int), ..s }),
        OpCode::SubEax(v) => Some(SimState { eax: lane_sub32(s.eax, v as int), ..s }),
        OpCode::SubAx(v) => Some(SimState { eax: lane_sub16(s.eax, v as int), ..s }),
        OpCode::SubAl(v) => Some(SimState { eax: lane_sub8(s.eax, v as int), ..s }),
    }
}

/// The effect of a whole opcode sequence, run front to back.
pub open spec fn exec_ops(s: SimState, ops: Seq<OpCode>) -> Option<SimState>
    decreases ops.len(),
{
    if ops.len() == 0 {
        Some(s)
    } else {
        match exec_op(s, ops.first()) {
            Some(m) => exec_ops(m, ops.drop_first()),
            None => None,
        }
    }
}

/// Running a concatenation runs the two halves in order.
pub proof fn lemma_exec_ops_app(s: SimState, a: Seq<OpCode>, b: Seq<OpCode>)
    ensures
        exec_ops(s, a + b) == (match exec_ops(s, a) {
            Some(m) => exec_ops(m, b),
            None => None::<SimState>,
        }),
    decreases a.len(),
{
    if a.len() == 0 {
        assert(a + b =~= b);
    } else {
        assert((a + b).first() == a.first());
        assert((a + b).drop_first() =~= a.drop_first() + b);
        match exec_op(s, a.first()) {
            Some(m) => {
                lemma_exec_ops_app(m, a.drop_first(), b);
            },
            None => {},
        }
    }
}

/// Appending one opcode to a run.
#[verifier::rlimit(30)]
pub proof fn lemma_exec_ops_push(s: SimState, ops: Seq<OpCode>, op: OpCode)
    ensures
        exec_ops(s, ops.push(op)) == (match exec_ops(s, ops) {
            Some(m) => exec_op(m, op),
            None => None::<SimState>,
        }),
{
    let single = seq![op];
    assert(ops.push(op) =~= ops + single);
    lemma_exec_ops_app(s, ops, single);
    if exec_ops(s, ops) is Some {
        let m = exec_ops(s, ops).unwrap();
        assert(single.first() == op);
        match exec_op(m, op) {
            Some(t) => {
                assert(single.drop_first().len() == 0);
                assert(exec_ops(t, single.drop_first()) == Some(t));
                assert(exec_ops(m, single) == Some(t));
            },
            None => {
                assert(exec_ops(m, single) is None);
            },
        }
    }
}

/// A 16-bit lane operation keeps the register inside 32 bits.
proof fn lemma_lane16_wf(eax: int, v: int)
    requires
        0 <= eax < 0x1_0000_0000,
    ensures
        0 <= 0x10000 * (eax / 0x10000) + (eax % 0x10000 + v) % 0x10000 < 0x1_0000_0000,
{
    assert(0 <= eax / 0x10000 < 0x10000) by (nonlinear_arith)
        requires 0 <= eax < 0x1_0000_0000,
    ;
    assert(0x10000 * (eax / 0x10000) <= 0x10000 * 0xffff) by (nonlinear_arith)
        requires eax / 0x10000 <= 0xffff,
    ;
    assert(0x10000 * (eax / 0x10000) >= 0) by (nonlinear_arith)
        requires eax / 0x10000 >= 0,
    ;
}

/// An 8-bit lane operation keeps the register inside 32 bits.
proof fn lemma_lane8_wf(eax: int, v: int)
    requires
        0 <= eax < 0x1_0000_0000,
    ensures
        0 <= 0x100 * (eax / 0x100) + (eax % 0x100 + v) % 0x100 < 0x1_0000_0000,
{
    assert(0 <= eax / 0x100 < 0x1000000) by (nonlinear_arith)
        requires 0 <= eax < 0x1_0000_0000,
    ;
    assert(0x100 * (eax / 0x100) <= 0x100 * 0xffffff) by (nonlinear_arith)
        requires eax / 0x100 <= 0xffffff,
    ;
    assert(0x100 * (eax / 0x100) >= 0) by (nonlinear_arith)
        requires eax / 0x100 >= 0,
    ;
}

/// Computes `lane_add16` at runtime.
pub fn lane_add16_exec(cur: u32, v: u16) -> (r: u32)
    ensures
        r as int == lane_add16(cur as int, v as int),
{
    let hi = cur / 0x10000 * 0x10000;
    let lo = cur % 0x10000;
    let nlo = ((lo as u64 + v as u64) % 0x10000) as u32;
    proof {
        lemma_lane16_wf(cur as int, v as int);
    }
    hi + nlo
}

/// Computes `lane_sub16` at runtime.
pub fn lane_sub16_exec(cur: u32, v: u16) -> (r: u32)
    ensures
        r as int == lane_sub16(cur as int, v as int),
{
    let hi = cur / 0x10000 * 0x10000;
    let lo = cur % 0x10000;
    let nlo = ((lo as u64 + 0x10000 - v as u64) % 0x10000) as u32;
    proof {
        lemma_mod_multiples_vanish(1, lo - v, 0x10000);
        assert(0x10000 * 1 + (lo - v) == lo as u64 + 0x10000 - v as u64);
        lemma_lane16_wf(cur as int, -(v as int));
    }
    hi + nlo
}

/// Computes `lane_add8` at runtime.
pub fn lane_add8_exec(cur: u32, v: u8) -> (r: u32)
    ensures
        r as int == lane_add8(cur as int, v as int),
{
    let hi = cur / 0x100 * 0x100;
    let lo = cur % 0x100;
    let nlo = ((lo as u64 + v as u64) % 0x100) as u32;
    proof {
        lemma_lane8_wf(cur as int, v as int);
    }
    hi + nlo
}

/// Computes `lane_sub8` at runtime.
pub fn lane_sub8_exec(cur: u32, v: u8) -> (r: u32)
    ensures
        r as int == lane_sub8(cur as int, v as int),
{
    let hi = cur / 0x100 * 0x100;
    let lo = cur % 0x100;
    let nlo = ((lo as u64 + 0x100 - v as u64) % 0x100) as u32;
    proof {
        lemma_mod_multiples_vanish(1, lo - v, 0x100);
        assert(0x100 * 1 + (lo - v) == lo as u64 + 0x100 - v as u64);
        lemma_lane8_wf(cur as int, -(v as int));
    }
    hi + nlo
}

/// Pure accumulator arithmetic: opcodes that touch only `eax`.
pub open spec fn is_arith(op: OpCode) -> bool {
    match op {
        OpCode::DecEax | OpCode::AddEax(_) | OpCode::AddAx(_) | OpCode::AddAl(_)
            | OpCode::SubEax(_) | OpCode::SubAx(_) | OpCode::SubAl(_) => true,
        _ => false,
    }
}

/// The accumulator value after one arithmetic opcode.
pub open spec fn arith_eax(eax: int, op: OpCode) -> int {
    match op {
        OpCode::DecEax => lane_sub32(eax, 1),
        OpCode::AddEax(v) => lane_add32(eax, v as int),
        OpCode::AddAx(v) => lane_add16(eax, v as int),
        OpCode::AddAl(v) => lane_add8(eax, v as int),
        OpCode::SubEax(v) => lane_sub32(eax, v as int),
        OpCode::SubAx(v) => lane_sub16(eax, v as int),
        OpCode::SubAl(v) => lane_sub8(eax, v as int),
        _ => eax,
    }
}

/// Every opcode of the sequence is arithmetic.
pub open spec fn all_arith(ops: Seq<OpCode>) -> bool {
    forall|i: int| 0 <= i < ops.len() ==> is_arith(#[trigger] ops[i])
}

/// The accumulator value after a whole arithmetic sequence.
pub open spec fn arith_fold(eax: int, ops: Seq<OpCode>) -> int
    decreases ops.len(),
{
    if ops.len() == 0 {
        eax
    } else {
        arith_fold(arith_eax(eax, ops.first()), ops.drop_first())
    }
}

/// An arithmetic sequence never gets stuck and changes only the accumulator.
pub proof fn lemma_arith_exec(s: SimState, ops: Seq<OpCode>)
    requires
        all_arith(ops),
    ensures
        exec_ops(s, ops) == Some(SimState { eax: arith_fold(s.eax, ops), esp: s.esp, stack: s.stack }),
    decreases ops.len(),
{
    if ops.len() == 0 {
        assert(s == SimState { eax: arith_fold(s.eax, ops), esp: s.esp, stack: s.stack });
    } else {
        let op = ops.first();
        assert(is_arith(op));
        let m = exec_op(s, op).unwrap();
        assert(m == SimState { eax: arith_eax(s.eax, op), esp: s.esp, stack: s.stack });
        lemma_arith_exec(m, ops.drop_first());
    }
}

/// Arithmetic-only carries over concatenation.
pub proof fn lemma_all_arith_app(a: Seq<OpCode>, b: Seq<OpCode>)
    requires
        all_arith(a),
        all_arith(b),
    ensures
        all_arith(a + b),
{
    assert forall|i: int| 0 <= i < (a + b).len() implies is_arith(#[trigger] (a + b)[i]) by {
        if i < a.len() {
            assert((a + b)[i] == a[i]);
        } else {
            assert((a + b)[i] == b[i - a.len()]);
        }
    }
}

/// A correct candidate: run from any well-formed state whose accumulator
/// holds `src`, the sequence never gets stuck and ends with the accumulator
/// at `dest`, the stack pointer and the stack untouched.
#[verifier::opaque]
pub open spec fn cand_good(ops: Seq<OpCode>, dest: u32, src: u32) -> bool {
    forall|s: SimState|
        sim_wf(s) && s.eax == src ==> #[trigger] exec_ops(s, ops) == Some(
            SimState { eax: dest as int, esp: s.esp, stack: s.stack },
        )
}

/// Uses a correct candidate on one concrete state.
pub proof fn lemma_cand_good_use(ops: Seq<OpCode>, dest: u32, src: u32, s: SimState)
    requires
        cand_good(ops, dest, src),
        sim_wf(s),
        s.eax == src,
    ensures
        exec_ops(s, ops) == Some(SimState { eax: dest as int, esp: s.esp, stack: s.stack }),
{
    reveal(cand_good);
}

/// A validated arithmetic sequence is a correct candidate.
pub proof fn lemma_arith_cand_good(ops: Seq<OpCode>, dest: u32, src: u32)
    requires
        all_arith(ops),
        arith_fold(src as int, ops) == dest,
    ensures
        cand_good(ops, dest, src),
{
    reveal(cand_good);
    assert forall|s: SimState| sim_wf(s) && s.eax == src implies #[trigger] exec_ops(s, ops)
        == Some(SimState { eax: dest as int, esp: s.esp, stack: s.stack }) by {
        lemma_arith_exec(s, ops);
    }
}

/// Reading back four pushed bytes returns the pushed word and restores the
/// stack.
pub proof fn lemma_word4_prefix(four: Seq<u8>, rest: Seq<u8>)
    requires
        four.len() == 4,
    ensures
        word4(four + rest) == word4(four),
        (four + rest).skip(4) =~= rest,
{
    let c = four + rest;
    assert(c[0] == four[0]);
    assert(c[1] == four[1]);
    assert(c[2] == four[2]);
    assert(c[3] == four[3]);
}

/// The baseline priming pair sets the accumulator to one and leaves the rest
/// of the state as it was.
pub proof fn lemma_one_eax_exec(s: SimState)
    ensures
        exec_ops(s, seq![OpCode::Push8(1), OpCode::PopEax]) == Some(
            SimState { eax: 1, esp: s.esp, stack: s.stack },
        ),
{
    let pre = seq![OpCode::Push8(1), OpCode::PopEax];
    assert(pre.first() == OpCode::Push8(1));
    assert(sign_ext8(1) == 1);
    let m1 = SimState { stack: le4(1) + s.stack, ..s };
    assert(exec_op(s, pre.first()) == Some(m1));
    assert(pre.drop_first() =~= seq![OpCode::PopEax]);
    crate::codec::lemma_word4_le4(1);
    lemma_word4_prefix(le4(1), s.stack);
    assert(m1.stack.len() >= 4);
    let m2 = SimState { eax: 1, esp: s.esp, stack: s.stack };
    assert(exec_op(m1, OpCode::PopEax) == Some(
        SimState { eax: word4(m1.stack), esp: m1.esp, stack: m1.stack.skip(4) },
    ));
    assert(word4(m1.stack) == 1);
    assert(m1.stack.skip(4) == s.stack);
    assert(seq![OpCode::PopEax].drop_first() =~= Seq::<OpCode>::empty());
    assert(exec_ops(m2, Seq::<OpCode>::empty()) == Some(m2));
    assert(exec_ops(m1, seq![OpCode::PopEax]) == Some(m2));
    assert(exec_ops(s, pre) == Some(m2));
}

/// A validated arithmetic sequence primed by the baseline (accumulator set
/// to one) is a correct candidate from any accumulator value.
pub proof fn lemma_oned_cand_good(ops: Seq<OpCode>, dest: u32, src: u32)
    requires
        all_arith(ops),
        arith_fold(1, ops) == dest,
    ensures
        cand_good(seq![OpCode::Push8(1), OpCode::PopEax] + ops, dest, src),
{
    reveal(cand_good);
    let pre = seq![OpCode::Push8(1), OpCode::PopEax];
    assert forall|s: SimState| sim_wf(s) && s.eax == src implies #[trigger] exec_ops(
        s,
        pre + ops,
    ) == Some(SimState { eax: dest as int, esp: s.esp, stack: s.stack }) by {
        lemma_exec_ops_app(s, pre, ops);
        lemma_one_eax_exec(s);
        let m2 = SimState { eax: 1, esp: s.esp, stack: s.stack };
        lemma_arith_exec(m2, ops);
        assert(exec_ops(m2, ops) == Some(
            SimState { eax: dest as int, esp: s.esp, stack: s.stack },
        ));
    }
}

/// Folding arithmetic over one appended opcode.
pub proof fn lemma_arith_fold_push(eax: int, ops: Seq<OpCode>, op: OpCode)
    ensures
        arith_fold(eax, ops.push(op)) == arith_eax(arith_fold(eax, ops), op),
{
    let single = seq![op];
    assert(ops.push(op) =~= ops + single);
    lemma_arith_fold_app(eax, ops, single);
    let m = arith_fold(eax, ops);
    assert(single.first() == op);
    assert(single.drop_first() =~= Seq::<OpCode>::empty());
    assert(arith_fold(arith_eax(m, op), Seq::<OpCode>::empty()) == arith_eax(m, op));
    assert(arith_fold(m, single) == arith_eax(m, op));
}

/// Folding arithmetic over a concatenation.
pub proof fn lemma_arith_fold_app(eax: int, a: Seq<OpCode>, b: Seq<OpCode>)
    ensures
        arith_fold(eax, a + b) == arith_fold(arith_fold(eax, a), b),
    decreases a.len(),
{
    if a.len() == 0 {
        assert(a + b =~= b);
    } else {
        assert((a + b).first() == a.first());
        assert((a + b).drop_first() =~= a.drop_first() + b);
        lemma_arith_fold_app(arith_eax(eax, a.first()), a.drop_first(), b);
    }
}

} // verus!
