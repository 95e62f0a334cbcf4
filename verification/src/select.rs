//! The encoding strategy selector: evaluates several arithmetic routes from
//! the current accumulator value to a target word, each built on the
//! constraint solver, and picks the shortest by emitted byte length, ties
//! resolved in evaluation order (add, subtract, baseline add, baseline
//! subtract, then pre-load candidates in generation order).
//!
//! Every candidate is validated before it competes: the instructions are run
//! through the lane-accurate accumulator semantics and kept only when they
//! really reach the target, so a chosen candidate is correct by
//! construction.

use vstd::prelude::*;
use crate::codec::{line_is_ok, line_ok, sig_width, sig_width_of, w32, wrap_add32, wrap_sub32};
use crate::instructions::{lemma_ops_len_bound, ops_len, InstructionSet};
use crate::opcode::{op_bytes, op_safe, OpCode};
use crate::sim::{
    all_arith, arith_eax, arith_fold, cand_good, lane_add16_exec, lane_add8_exec,
    lane_sub16_exec, lane_sub8_exec, lemma_arith_cand_good, lemma_arith_fold_app,
    lemma_arith_fold_push, lemma_oned_cand_good,
};
use crate::solver::{all_lines_ok, gen_values, spec_solve, LINE_CAP};
use crate::EncodeError;

verus! {

/// The most instructions a winning candidate may hold: ten solver lines plus
/// the two-instruction baseline priming.
pub const CANDIDATE_OP_CAP: usize = 12;

/// How many pre-load constants exist below the search ceiling; pre-load
/// candidates beyond this index are out of range and contribute nothing.
pub const PRELOAD_PLATEAU: usize = 489600;

/// One `add` opcode per line, at the line's significant width.  `None` when
/// a line fits no supported width (an upstream defect, reported as
/// `UnsupportedWidth`).
pub open spec fn add_ops(lines: Seq<u32>) -> Option<Seq<OpCode>>
    decreases lines.len(),
{
    if lines.len() == 0 {
        Some(Seq::empty())
    } else {
        match add_ops(lines.drop_last()) {
            None => None,
            Some(front) => {
                let v = lines.last();
                let w = sig_width(v as int);
                if w == 4 {
                    Some(front.push(OpCode::AddEax(v)))
                } else if w == 2 {
                    Some(front.push(OpCode::AddAx(v as u16)))
                } else if w == 1 {
                    Some(front.push(OpCode::AddAl(v as u8)))
                } else {
                    None
                }
            },
        }
    }
}

/// One `sub` opcode per line, at the line's significant width.
pub open spec fn sub_ops(lines: Seq<u32>) -> Option<Seq<OpCode>>
    decreases lines.len(),
{
    if lines.len() == 0 {
        Some(Seq::empty())
    } else {
        match sub_ops(lines.drop_last()) {
            None => None,
            Some(front) => {
                let v = lines.last();
                let w = sig_width(v as int);
                if w == 4 {
                    Some(front.push(OpCode::SubEax(v)))
                } else if w == 2 {
                    Some(front.push(OpCode::SubAx(v as u16)))
                } else if w == 1 {
                    Some(front.push(OpCode::SubAl(v as u8)))
                } else {
                    None
                }
            },
        }
    }
}

/// The add candidate: solve the wrapping difference `dest - src`, emit one
/// add per line, and keep the result only if, run under lane semantics from
/// `src`, it really reaches `dest`.
pub open spec fn spec_check_add(dest: u32, src: u32) -> Option<Seq<OpCode>> {
    if dest == src {
        Some(Seq::empty())
    } else {
        match spec_solve(w32(dest - src) as u32) {
            None => None,
            Some(lines) => match add_ops(lines) {
                None => None,
                Some(ops) => if arith_fold(src as int, ops) == dest {
                    Some(ops)
                } else {
                    None
                },
            },
        }
    }
}

/// The subtract candidate, from the wrapping difference `src - dest`.
pub open spec fn spec_check_sub(dest: u32, src: u32) -> Option<Seq<OpCode>> {
    if dest == src {
        Some(Seq::empty())
    } else {
        match spec_solve(w32(src - dest) as u32) {
            None => None,
            Some(lines) => match sub_ops(lines) {
                None => None,
                Some(ops) => if arith_fold(src as int, ops) == dest {
                    Some(ops)
                } else {
                    None
                },
            },
        }
    }
}

/// A candidate primed by the baseline sequence that sets the accumulator to
/// one.
pub open spec fn spec_oned(c: Option<Seq<OpCode>>) -> Option<Seq<OpCode>> {
    match c {
        Some(ops) => Some(seq![OpCode::Push8(1), OpCode::PopEax] + ops),
        None => None,
    }
}

/// The four base candidates, in their fixed evaluation order.
pub open spec fn base_candidates(dest: u32, src: u32) -> Seq<Option<Seq<OpCode>>> {
    seq![
        spec_check_add(dest, src),
        spec_check_sub(dest, src),
        spec_oned(spec_check_add(dest, 1)),
        spec_oned(spec_check_sub(dest, 1)),
    ]
}

/// The `k`-th pre-load constant of the exhaustive search.
pub open spec fn preload_const(k: int) -> int {
    1 + 0x1111 * k
}

/// The single subtract instruction that applies a pre-load constant, at its
/// significant width.
pub open spec fn pre_sub_op(i: u32) -> OpCode {
    let w = sig_width(i as int);
    if w == 4 {
        OpCode::SubEax(i)
    } else if w == 2 {
        OpCode::SubAx(i as u16)
    } else {
        OpCode::SubAl(i as u8)
    }
}

/// The single add instruction that applies a pre-load constant.
pub open spec fn pre_add_op(i: u32) -> OpCode {
    let w = sig_width(i as int);
    if w == 4 {
        OpCode::AddEax(i)
    } else if w == 2 {
        OpCode::AddAx(i as u16)
    } else {
        OpCode::AddAl(i as u8)
    }
}

/// The two pre-load candidates for index `k`: subtract the constant then add
/// to the target, and add the constant then subtract to the target.  The
/// accumulator value after the pre-load instruction is its true lane result.
/// Constants out of range or with unsafe bytes contribute no candidates.
pub open spec fn preload_pair(dest: u32, src: u32, k: int) -> Seq<Option<Seq<OpCode>>> {
    let iv = preload_const(k);
    if 0 < iv < 0x7f7f7f7f && line_ok(iv) {
        let i = iv as u32;
        let sub_first = pre_sub_op(i);
        let after_sub = arith_eax(src as int, sub_first);
        let c1 = match spec_check_add(dest, after_sub as u32) {
            Some(ops) => Some(seq![sub_first] + ops),
            None => None,
        };
        let add_first = pre_add_op(i);
        let after_add = arith_eax(src as int, add_first);
        let c2 = match spec_check_sub(dest, after_add as u32) {
            Some(ops) => Some(seq![add_first] + ops),
            None => None,
        };
        seq![c1, c2]
    } else {
        Seq::empty()
    }
}

/// All pre-load candidates examined under a given search budget, in
/// generation order.
pub open spec fn spec_preloads(dest: u32, src: u32, budget: nat) -> Seq<Option<Seq<OpCode>>>
    decreases budget,
{
    if budget == 0 {
        Seq::empty()
    } else {
        spec_preloads(dest, src, (budget - 1) as nat) + preload_pair(dest, src, budget - 1)
    }
}

/// Of a running best and one more candidate, the better; the earlier wins a
/// tie.
pub open spec fn better_of(
    best: Option<Seq<OpCode>>,
    c: Option<Seq<OpCode>>,
) -> Option<Seq<OpCode>> {
    match best {
        None => c,
        Some(r) => match c {
            None => Some(r),
            Some(cc) => if ops_len(r) <= ops_len(cc) {
                Some(r)
            } else {
                Some(cc)
            },
        },
    }
}

/// The first-found shortest among the present candidates.
pub open spec fn pick_best(cands: Seq<Option<Seq<OpCode>>>) -> Option<Seq<OpCode>>
    decreases cands.len(),
{
    if cands.len() == 0 {
        None
    } else {
        better_of(pick_best(cands.drop_last()), cands.last())
    }
}

/// What the selector returns: the first-found shortest candidate among the
/// four base candidates followed by the budgeted pre-load candidates.
#[verifier::opaque]
pub open spec fn spec_wrap(dest: u32, src: u32, budget: nat) -> Option<Seq<OpCode>> {
    pick_best(base_candidates(dest, src) + spec_preloads(dest, src, budget))
}

/// Appending a candidate to the pool keeps the earlier winner on ties.
pub proof fn lemma_pick_best_push(cands: Seq<Option<Seq<OpCode>>>, c: Option<Seq<OpCode>>)
    ensures
        pick_best(cands.push(c)) == better_of(pick_best(cands), c),
{
    assert(cands.push(c).drop_last() =~= cands);
    assert(cands.push(c).last() == c);
}

/// The winner is never longer than any present candidate.
pub proof fn lemma_pick_best_min(cands: Seq<Option<Seq<OpCode>>>, i: int)
    requires
        0 <= i < cands.len(),
        cands[i] is Some,
    ensures
        pick_best(cands) is Some,
        ops_len(pick_best(cands).unwrap()) <= ops_len(cands[i].unwrap()),
    decreases cands.len(),
{
    if i < cands.len() - 1 {
        lemma_pick_best_min(cands.drop_last(), i);
    }
}

/// Pre-load pairs beyond the search ceiling are empty, so any budget at or
/// above the plateau examines the same candidates.
pub proof fn lemma_preloads_plateau(dest: u32, src: u32, budget: nat)
    requires
        budget >= PRELOAD_PLATEAU,
    ensures
        spec_preloads(dest, src, budget) == spec_preloads(dest, src, PRELOAD_PLATEAU as nat),
    decreases budget,
{
    if budget > PRELOAD_PLATEAU {
        let k = budget - 1;
        assert(preload_const(k) >= 0x7f7f7f7f) by (nonlinear_arith)
            requires k >= 489600,
        ;
        assert(preload_pair(dest, src, k as int) =~= Seq::<Option<Seq<OpCode>>>::empty());
        lemma_preloads_plateau(dest, src, (budget - 1) as nat);
        assert(spec_preloads(dest, src, (budget - 1) as nat) + Seq::<Option<
            Seq<OpCode>,
        >>::empty() =~= spec_preloads(dest, src, (budget - 1) as nat));
    }
}

/// A safe four-byte line yields a safe 32-bit add or subtract.
proof fn lemma_safe_op_eax(v: u32)
    requires
        line_ok(v as int),
        sig_width(v as int) == 4,
    ensures
        op_safe(OpCode::AddEax(v)),
        op_safe(OpCode::SubEax(v)),
{
    let add = OpCode::AddEax(v);
    let sub = OpCode::SubEax(v);
    assert forall|j: int| 0 <= j < op_bytes(add).len() implies crate::codec::byte_is_safe(
        #[trigger] op_bytes(add)[j],
    ) by {
        if j >= 1 {
            assert(op_bytes(add)[j] == crate::codec::le4(v as int)[j - 1]);
            assert(1 <= crate::codec::byte_at(v as int, j - 1) <= 0x7f);
        }
    }
    assert forall|j: int| 0 <= j < op_bytes(sub).len() implies crate::codec::byte_is_safe(
        #[trigger] op_bytes(sub)[j],
    ) by {
        if j >= 1 {
            assert(op_bytes(sub)[j] == crate::codec::le4(v as int)[j - 1]);
            assert(1 <= crate::codec::byte_at(v as int, j - 1) <= 0x7f);
        }
    }
}

/// A safe two-byte line yields a safe 16-bit add or subtract.
proof fn lemma_safe_op_ax(v: u32)
    requires
        line_ok(v as int),
        sig_width(v as int) == 2,
    ensures
        op_safe(OpCode::AddAx(v as u16)),
        op_safe(OpCode::SubAx(v as u16)),
{
    let h = v as u16;
    assert(h as int == v as int);
    let add = OpCode::AddAx(h);
    let sub = OpCode::SubAx(h);
    assert(crate::codec::le2(h as int)[0] as int == crate::codec::byte_at(v as int, 0));
    assert(crate::codec::le2(h as int)[1] as int == crate::codec::byte_at(v as int, 1));
    assert(1 <= crate::codec::byte_at(v as int, 0) <= 0x7f);
    assert(1 <= crate::codec::byte_at(v as int, 1) <= 0x7f);
    assert forall|j: int| 0 <= j < op_bytes(add).len() implies crate::codec::byte_is_safe(
        #[trigger] op_bytes(add)[j],
    ) by {
        if j >= 2 {
            assert(op_bytes(add)[j] == crate::codec::le2(h as int)[j - 2]);
        }
    }
    assert forall|j: int| 0 <= j < op_bytes(sub).len() implies crate::codec::byte_is_safe(
        #[trigger] op_bytes(sub)[j],
    ) by {
        if j >= 2 {
            assert(op_bytes(sub)[j] == crate::codec::le2(h as int)[j - 2]);
        }
    }
}

/// A safe one-byte line yields a safe 8-bit add or subtract.
proof fn lemma_safe_op_al(v: u32)
    requires
        line_ok(v as int),
        sig_width(v as int) == 1,
    ensures
        op_safe(OpCode::AddAl(v as u8)),
        op_safe(OpCode::SubAl(v as u8)),
{
    assert(crate::codec::byte_at(v as int, 0) == v as int);
    assert(1 <= v <= 0x7f);
    let add = OpCode::AddAl(v as u8);
    let sub = OpCode::SubAl(v as u8);
    assert forall|j: int| 0 <= j < op_bytes(add).len() implies crate::codec::byte_is_safe(
        #[trigger] op_bytes(add)[j],
    ) by {}
    assert forall|j: int| 0 <= j < op_bytes(sub).len() implies crate::codec::byte_is_safe(
        #[trigger] op_bytes(sub)[j],
    ) by {}
}

/// Evaluates the add candidate for the exact target `dest` from accumulator
/// value `src`: one safe `add` per solver line, validated under lane
/// semantics.
pub fn check_add(dest: u32, src: u32) -> (r: Result<InstructionSet, EncodeError>)
    ensures
        match r {
            Ok(c) => {
                &&& c.wf()
                &&& Some(c@) == spec_check_add(dest, src)
                &&& all_arith(c@)
                &&& arith_fold(src as int, c@) == dest
                &&& crate::instructions::safe_ops(c@)
                &&& c@.len() <= LINE_CAP
            },
            Err(e) => spec_check_add(dest, src) is None && (e == EncodeError::UnencodableValue
                || e == EncodeError::UnsupportedWidth),
        },
{
    if dest == src {
        let is = InstructionSet::new();
        return Ok(is);
    }
    let dif = wrap_sub32(dest, src);
    proof {
        assert(dif == w32(dest as int - src as int) as u32);
    }
    let lines = match gen_values(dif) {
        Ok(v) => v,
        Err(e) => {
            return Err(e);
        },
    };
    let mut is = InstructionSet::new();
    let mut cur: u32 = src;
    let mut i: usize = 0;
    while i < lines.len()
        invariant
            dest != src,
            spec_solve(w32(dest as int - src as int) as u32) == Some(lines@),
            i <= lines@.len() <= LINE_CAP,
            all_lines_ok(lines@),
            is.wf(),
            Some(is@) == add_ops(lines@.subrange(0, i as int)),
            is@.len() == i,
            all_arith(is@),
            crate::instructions::safe_ops(is@),
            cur as int == arith_fold(src as int, is@),
        decreases lines@.len() - i,
    {
        let v = lines[i];
        let w = sig_width_of(v);
        let ghost prefix = lines@.subrange(0, i as int);
        let ghost prev = is@;
        proof {
            assert(line_ok(v as int));
            lemma_ops_len_bound(is@);
            assert(lines@.subrange(0, i as int + 1).drop_last() =~= prefix);
            assert(lines@.subrange(0, i as int + 1).last() == v);
        }
        if w == 4 {
            is.add_eax(v);
            proof {
                lemma_arith_fold_push(src as int, prev, OpCode::AddEax(v));
                lemma_safe_op_eax(v);
            }
            cur = wrap_add32(cur, v);
        } else if w == 2 {
            is.add_ax(v as u16);
            proof {
                lemma_arith_fold_push(src as int, prev, OpCode::AddAx(v as u16));
                lemma_safe_op_ax(v);
            }
            cur = lane_add16_exec(cur, v as u16);
        } else if w == 1 {
            is.add_al(v as u8);
            proof {
                lemma_arith_fold_push(src as int, prev, OpCode::AddAl(v as u8));
                lemma_safe_op_al(v);
            }
            cur = lane_add8_exec(cur, v as u8);
        } else {
            proof {
                lemma_add_ops_none_from(lines@, i as int);
            }
            return Err(EncodeError::UnsupportedWidth);
        }
        i = i + 1;
    }
    proof {
        assert(lines@.subrange(0, lines@.len() as int) =~= lines@);
    }
    if cur != dest {
        return Err(EncodeError::UnencodableValue);
    }
    Ok(is)
}

/// Evaluates the subtract candidate for `dest` from accumulator value `src`.
pub fn check_sub(dest: u32, src: u32) -> (r: Result<InstructionSet, EncodeError>)
    ensures
        match r {
            Ok(c) => {
                &&& c.wf()
                &&& Some(c@) == spec_check_sub(dest, src)
                &&& all_arith(c@)
                &&& arith_fold(src as int, c@) == dest
                &&& crate::instructions::safe_ops(c@)
                &&& c@.len() <= LINE_CAP
            },
            Err(e) => spec_check_sub(dest, src) is None && (e == EncodeError::UnencodableValue
                || e == EncodeError::UnsupportedWidth),
        },
{
    if dest == src {
        let is = InstructionSet::new();
        return Ok(is);
    }
    let dif = wrap_sub32(src, dest);
    proof {
        assert(dif == w32(src as int - dest as int) as u32);
    }
    let lines = match gen_values(dif) {
        Ok(v) => v,
        Err(e) => {
            return Err(e);
        },
    };
    let mut is = InstructionSet::new();
    let mut cur: u32 = src;
    let mut i: usize = 0;
    while i < lines.len()
        invariant
            dest != src,
            spec_solve(w32(src as int - dest as int) as u32) == Some(lines@),
            i <= lines@.len() <= LINE_CAP,
            all_lines_ok(lines@),
            is.wf(),
            Some(is@) == sub_ops(lines@.subrange(0, i as int)),
            is@.len() == i,
            all_arith(is@),
            crate::instructions::safe_ops(is@),
            cur as int == arith_fold(src as int, is@),
        decreases lines@.len() - i,
    {
        let v = lines[i];
        let w = sig_width_of(v);
        let ghost prefix = lines@.subrange(0, i as int);
        let ghost prev = is@;
        proof {
            assert(line_ok(v as int));
            lemma_ops_len_bound(is@);
            assert(lines@.subrange(0, i as int + 1).drop_last() =~= prefix);
            assert(lines@.subrange(0, i as int + 1).last() == v);
        }
        if w == 4 {
            is.sub_eax(v);
            proof {
                lemma_arith_fold_push(src as int, prev, OpCode::SubEax(v));
                lemma_safe_op_eax(v);
            }
            cur = wrap_sub32(cur, v);
        } else if w == 2 {
            is.sub_ax(v as u16);
            proof {
                lemma_arith_fold_push(src as int, prev, OpCode::SubAx(v as u16));
                lemma_safe_op_ax(v);
            }
            cur = lane_sub16_exec(cur, v as u16);
        } else if w == 1 {
            is.sub_al(v as u8);
            proof {
                lemma_arith_fold_push(src as int, prev, OpCode::SubAl(v as u8));
                lemma_safe_op_al(v);
            }
            cur = lane_sub8_exec(cur, v as u8);
        } else {
            proof {
                lemma_sub_ops_none_from(lines@, i as int);
            }
            return Err(EncodeError::UnsupportedWidth);
        }
        i = i + 1;
    }
    proof {
        assert(lines@.subrange(0, lines@.len() as int) =~= lines@);
    }
    if cur != dest {
        return Err(EncodeError::UnencodableValue);
    }
    Ok(is)
}

/// What the selector knows of its running best while folding a candidate
/// pool.
pub open spec fn best_inv(
    best: Option<InstructionSet>,
    pool: Seq<Option<Seq<OpCode>>>,
    dest: u32,
    src: u32,
) -> bool {
    match best {
        None => pick_best(pool) is None,
        Some(b) => {
            &&& b.wf()
            &&& pick_best(pool) == Some(b@)
            &&& cand_good(b@, dest, src)
            &&& crate::instructions::safe_ops(b@)
            &&& b@.len() <= CANDIDATE_OP_CAP
        },
    }
}

/// Folds one evaluated candidate into the running best; the earlier wins a
/// tie.
fn consider(
    best: Option<InstructionSet>,
    cand: Option<InstructionSet>,
    Ghost(pool): Ghost<Seq<Option<Seq<OpCode>>>>,
    Ghost(entry): Ghost<Option<Seq<OpCode>>>,
    dest: u32,
    src: u32,
) -> (r: Option<InstructionSet>)
    requires
        best_inv(best, pool, dest, src),
        match cand {
            Some(c) => {
                &&& Some(c@) == entry
                &&& c.wf()
                &&& cand_good(c@, dest, src)
                &&& crate::instructions::safe_ops(c@)
                &&& c@.len() <= CANDIDATE_OP_CAP
            },
            None => entry is None,
        },
    ensures
        best_inv(r, pool.push(entry), dest, src),
{
    proof {
        lemma_pick_best_push(pool, entry);
    }
    match cand {
        None => best,
        Some(c) => match best {
            None => Some(c),
            Some(b) => {
                if b.len() <= c.len() {
                    Some(b)
                } else {
                    Some(c)
                }
            },
        },
    }
}

/// The baseline priming opcodes are themselves safe.
proof fn lemma_safe_priming()
    ensures
        op_safe(OpCode::Push8(1)),
        op_safe(OpCode::PopEax),
{
    let a = OpCode::Push8(1);
    let b = OpCode::PopEax;
    assert forall|j: int| 0 <= j < op_bytes(a).len() implies crate::codec::byte_is_safe(
        #[trigger] op_bytes(a)[j],
    ) by {}
    assert forall|j: int| 0 <= j < op_bytes(b).len() implies crate::codec::byte_is_safe(
        #[trigger] op_bytes(b)[j],
    ) by {}
}

/// Evaluates the subtract-the-constant-then-add pre-load candidate.
fn eval_pre_sub(dest: u32, src: u32, i: u32) -> (r: Option<InstructionSet>)
    requires
        line_ok(i as int),
        1 <= i,
    ensures
        ({
            let entry = match spec_check_add(
                dest,
                arith_eax(src as int, pre_sub_op(i)) as u32,
            ) {
                Some(ops) => Some(seq![pre_sub_op(i)] + ops),
                None => None::<Seq<OpCode>>,
            };
            match r {
                Some(c) => {
                    &&& Some(c@) == entry
                    &&& c.wf()
                    &&& cand_good(c@, dest, src)
                    &&& crate::instructions::safe_ops(c@)
                    &&& c@.len() <= CANDIDATE_OP_CAP
                },
                None => entry is None,
            }
        }),
{
    proof {
        assert(sig_width(i as int) != 0 && sig_width(i as int) != 3);
    }
    let w = sig_width_of(i);
    let mut pre = InstructionSet::new();
    let after: u32;
    proof {
        assert(ops_len(pre@) == 0);
    }
    if w == 4 {
        pre.sub_eax(i);
        after = wrap_sub32(src, i);
        proof {
            lemma_safe_op_eax(i);
        }
    } else if w == 2 {
        pre.sub_ax(i as u16);
        after = lane_sub16_exec(src, i as u16);
        proof {
            lemma_safe_op_ax(i);
        }
    } else {
        pre.sub_al(i as u8);
        after = lane_sub8_exec(src, i as u8);
        proof {
            lemma_safe_op_al(i);
        }
    }
    proof {
        assert(pre@ =~= seq![pre_sub_op(i)]);
        assert(after as int == arith_eax(src as int, pre_sub_op(i)));
    }
    match check_add(dest, after) {
        Ok(c) => {
            proof {
                lemma_ops_len_bound(pre@);
                lemma_ops_len_bound(c@);
                crate::sim::lemma_all_arith_app(pre@, c@);
                lemma_arith_fold_app(src as int, pre@, c@);
                lemma_arith_fold_push(src as int, Seq::<OpCode>::empty(), pre_sub_op(i));
                assert(Seq::<OpCode>::empty().push(pre_sub_op(i)) =~= pre@);
                assert(arith_fold(src as int, pre@) == after as int);
                lemma_arith_cand_good(pre@ + c@, dest, src);
                crate::instructions::lemma_safe_ops_app(pre@, c@);
            }
            let full = pre.combine(c);
            Some(full)
        },
        Err(_) => None,
    }
}

/// Evaluates the add-the-constant-then-subtract pre-load candidate.
fn eval_pre_add(dest: u32, src: u32, i: u32) -> (r: Option<InstructionSet>)
    requires
        line_ok(i as int),
        1 <= i,
    ensures
        ({
            let entry = match spec_check_sub(
                dest,
                arith_eax(src as int, pre_add_op(i)) as u32,
            ) {
                Some(ops) => Some(seq![pre_add_op(i)] + ops),
                None => None::<Seq<OpCode>>,
            };
            match r {
                Some(c) => {
                    &&& Some(c@) == entry
                    &&& c.wf()
                    &&& cand_good(c@, dest, src)
                    &&& crate::instructions::safe_ops(c@)
                    &&& c@.len() <= CANDIDATE_OP_CAP
                },
                None => entry is None,
            }
        }),
{
    proof {
        assert(sig_width(i as int) != 0 && sig_width(i as int) != 3);
    }
    let w = sig_width_of(i);
    let mut pre = InstructionSet::new();
    let after: u32;
    proof {
        assert(ops_len(pre@) == 0);
    }
    if w == 4 {
        pre.add_eax(i);
        after = wrap_add32(src, i);
        proof {
            lemma_safe_op_eax(i);
        }
    } else if w == 2 {
        pre.add_ax(i as u16);
        after = lane_add16_exec(src, i as u16);
        proof {
            lemma_safe_op_ax(i);
        }
    } else {
        pre.add_al(i as u8);
        after = lane_add8_exec(src, i as u8);
        proof {
            lemma_safe_op_al(i);
        }
    }
    proof {
        assert(pre@ =~= seq![pre_add_op(i)]);
        assert(after as int == arith_eax(src as int, pre_add_op(i)));
    }
    match check_sub(dest, after) {
        Ok(c) => {
            proof {
                lemma_ops_len_bound(pre@);
                lemma_ops_len_bound(c@);
                crate::sim::lemma_all_arith_app(pre@, c@);
                lemma_arith_fold_app(src as int, pre@, c@);
                lemma_arith_fold_push(src as int, Seq::<OpCode>::empty(), pre_add_op(i));
                assert(Seq::<OpCode>::empty().push(pre_add_op(i)) =~= pre@);
                assert(arith_fold(src as int, pre@) == after as int);
                lemma_arith_cand_good(pre@ + c@, dest, src);
                crate::instructions::lemma_safe_ops_app(pre@, c@);
            }
            let full = pre.combine(c);
            Some(full)
        },
        Err(_) => None,
    }
}

/// The encoding strategy selector.  Evaluates the add and subtract
/// candidates from the current accumulator value, the two baseline-primed
/// candidates, and `budget` pre-load pairs; returns the first-found shortest
/// validated candidate, or `UnencodableValue` when none of them reaches the
/// target.
///
/// LAW: idempotent strategy choice — the result is pinned to `spec_wrap`, a
/// function of `(dest, src, budget)` alone, so calling the selector twice on
/// the same pair yields identical sequences.
#[verifier::rlimit(100)]
#[verifier::spinoff_prover]
pub fn wrap(dest: u32, src: u32, budget: usize) -> (r: Result<InstructionSet, EncodeError>)
    ensures
        match r {
            Ok(c) => {
                &&& c.wf()
                &&& Some(c@) == spec_wrap(dest, src, budget as nat)
                &&& cand_good(c@, dest, src)
                &&& crate::instructions::safe_ops(c@)
                &&& c@.len() <= CANDIDATE_OP_CAP
            },
            Err(e) => spec_wrap(dest, src, budget as nat) is None && e
                == EncodeError::UnencodableValue,
        },
{
    let ghost base = base_candidates(dest, src);
    let mut best: Option<InstructionSet> = None;
    proof {
        assert(pick_best(Seq::<Option<Seq<OpCode>>>::empty()) is None);
    }

    let c1 = match check_add(dest, src) {
        Ok(c) => {
            proof {
                lemma_arith_cand_good(c@, dest, src);
            }
            Some(c)
        },
        Err(_) => None,
    };
    best = consider(
        best,
        c1,
        Ghost(Seq::empty()),
        Ghost(spec_check_add(dest, src)),
        dest,
        src,
    );
    let ghost pool1 = Seq::<Option<Seq<OpCode>>>::empty().push(spec_check_add(dest, src));

    let c2 = match check_sub(dest, src) {
        Ok(c) => {
            proof {
                lemma_arith_cand_good(c@, dest, src);
            }
            Some(c)
        },
        Err(_) => None,
    };
    best = consider(best, c2, Ghost(pool1), Ghost(spec_check_sub(dest, src)), dest, src);
    let ghost pool2 = pool1.push(spec_check_sub(dest, src));

    let c3 = match check_add(dest, 1) {
        Ok(c) => {
            let mut pre = InstructionSet::new();
            proof {
                assert(ops_len(pre@) == 0);
            }
            pre.one_eax();
            proof {
                assert(pre@ =~= seq![OpCode::Push8(1), OpCode::PopEax]);
                lemma_ops_len_bound(pre@);
                lemma_ops_len_bound(c@);
                lemma_oned_cand_good(c@, dest, src);
                lemma_safe_priming();
                crate::instructions::lemma_safe_ops_app(pre@, c@);
            }
            let full = pre.combine(c);
            proof {
                assert(Some(full@) == spec_oned(spec_check_add(dest, 1)));
            }
            Some(full)
        },
        Err(_) => None,
    };
    best = consider(best, c3, Ghost(pool2), Ghost(spec_oned(spec_check_add(dest, 1))), dest, src);
    let ghost pool3 = pool2.push(spec_oned(spec_check_add(dest, 1)));

    let c4 = match check_sub(dest, 1) {
        Ok(c) => {
            let mut pre = InstructionSet::new();
            proof {
                assert(ops_len(pre@) == 0);
            }
            pre.one_eax();
            proof {
                assert(pre@ =~= seq![OpCode::Push8(1), OpCode::PopEax]);
                lemma_ops_len_bound(pre@);
                lemma_ops_len_bound(c@);
                lemma_oned_cand_good(c@, dest, src);
                lemma_safe_priming();
                crate::instructions::lemma_safe_ops_app(pre@, c@);
            }
            let full = pre.combine(c);
            proof {
                assert(Some(full@) == spec_oned(spec_check_sub(dest, 1)));
            }
            Some(full)
        },
        Err(_) => None,
    };
    best = consider(best, c4, Ghost(pool3), Ghost(spec_oned(spec_check_sub(dest, 1))), dest, src);

    proof {
        assert(pool3.push(spec_oned(spec_check_sub(dest, 1))) =~= base);
        assert(base + spec_preloads(dest, src, 0) =~= base);
    }

    let kb: usize = if budget > PRELOAD_PLATEAU {
        PRELOAD_PLATEAU
    } else {
        budget
    };
    let mut k: usize = 0;
    while k < kb
        invariant
            k <= kb <= PRELOAD_PLATEAU,
            kb <= budget,
            base == base_candidates(dest, src),
            best_inv(best, base + spec_preloads(dest, src, k as nat), dest, src),
        decreases kb - k,
    {
        let ghost pool_k = base + spec_preloads(dest, src, k as nat);
        let ghost pair = preload_pair(dest, src, k as int);
        proof {
            assert(spec_preloads(dest, src, (k + 1) as nat) == spec_preloads(dest, src, k as nat)
                + pair);
            assert(1 + 0x1111 * (k as int) < 0x7f7f7f7f) by (nonlinear_arith)
                requires k < 489600,
            ;
        }
        let iw: u64 = 1 + 0x1111 * (k as u64);
        proof {
            assert(iw == preload_const(k as int));
            assert(0 < preload_const(k as int) < 0x7f7f7f7f);
        }
        let i = iw as u32;
        proof {
            assert(i as int == preload_const(k as int));
        }
        if !line_is_ok(i) {
            proof {
                assert(!line_ok(preload_const(k as int)));
                assert(pair =~= Seq::<Option<Seq<OpCode>>>::empty());
                assert(base + spec_preloads(dest, src, (k + 1) as nat) =~= pool_k);
            }
        } else {
            proof {
                assert(line_ok(preload_const(k as int)));
                assert(pair.len() == 2);
            }
            let c5 = eval_pre_sub(dest, src, i);
            best = consider(best, c5, Ghost(pool_k), Ghost(pair[0]), dest, src);
            let c6 = eval_pre_add(dest, src, i);
            best = consider(best, c6, Ghost(pool_k.push(pair[0])), Ghost(pair[1]), dest, src);
            proof {
                assert(pair =~= seq![pair[0], pair[1]]);
                assert(pool_k.push(pair[0]).push(pair[1]) =~= pool_k + pair);
                assert(base + spec_preloads(dest, src, (k + 1) as nat) =~= pool_k + pair);
            }
        }
        k = k + 1;
    }
    proof {
        reveal(spec_wrap);
        if budget > PRELOAD_PLATEAU {
            lemma_preloads_plateau(dest, src, budget as nat);
        }
        assert(base + spec_preloads(dest, src, kb as nat) == base + spec_preloads(
            dest,
            src,
            budget as nat,
        ));
    }
    match best {
        Some(b) => Ok(b),
        None => Err(EncodeError::UnencodableValue),
    }
}

/// LAW: minimality among evaluated strategies — the selector's choice is
/// never longer, in emitted bytes, than any of the four base candidates it
/// computed (the baseline candidates counting their three priming bytes).
pub proof fn lemma_selector_minimality(dest: u32, src: u32, budget: nat)
    ensures
        spec_check_add(dest, src) matches Some(a) ==> spec_wrap(dest, src, budget) matches Some(w)
            && ops_len(w) <= ops_len(a),
        spec_check_sub(dest, src) matches Some(a) ==> spec_wrap(dest, src, budget) matches Some(w)
            && ops_len(w) <= ops_len(a),
        spec_oned(spec_check_add(dest, 1)) matches Some(a) ==> spec_wrap(dest, src, budget)
            matches Some(w) && ops_len(w) <= ops_len(a),
        spec_oned(spec_check_sub(dest, 1)) matches Some(a) ==> spec_wrap(dest, src, budget)
            matches Some(w) && ops_len(w) <= ops_len(a),
{
    reveal(spec_wrap);
    let pool = base_candidates(dest, src) + spec_preloads(dest, src, budget);
    assert(pool[0] == spec_check_add(dest, src));
    assert(pool[1] == spec_check_sub(dest, src));
    assert(pool[2] == spec_oned(spec_check_add(dest, 1)));
    assert(pool[3] == spec_oned(spec_check_sub(dest, 1)));
    if spec_check_add(dest, src) is Some {
        lemma_pick_best_min(pool, 0);
    }
    if spec_check_sub(dest, src) is Some {
        lemma_pick_best_min(pool, 1);
    }
    if spec_oned(spec_check_add(dest, 1)) is Some {
        lemma_pick_best_min(pool, 2);
    }
    if spec_oned(spec_check_sub(dest, 1)) is Some {
        lemma_pick_best_min(pool, 3);
    }
}

/// Once emission fails at one line, it fails for the whole list.
proof fn lemma_add_ops_none_from(lines: Seq<u32>, i: int)
    requires
        0 <= i < lines.len(),
        add_ops(lines.subrange(0, i + 1)) is None,
    ensures
        add_ops(lines) is None,
    decreases lines.len() - i,
{
    if i + 1 == lines.len() {
        assert(lines.subrange(0, i + 1) =~= lines);
    } else {
        assert(lines.subrange(0, i + 2).drop_last() =~= lines.subrange(0, i + 1));
        lemma_add_ops_none_from(lines, i + 1);
    }
}

/// Once emission fails at one line, it fails for the whole list.
proof fn lemma_sub_ops_none_from(lines: Seq<u32>, i: int)
    requires
        0 <= i < lines.len(),
        sub_ops(lines.subrange(0, i + 1)) is None,
    ensures
        sub_ops(lines) is None,
    decreases lines.len() - i,
{
    if i + 1 == lines.len() {
        assert(lines.subrange(0, i + 1) =~= lines);
    } else {
        assert(lines.subrange(0, i + 2).drop_last() =~= lines.subrange(0, i + 1));
        lemma_sub_ops_none_from(lines, i + 1);
    }
}

} // verus!
