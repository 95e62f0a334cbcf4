//! The constraint solver ("equalize"): rebalances a 32-bit delta into a list
//! of lines whose significant bytes all lie in the safe alphabet, while
//! preserving the exact integer sum of the lines.
//!
//! Each rebalancing step is a transition of a small state machine over a
//! `(line, byte)` position: a byte above `0x7F` is capped in place and its
//! excess pushed to the same position of the next line (overflow-carry); a
//! zero byte borrows one unit from the same position of the previous line
//! (zero-borrow).  Both transitions move value between lines only, so the
//! total is invariant.

use vstd::prelude::*;
use vstd::pervasive::VecAdditionalExecFns;
use crate::codec::{byte_at, line_is_ok, line_ok, pow_b, pow_byte, sig_width, sig_width_of};
use crate::EncodeError;

verus! {

/// How many rebalancing passes the solver will attempt before declaring the
/// delta unencodable.
pub const SOLVER_PASS_CAP: u32 = 64;

/// The most lines a solution may use.
pub const LINE_CAP: usize = 10;

/// The exact integer sum of a list of lines.
pub open spec fn lines_sum(lines: Seq<u32>) -> int
    decreases lines.len(),
{
    if lines.len() == 0 {
        0
    } else {
        lines_sum(lines.drop_last()) + lines.last()
    }
}

/// Every line of the list is safe.
pub open spec fn all_lines_ok(lines: Seq<u32>) -> bool {
    forall|i: int| 0 <= i < lines.len() ==> line_ok(#[trigger] lines[i] as int)
}

/// The overflow-carry transition at position `(l, b)`: if the byte exceeds
/// `0x7F`, cap it and add the excess to the next line (created first if
/// none exists).
pub open spec fn cell_capped(lines: Seq<u32>, l: int, b: int) -> Seq<u32>
    recommends
        0 <= l < lines.len(),
        0 <= b < 4,
{
    let v = lines[l] as int;
    let c = byte_at(v, b);
    if c > 0x7f {
        let eprod = (c - 0x7f) * pow_b(b);
        let shrunk = lines.update(l, (v - eprod) as u32);
        let grown = if l + 1 == shrunk.len() {
            shrunk.push(0u32)
        } else {
            shrunk
        };
        grown.update(l + 1, (grown[l + 1] + eprod) as u32)
    } else {
        lines
    }
}

/// One full transition at position `(l, b)`: overflow-carry, then
/// zero-borrow.  `None` is the defect path: a zero byte in the first line
/// has no donor, and a donor smaller than the borrowed unit cannot pay.
pub open spec fn solve_cell(lines: Seq<u32>, l: int, b: int) -> Option<Seq<u32>>
    recommends
        0 <= l < lines.len(),
        0 <= b < 4,
{
    let mid = cell_capped(lines, l, b);
    let c1 = byte_at(mid[l] as int, b);
    if c1 == 0 {
        if l == 0 {
            None
        } else if mid[l - 1] < pow_b(b) {
            None
        } else {
            Some(
                mid.update(l - 1, (mid[l - 1] - pow_b(b)) as u32).update(
                    l,
                    (mid[l] + pow_b(b)) as u32,
                ),
            )
        }
    } else {
        Some(mid)
    }
}

/// Processes the occupied byte positions of line `l`, from `b` upward.
pub open spec fn solve_line(lines: Seq<u32>, l: int, b: int) -> Option<Seq<u32>>
    recommends
        0 <= l < lines.len(),
        0 <= b,
    decreases 4 - b,
{
    if b >= 4 || b >= sig_width(lines[l] as int) {
        Some(lines)
    } else {
        match solve_cell(lines, l, b) {
            Some(next) => solve_line(next, l, b + 1),
            None => None,
        }
    }
}

/// Processes lines `l` up to (excluding) `n`; `n` is the line count at the
/// start of the pass, so a line created mid-pass is not visited until the
/// next pass.
pub open spec fn solve_pass(lines: Seq<u32>, l: int, n: int) -> Option<Seq<u32>>
    recommends
        0 <= l <= n <= lines.len(),
    decreases n - l,
{
    if l >= n {
        Some(lines)
    } else {
        match solve_line(lines, l, 0) {
            Some(next) => solve_pass(next, l + 1, n),
            None => None,
        }
    }
}

/// Runs rebalancing passes until every line is safe, the line cap is hit, or
/// the fuel runs out.
pub open spec fn solve_rounds(lines: Seq<u32>, fuel: nat) -> Option<Seq<u32>>
    decreases fuel,
{
    if all_lines_ok(lines) {
        Some(lines)
    } else if lines.len() >= LINE_CAP {
        None
    } else if fuel == 0 {
        None
    } else {
        match solve_pass(lines, 0, lines.len() as int) {
            Some(next) => solve_rounds(next, (fuel - 1) as nat),
            None => None,
        }
    }
}

/// What the solver returns for a delta: the fixpoint of rebalancing, started
/// from the single line holding the delta itself.
#[verifier::opaque]
pub open spec fn spec_solve(dif: u32) -> Option<Seq<u32>> {
    solve_rounds(seq![dif], SOLVER_PASS_CAP as nat)
}

/// Updating one line moves the sum by the difference.
pub proof fn lemma_lines_sum_update(lines: Seq<u32>, i: int, v: u32)
    requires
        0 <= i < lines.len(),
    ensures
        lines_sum(lines.update(i, v)) == lines_sum(lines) - lines[i] + v,
    decreases lines.len(),
{
    if i == lines.len() - 1 {
        assert(lines.update(i, v).drop_last() =~= lines.drop_last());
    } else {
        assert(lines.update(i, v).drop_last() =~= lines.drop_last().update(i, v));
        lemma_lines_sum_update(lines.drop_last(), i, v);
    }
}

/// Appending a line adds it to the sum.
pub proof fn lemma_lines_sum_push(lines: Seq<u32>, v: u32)
    ensures
        lines_sum(lines.push(v)) == lines_sum(lines) + v,
{
    assert(lines.push(v).drop_last() =~= lines);
}

/// Every line is at most the total, and the total is non-negative.
pub proof fn lemma_elem_le_sum(lines: Seq<u32>, i: int)
    requires
        0 <= i < lines.len(),
    ensures
        lines_sum(lines) >= 0,
        lines[i] <= lines_sum(lines),
    decreases lines.len(),
{
    lemma_lines_sum_nonneg(lines.drop_last());
    if i < lines.len() - 1 {
        lemma_elem_le_sum(lines.drop_last(), i);
    }
}

/// The sum of lines is non-negative.
pub proof fn lemma_lines_sum_nonneg(lines: Seq<u32>)
    ensures
        lines_sum(lines) >= 0,
    decreases lines.len(),
{
    if lines.len() > 0 {
        lemma_lines_sum_nonneg(lines.drop_last());
    }
}

/// Applies one `(l, b)` transition in place.  Returns false on the defect
/// path, in which case the caller abandons the whole solve.
fn solve_cell_step(lines: &mut Vec<u32>, l: usize, b: usize) -> (r: bool)
    requires
        l < old(lines)@.len(),
        b < 4,
        lines_sum(old(lines)@) <= u32::MAX,
    ensures
        r ==> Some(final(lines)@) == solve_cell(old(lines)@, l as int, b as int),
        r ==> lines_sum(final(lines)@) == lines_sum(old(lines)@),
        r ==> l < final(lines)@.len(),
        r ==> final(lines)@.len() == old(lines)@.len() || (final(lines)@.len() == old(
            lines,
        )@.len() + 1 && l + 1 == old(lines)@.len()),
        !r ==> solve_cell(old(lines)@, l as int, b as int) is None,
{
    let ghost orig = lines@;
    let ghost sum0 = lines_sum(orig);
    let p = pow_byte(b);
    let v = lines[l];
    let c = (v / p) % 0x100;
    proof {
        assert(c == byte_at(v as int, b as int));
        lemma_elem_le_sum(orig, l as int);
    }
    if c > 0x7f {
        let excess = c - 0x7f;
        proof {
            assert(excess as int * p as int <= 0x8000_0000) by (nonlinear_arith)
                requires excess <= 0x80 && p <= 0x1000000,
            ;
        }
        let eprod_wide = excess as u64 * p as u64;
        proof {
            assert(c * p <= v) by (nonlinear_arith)
                requires c == (v / p) % 0x100 && p >= 1 && v >= 0,
            ;
            assert(eprod_wide <= c * p) by (nonlinear_arith)
                requires eprod_wide == excess as u64 * p as u64 && excess <= c && p >= 0,
            ;
        }
        let eprod = eprod_wide as u32;
        let shrunk = v - eprod;
        lines.set(l, shrunk);
        proof {
            lemma_lines_sum_update(orig, l as int, shrunk);
            assert(lines_sum(lines@) == sum0 - eprod);
        }
        if lines.len() - 1 == l {
            let ghost prepush = lines@;
            lines.push(0);
            proof {
                lemma_lines_sum_push(prepush, 0u32);
            }
        }
        let ghost before_add = lines@;
        let nxt = lines[l + 1];
        proof {
            lemma_elem_le_sum(before_add, l as int + 1);
            assert(nxt + eprod <= sum0);
        }
        lines.set(l + 1, nxt + eprod);
        proof {
            lemma_lines_sum_update(before_add, l as int + 1, (nxt + eprod) as u32);
            assert(lines_sum(lines@) == sum0);
            assert(lines@ =~= cell_capped(orig, l as int, b as int));
        }
    } else {
        proof {
            assert(lines@ == cell_capped(orig, l as int, b as int));
        }
    }
    let ghost mid = cell_capped(orig, l as int, b as int);
    let v1 = lines[l];
    let c1 = (v1 / p) % 0x100;
    proof {
        assert(c1 == byte_at(mid[l as int] as int, b as int));
    }
    if c1 == 0 {
        if l == 0 {
            return false;
        }
        let donor = lines[l - 1];
        if donor < p {
            return false;
        }
        let ghost before_borrow = lines@;
        lines.set(l - 1, donor - p);
        proof {
            lemma_lines_sum_update(before_borrow, l as int - 1, (donor - p) as u32);
            assert(lines_sum(lines@) == sum0 - p);
        }
        let ghost before_give = lines@;
        let curv = lines[l];
        proof {
            lemma_elem_le_sum(before_give, l as int);
            assert(curv + p <= sum0);
        }
        lines.set(l, curv + p);
        proof {
            lemma_lines_sum_update(before_give, l as int, (curv + p) as u32);
            assert(lines_sum(lines@) == sum0);
            assert(lines@ =~= solve_cell(orig, l as int, b as int).unwrap());
        }
        true
    } else {
        true
    }
}

/// Processes every occupied byte position of line `l`.
fn solve_line_step(lines: &mut Vec<u32>, l: usize) -> (r: bool)
    requires
        l < old(lines)@.len(),
        lines_sum(old(lines)@) <= u32::MAX,
    ensures
        r ==> Some(final(lines)@) == solve_line(old(lines)@, l as int, 0),
        r ==> lines_sum(final(lines)@) == lines_sum(old(lines)@),
        r ==> l < final(lines)@.len(),
        r ==> final(lines)@.len() == old(lines)@.len() || (final(lines)@.len() == old(
            lines,
        )@.len() + 1 && l + 1 == old(lines)@.len()),
        !r ==> solve_line(old(lines)@, l as int, 0) is None,
{
    let ghost orig = lines@;
    let mut b: usize = 0;
    while b < 4
        invariant
            orig == old(lines)@,
            l < old(lines)@.len(),
            b <= 4,
            l < lines@.len(),
            lines_sum(lines@) == lines_sum(orig) <= u32::MAX,
            solve_line(orig, l as int, 0) == solve_line(lines@, l as int, b as int),
            lines@.len() == orig.len() || (lines@.len() == orig.len() + 1 && l + 1 == orig.len()),
        decreases 4 - b,
    {
        let w = sig_width_of(lines[l]);
        if b >= w {
            assert(solve_line(lines@, l as int, b as int) == Some(lines@));
            return true;
        }
        let ghost before = lines@;
        if !solve_cell_step(lines, l, b) {
            assert(solve_line(before, l as int, b as int) is None);
            return false;
        }
        b = b + 1;
    }
    assert(solve_line(lines@, l as int, 4) == Some(lines@));
    true
}

/// Runs one pass over all lines that existed when the pass began.
fn solve_pass_step(lines: &mut Vec<u32>) -> (r: bool)
    requires
        old(lines)@.len() >= 1,
        lines_sum(old(lines)@) <= u32::MAX,
    ensures
        r ==> Some(final(lines)@) == solve_pass(old(lines)@, 0, old(lines)@.len() as int),
        r ==> lines_sum(final(lines)@) == lines_sum(old(lines)@),
        r ==> old(lines)@.len() <= final(lines)@.len() <= old(lines)@.len() + 1,
        !r ==> solve_pass(old(lines)@, 0, old(lines)@.len() as int) is None,
{
    let ghost orig = lines@;
    let n = lines.len();
    let mut l: usize = 0;
    while l < n
        invariant
            orig == old(lines)@,
            l <= n == orig.len(),
            n <= lines@.len() <= n + 1,
            lines_sum(lines@) == lines_sum(orig) <= u32::MAX,
            solve_pass(orig, 0, n as int) == solve_pass(lines@, l as int, n as int),
            lines@.len() == n || lines@.len() == n + 1,
        decreases n - l,
    {
        let ghost before = lines@;
        if !solve_line_step(lines, l) {
            assert(solve_pass(before, l as int, n as int) is None);
            return false;
        }
        proof {
            if lines@.len() != before.len() {
                assert(l + 1 == before.len());
                assert(before.len() == n);
            }
        }
        l = l + 1;
    }
    assert(solve_pass(lines@, n as int, n as int) == Some(lines@));
    true
}

/// Whether every line of the list is safe.
fn all_lines_ok_exec(lines: &Vec<u32>) -> (r: bool)
    ensures
        r == all_lines_ok(lines@),
{
    let mut i: usize = 0;
    while i < lines.len()
        invariant
            i <= lines@.len(),
            forall|t: int| 0 <= t < i ==> line_ok(#[trigger] lines@[t] as int),
        decreases lines@.len() - i,
    {
        if !line_is_ok(lines[i]) {
            return false;
        }
        i = i + 1;
    }
    true
}

/// The constraint solver: splits a 32-bit delta into at most ten lines whose
/// significant bytes all lie in the safe alphabet and whose exact integer
/// sum equals the delta.  Fails when a zero byte of the first line has no
/// donor, or when rebalancing does not settle within the caps.
pub fn gen_values(dif: u32) -> (r: Result<Vec<u32>, EncodeError>)
    ensures
        match r {
            Ok(v) => {
                &&& spec_solve(dif) == Some(v@)
                &&& lines_sum(v@) == dif
                &&& all_lines_ok(v@)
                &&& 1 <= v@.len() <= LINE_CAP
            },
            Err(e) => spec_solve(dif) is None && e == EncodeError::UnencodableValue,
        },
{
    let mut lines: Vec<u32> = Vec::new();
    lines.push(dif);
    proof {
        reveal(spec_solve);
        assert(lines@ =~= seq![dif]);
        assert(lines@.drop_last() =~= Seq::<u32>::empty());
        assert(lines_sum(Seq::<u32>::empty()) == 0);
        assert(lines_sum(lines@) == dif);
    }
    let mut round: u32 = 0;
    while round < SOLVER_PASS_CAP
        invariant
            round <= SOLVER_PASS_CAP,
            1 <= lines@.len() <= LINE_CAP,
            lines_sum(lines@) == dif,
            solve_rounds(lines@, (SOLVER_PASS_CAP - round) as nat) == spec_solve(dif),
        decreases SOLVER_PASS_CAP - round,
    {
        if all_lines_ok_exec(&lines) {
            assert(solve_rounds(lines@, (SOLVER_PASS_CAP - round) as nat) == Some(lines@));
            return Ok(lines);
        }
        if lines.len() >= LINE_CAP {
            assert(solve_rounds(lines@, (SOLVER_PASS_CAP - round) as nat) is None);
            return Err(EncodeError::UnencodableValue);
        }
        let ghost before = lines@;
        if !solve_pass_step(&mut lines) {
            assert(solve_rounds(before, (SOLVER_PASS_CAP - round) as nat) is None);
            return Err(EncodeError::UnencodableValue);
        }
        round = round + 1;
    }
    if all_lines_ok_exec(&lines) {
        assert(solve_rounds(lines@, 0) == Some(lines@));
        return Ok(lines);
    }
    assert(solve_rounds(lines@, 0) is None);
    Err(EncodeError::UnencodableValue)
}

} // verus!
