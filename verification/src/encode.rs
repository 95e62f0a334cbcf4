//! The value encoder: drives the strategy selector once per target word,
//! tracking the accumulator value across words, with a decrement-and-retry
//! fallback when the winning candidate is pathologically long.

use vstd::prelude::*;
use crate::codec::{
    dwords, le4, line_is_ok, line_ok, padded, sig_width, sig_width_of, w32, word4, wrap_sub32,
};
use crate::instructions::{
    lemma_ops_len_app, lemma_ops_len_bound, lemma_safe_ops_app, ops_len, safe_ops, InstructionSet,
};
use crate::opcode::{op_bytes, op_safe, OpCode};
use crate::select::{spec_wrap, wrap};
use crate::sim::{
    cand_good, exec_op, exec_ops, lane_sub32, lemma_cand_good_use, lemma_exec_ops_app,
    lemma_exec_ops_push, sim_wf, SimState,
};
use crate::EncodeError;

verus! {

/// The most instructions a winning candidate may hold before the encoder
/// declares the word unencodable.
pub const RETRY_OP_CAP: usize = 10;

/// What one encoder step appends and the accumulator value it leaves behind.
pub open spec fn spec_encode_arith(dword: u32, eax: u32, budget: nat) -> Option<Seq<OpCode>> {
    let c1 = spec_wrap(dword, eax, budget);
    if c1 matches Some(o1) && o1.len() <= RETRY_OP_CAP {
        c1
    } else {
        let c2 = match spec_wrap(dword, w32(eax - 1) as u32, budget) {
            Some(o2) => Some(seq![OpCode::DecEax] + o2),
            None => None::<Seq<OpCode>>,
        };
        match c1 {
            Some(o1) => match c2 {
                Some(o2) => {
                    let keep = if ops_len(o2) < ops_len(o1) {
                        o2
                    } else {
                        o1
                    };
                    if keep.len() <= RETRY_OP_CAP {
                        Some(keep)
                    } else {
                        None
                    }
                },
                None => if o1.len() <= RETRY_OP_CAP {
                    Some(o1)
                } else {
                    None
                },
            },
            None => match c2 {
                Some(o2) => if o2.len() <= RETRY_OP_CAP {
                    Some(o2)
                } else {
                    None
                },
                None => None,
            },
        }
    }
}

/// One step of the value encoder: the opcodes appended for a target word and
/// the accumulator value after them.  A word equal to the accumulator is one
/// push; a word that is a single safe byte, or four safe bytes, is pushed as
/// an immediate of that width; anything else goes through the selector and
/// updates the accumulator.
pub open spec fn spec_encode_step(dword: u32, eax: u32, budget: nat) -> Option<
    (Seq<OpCode>, u32),
> {
    if dword == eax {
        Some((seq![OpCode::PushEax(Some(dword))], eax))
    } else if sig_width(dword as int) == 1 && line_ok(dword as int) {
        Some((seq![OpCode::Push8(dword as u8)], eax))
    } else if sig_width(dword as int) == 4 && line_ok(dword as int) {
        Some((seq![OpCode::Push32(dword)], eax))
    } else {
        match spec_encode_arith(dword, eax, budget) {
            Some(ops) => Some((ops.push(OpCode::PushEax(Some(dword))), dword)),
            None => None,
        }
    }
}

/// What one step's opcodes do at runtime: from any well-formed state whose
/// accumulator holds `eax0`, they push exactly the word's four little-endian
/// bytes and leave the accumulator at `eax1`.
#[verifier::opaque]
pub open spec fn step_good(ops: Seq<OpCode>, dword: u32, eax0: u32, eax1: u32) -> bool {
    forall|s: SimState|
        sim_wf(s) && s.eax == eax0 ==> #[trigger] exec_ops(s, ops) == Some(
            SimState { eax: eax1 as int, esp: s.esp, stack: le4(dword as int) + s.stack },
        )
}

/// Uses a step on one concrete state.
pub proof fn lemma_step_good_use(ops: Seq<OpCode>, dword: u32, eax0: u32, eax1: u32, s: SimState)
    requires
        step_good(ops, dword, eax0, eax1),
        sim_wf(s),
        s.eax == eax0,
    ensures
        exec_ops(s, ops) == Some(
            SimState { eax: eax1 as int, esp: s.esp, stack: le4(dword as int) + s.stack },
        ),
{
    reveal(step_good);
}

/// A decrement in front of a candidate from the decremented value is a
/// candidate from the original value.
#[verifier::rlimit(100)]
#[verifier::spinoff_prover]
proof fn lemma_dec_cand_good(ops: Seq<OpCode>, dword: u32, eax: u32, em1: u32)
    requires
        cand_good(ops, dword, em1),
        em1 as int == w32(eax - 1),
    ensures
        cand_good(seq![OpCode::DecEax] + ops, dword, eax),
{
    let pre = seq![OpCode::DecEax];
    assert forall|s: SimState| sim_wf(s) && s.eax == eax implies #[trigger] exec_ops(
        s,
        pre + ops,
    ) == Some(SimState { eax: dword as int, esp: s.esp, stack: s.stack }) by {
        lemma_exec_ops_app(s, pre, ops);
        lemma_dec_exec(s);
        let m = SimState { eax: lane_sub32(s.eax, 1), esp: s.esp, stack: s.stack };
        assert(m.eax == em1 as int);
        assert(sim_wf(m));
        lemma_cand_good_use(ops, dword, em1, m);
    }
    assert(cand_good(pre + ops, dword, eax)) by {
        reveal(cand_good);
    }
}

/// A lone decrement takes one off the accumulator, modulo the register
/// width.
proof fn lemma_dec_exec(s: SimState)
    ensures
        exec_ops(s, seq![OpCode::DecEax]) == Some(
            SimState { eax: lane_sub32(s.eax, 1), esp: s.esp, stack: s.stack },
        ),
{
    let pre = seq![OpCode::DecEax];
    assert(pre.first() == OpCode::DecEax);
    let m = SimState { eax: lane_sub32(s.eax, 1), esp: s.esp, stack: s.stack };
    assert(exec_op(s, pre.first()) == Some(m));
    assert(pre.drop_first() =~= Seq::<OpCode>::empty());
    assert(exec_ops(m, Seq::<OpCode>::empty()) == Some(m));
    assert(exec_ops(s, pre) == Some(m));
}

/// Pushing the accumulator when it already holds the word is a full step.
#[verifier::rlimit(100)]
#[verifier::spinoff_prover]
proof fn lemma_step_push_eax(dword: u32)
    ensures
        step_good(seq![OpCode::PushEax(Some(dword))], dword, dword, dword),
{
    reveal(step_good);
    let delta = seq![OpCode::PushEax(Some(dword))];
    assert forall|s: SimState| sim_wf(s) && s.eax == dword implies #[trigger] exec_ops(s, delta)
        == Some(
        SimState { eax: dword as int, esp: s.esp, stack: le4(dword as int) + s.stack },
    ) by {
        assert(delta.first() == OpCode::PushEax(Some(dword)));
        let m = SimState { eax: s.eax, esp: s.esp, stack: le4(s.eax) + s.stack };
        assert(exec_op(s, delta.first()) == Some(m));
        assert(delta.drop_first() =~= Seq::<OpCode>::empty());
        assert(exec_ops(m, Seq::<OpCode>::empty()) == Some(m));
        assert(exec_ops(s, delta) == Some(m));
        assert(m == SimState { eax: dword as int, esp: s.esp, stack: le4(dword as int) + s.stack });
    }
}

/// Pushing a single safe byte as a sign-extended immediate is a full step.
#[verifier::rlimit(100)]
#[verifier::spinoff_prover]
proof fn lemma_step_push8(dword: u32, e0: u32)
    requires
        dword < 0x80,
    ensures
        step_good(seq![OpCode::Push8(dword as u8)], dword, e0, e0),
{
    reveal(step_good);
    let delta = seq![OpCode::Push8(dword as u8)];
    assert forall|s: SimState| sim_wf(s) && s.eax == e0 implies #[trigger] exec_ops(s, delta)
        == Some(SimState { eax: e0 as int, esp: s.esp, stack: le4(dword as int) + s.stack }) by {
        assert(delta.first() == OpCode::Push8(dword as u8));
        assert(crate::sim::sign_ext8(dword as u8) == dword as int);
        let m = SimState {
            eax: s.eax,
            esp: s.esp,
            stack: le4(crate::sim::sign_ext8(dword as u8)) + s.stack,
        };
        assert(exec_op(s, delta.first()) == Some(m));
        assert(delta.drop_first() =~= Seq::<OpCode>::empty());
        assert(exec_ops(m, Seq::<OpCode>::empty()) == Some(m));
        assert(exec_ops(s, delta) == Some(m));
        assert(m == SimState { eax: e0 as int, esp: s.esp, stack: le4(dword as int) + s.stack });
    }
}

/// Pushing a four-byte immediate is a full step.
#[verifier::rlimit(100)]
#[verifier::spinoff_prover]
proof fn lemma_step_push32(dword: u32, e0: u32)
    ensures
        step_good(seq![OpCode::Push32(dword)], dword, e0, e0),
{
    reveal(step_good);
    let delta = seq![OpCode::Push32(dword)];
    assert forall|s: SimState| sim_wf(s) && s.eax == e0 implies #[trigger] exec_ops(s, delta)
        == Some(SimState { eax: e0 as int, esp: s.esp, stack: le4(dword as int) + s.stack }) by {
        assert(delta.first() == OpCode::Push32(dword));
        let m = SimState { eax: s.eax, esp: s.esp, stack: le4(dword as int) + s.stack };
        assert(exec_op(s, delta.first()) == Some(m));
        assert(delta.drop_first() =~= Seq::<OpCode>::empty());
        assert(exec_ops(m, Seq::<OpCode>::empty()) == Some(m));
        assert(exec_ops(s, delta) == Some(m));
    }
}

/// A validated candidate followed by a push of the accumulator is a full
/// step that leaves the accumulator at the word.
#[verifier::rlimit(100)]
#[verifier::spinoff_prover]
proof fn lemma_step_arith(cops: Seq<OpCode>, dword: u32, e0: u32)
    requires
        cand_good(cops, dword, e0),
    ensures
        step_good(cops.push(OpCode::PushEax(Some(dword))), dword, e0, dword),
{
    reveal(step_good);
    let delta = cops.push(OpCode::PushEax(Some(dword)));
    assert forall|s: SimState| sim_wf(s) && s.eax == e0 implies #[trigger] exec_ops(s, delta)
        == Some(
        SimState { eax: dword as int, esp: s.esp, stack: le4(dword as int) + s.stack },
    ) by {
        lemma_cand_good_use(cops, dword, e0, s);
        lemma_exec_ops_push(s, cops, OpCode::PushEax(Some(dword)));
        let m = SimState { eax: dword as int, esp: s.esp, stack: s.stack };
        assert(exec_op(m, OpCode::PushEax(Some(dword))) == Some(
            SimState { eax: dword as int, esp: s.esp, stack: le4(dword as int) + s.stack },
        ));
    }
}

/// The single-byte push of a safe byte is itself safe.
proof fn lemma_safe_push8(dword: u32)
    requires
        1 <= dword <= 0x7f,
    ensures
        op_safe(OpCode::Push8(dword as u8)),
{
    let b = OpCode::Push8(dword as u8);
    assert forall|j: int| 0 <= j < op_bytes(b).len() implies crate::codec::byte_is_safe(
        #[trigger] op_bytes(b)[j],
    ) by {}
}

/// The four-byte push of a safe line is itself safe.
proof fn lemma_safe_push32(dword: u32)
    requires
        line_ok(dword as int),
        sig_width(dword as int) == 4,
    ensures
        op_safe(OpCode::Push32(dword)),
{
    let b = OpCode::Push32(dword);
    assert forall|j: int| 0 <= j < op_bytes(b).len() implies crate::codec::byte_is_safe(
        #[trigger] op_bytes(b)[j],
    ) by {
        if j >= 1 {
            assert(op_bytes(b)[j] == le4(dword as int)[j - 1]);
            assert(1 <= crate::codec::byte_at(dword as int, j - 1) <= 0x7f);
        }
    }
}

/// A pushed accumulator opcode is safe, as is a decrement.
proof fn lemma_safe_simple_ops(hint: Option<u32>)
    ensures
        op_safe(OpCode::PushEax(hint)),
        op_safe(OpCode::DecEax),
{
    let a = OpCode::PushEax(hint);
    let b = OpCode::DecEax;
    assert forall|j: int| 0 <= j < op_bytes(a).len() implies crate::codec::byte_is_safe(
        #[trigger] op_bytes(a)[j],
    ) by {}
    assert forall|j: int| 0 <= j < op_bytes(b).len() implies crate::codec::byte_is_safe(
        #[trigger] op_bytes(b)[j],
    ) by {}
}

/// Evaluates the selector with the decrement-and-retry fallback; the result
/// is a validated candidate of at most ten instructions.
fn encode_arith(dword: u32, eax: u32, budget: usize) -> (r: Result<InstructionSet, EncodeError>)
    ensures
        match r {
            Ok(c) => {
                &&& c.wf()
                &&& Some(c@) == spec_encode_arith(dword, eax, budget as nat)
                &&& cand_good(c@, dword, eax)
                &&& safe_ops(c@)
                &&& c@.len() <= RETRY_OP_CAP
            },
            Err(e) => spec_encode_arith(dword, eax, budget as nat) is None && e
                == EncodeError::UnencodableValue,
        },
{
    let c1: Option<InstructionSet> = match wrap(dword, eax, budget) {
        Ok(o) => Some(o),
        Err(_) => None,
    };
    let use1 = match &c1 {
        Some(o1) => o1.count() <= RETRY_OP_CAP,
        None => false,
    };
    if use1 {
        match c1 {
            Some(o1) => {
                return Ok(o1);
            },
            None => {
                return Err(EncodeError::UnencodableValue);
            },
        }
    }
    let em1 = wrap_sub32(eax, 1);
    let c2: Option<InstructionSet> = match wrap(dword, em1, budget) {
        Ok(o2) => {
            let mut d = InstructionSet::new();
            proof {
                assert(ops_len(d@) == 0);
                lemma_ops_len_bound(o2@);
                lemma_dec_cand_good(o2@, dword, eax, em1);
                lemma_safe_simple_ops(None);
                assert(safe_ops(seq![OpCode::DecEax]));
                lemma_safe_ops_app(seq![OpCode::DecEax], o2@);
            }
            d.dec_eax();
            proof {
                assert(d@ =~= seq![OpCode::DecEax]);
                lemma_ops_len_bound(d@);
            }
            let full = d.combine(o2);
            Some(full)
        },
        Err(_) => None,
    };
    match c1 {
        Some(o1) => match c2 {
            Some(o2) => {
                let keep = if o2.len() < o1.len() {
                    o2
                } else {
                    o1
                };
                if keep.count() <= RETRY_OP_CAP {
                    Ok(keep)
                } else {
                    Err(EncodeError::UnencodableValue)
                }
            },
            None => {
                Err(EncodeError::UnencodableValue)
            },
        },
        None => match c2 {
            Some(o2) => {
                if o2.count() <= RETRY_OP_CAP {
                    Ok(o2)
                } else {
                    Err(EncodeError::UnencodableValue)
                }
            },
            None => Err(EncodeError::UnencodableValue),
        },
    }
}

impl InstructionSet {
    /// Appends the encoding of one target word, updating the tracked
    /// accumulator value.  Fails with `UnencodableValue` when no candidate
    /// reaches the word within the instruction cap, even after the
    /// decrement retry; in that case nothing is appended.
    pub fn encode(&mut self, dword: u32, eax: &mut u32, budget: usize) -> (r: Result<
        (),
        EncodeError,
    >)
        requires
            old(self).wf(),
            ops_len(old(self)@) + 100 <= usize::MAX,
        ensures
            final(self).wf(),
            match r {
                Ok(()) => {
                    &&& spec_encode_step(dword, *old(eax), budget as nat) matches Some(pair)
                        && final(self)@ == old(self)@ + pair.0 && *final(eax) == pair.1
                        && step_good(pair.0, dword, *old(eax), pair.1) && safe_ops(pair.0)
                        && pair.0.len() <= RETRY_OP_CAP + 1
                },
                Err(e) => {
                    &&& spec_encode_step(dword, *old(eax), budget as nat) is None
                    &&& e == EncodeError::UnencodableValue
                    &&& final(self)@ == old(self)@
                    &&& *final(eax) == *old(eax)
                },
            },
    {
        let e0: u32 = *eax;
        if dword == e0 {
            self.push_eax(Some(dword));
            proof {
                let delta = seq![OpCode::PushEax(Some(dword))];
                assert(final(self)@ =~= old(self)@ + delta);
                lemma_safe_simple_ops(Some(dword));
                assert(safe_ops(delta));
                lemma_step_push_eax(dword);
            }
            return Ok(());
        }
        let w = sig_width_of(dword);
        let safe = line_is_ok(dword);
        if w == 1 && safe {
            self.push8(dword as u8);
            proof {
                let delta = seq![OpCode::Push8(dword as u8)];
                assert(final(self)@ =~= old(self)@ + delta);
                assert(crate::codec::byte_at(dword as int, 0) == dword as int);
                lemma_safe_push8(dword);
                assert(safe_ops(delta));
                lemma_step_push8(dword, e0);
            }
            return Ok(());
        }
        if w == 4 && safe {
            self.push32(dword);
            proof {
                let delta = seq![OpCode::Push32(dword)];
                assert(final(self)@ =~= old(self)@ + delta);
                lemma_safe_push32(dword);
                assert(safe_ops(delta));
                lemma_step_push32(dword, e0);
            }
            return Ok(());
        }
        match encode_arith(dword, e0, budget) {
            Ok(c) => {
                let ghost cops = c@;
                proof {
                    lemma_ops_len_bound(c@);
                }
                self.extend(c);
                proof {
                    lemma_ops_len_app(old(self)@, cops);
                }
                self.push_eax(Some(dword));
                *eax = dword;
                proof {
                    let delta = cops.push(OpCode::PushEax(Some(dword)));
                    assert(final(self)@ =~= old(self)@ + delta);
                    lemma_safe_simple_ops(Some(dword));
                    assert(safe_ops(delta)) by {
                        assert(forall|i: int|
                            0 <= i < cops.len() ==> delta[i] == #[trigger] cops[i]);
                        assert(delta[cops.len() as int] == OpCode::PushEax(Some(dword)));
                    }
                    lemma_step_arith(cops, dword, e0);
                }
                Ok(())
            },
            Err(e) => {
                Err(e)
            },
        }
    }
}


/// The stack bytes deposited after pushing each word of `words` in order:
/// the last-pushed word's bytes sit at the front (the top of stack).
pub open spec fn pushed_stack(words: Seq<u32>) -> Seq<u8>
    decreases words.len(),
{
    if words.len() == 0 {
        Seq::empty()
    } else {
        le4(words.last() as int) + pushed_stack(words.drop_last())
    }
}

/// The dwords of a padded buffer, read in reverse chunk order.
pub open spec fn rev_words(p: Seq<u8>, n: int) -> Seq<u32> {
    Seq::new(n as nat, |j: int| word4(p.subrange(4 * (n - 1 - j), 4 * (n - 1 - j) + 4)) as u32)
}

/// Pushing the reverse-ordered dwords of a buffer deposits the buffer itself.
proof fn lemma_pushed_rev(p: Seq<u8>, n: int)
    requires
        n >= 0,
        p.len() == 4 * n,
    ensures
        pushed_stack(rev_words(p, n)) == p,
    decreases n,
{
    let ws = rev_words(p, n);
    if n == 0 {
        assert(ws.len() == 0);
        assert(pushed_stack(ws) =~= p);
    } else {
        let head = p.subrange(0, 4);
        crate::codec::lemma_le4_word4(head);
        assert(ws.last() as int == word4(head));
        assert(le4(ws.last() as int) == head);
        let q = p.skip(4);
        assert(q.len() == 4 * (n - 1));
        assert(ws.drop_last() =~= rev_words(q, n - 1)) by {
            assert forall|j: int| 0 <= j < n - 1 implies ws.drop_last()[j] == rev_words(
                q,
                n - 1,
            )[j] by {
                assert(q.subrange(4 * (n - 2 - j), 4 * (n - 2 - j) + 4) =~= p.subrange(
                    4 * (n - 1 - j),
                    4 * (n - 1 - j) + 4,
                ));
            }
        }
        lemma_pushed_rev(q, n - 1);
        assert(pushed_stack(ws) == head + q);
        assert(head + q =~= p);
    }
}

/// A padded buffer is a whole number of dwords long.
proof fn lemma_padded_mul4(s: Seq<u8>)
    ensures
        padded(s).len() % 4 == 0,
        padded(s).len() == 4 * (padded(s).len() as int / 4),
{
    let m = s.len() as int % 4;
    vstd::arithmetic::div_mod::lemma_fundamental_div_mod(s.len() as int, 4);
    let q = s.len() as int / 4;
    if m == 0 {
        assert(padded(s).len() == 4 * q);
        vstd::arithmetic::div_mod::lemma_mod_multiples_vanish(q, 0, 4);
    } else {
        assert(padded(s).len() == 4 * q + m + (4 - m));
        assert(padded(s).len() == 4 * (q + 1));
        vstd::arithmetic::div_mod::lemma_mod_multiples_vanish(q + 1, 0, 4);
    }
    vstd::arithmetic::div_mod::lemma_fundamental_div_mod(padded(s).len() as int, 4);
}

/// A buffer splits into one dword per four padded bytes.
pub proof fn lemma_dwords_len(bytes: Seq<u8>)
    ensures
        4 * dwords(bytes).len() == padded(bytes).len(),
{
    lemma_padded_mul4(bytes);
}

/// Pushing the reversed dwords of a byte buffer deposits exactly its padded
/// form.
pub proof fn lemma_dwords_pushed(bytes: Seq<u8>)
    ensures
        pushed_stack(dwords(bytes)) == padded(bytes),
{
    let p = padded(bytes);
    lemma_padded_mul4(bytes);
    let n = p.len() as int / 4;
    assert(dwords(bytes) =~= rev_words(p, n));
    lemma_pushed_rev(p, n);
}

/// What a partially built payload does at runtime: from any well-formed
/// state whose accumulator was primed to one, it deposits `stacked` on the
/// stack and leaves the accumulator at `eax1`.
#[verifier::opaque]
pub open spec fn runs_to(ops: Seq<OpCode>, stacked: Seq<u8>, eax1: u32) -> bool {
    forall|s: SimState|
        sim_wf(s) && s.eax == 1 ==> #[trigger] exec_ops(s, ops) == Some(
            SimState { eax: eax1 as int, esp: s.esp, stack: stacked + s.stack },
        )
}

/// Nothing has run yet: empty code deposits nothing.
proof fn lemma_runs_to_base()
    ensures
        runs_to(Seq::empty(), Seq::empty(), 1),
{
    reveal(runs_to);
    assert forall|s: SimState| sim_wf(s) && s.eax == 1 implies #[trigger] exec_ops(
        s,
        Seq::<OpCode>::empty(),
    ) == Some(SimState { eax: 1, esp: s.esp, stack: Seq::<u8>::empty() + s.stack }) by {
        assert(Seq::<u8>::empty() + s.stack =~= s.stack);
        assert(s == SimState { eax: 1, esp: s.esp, stack: Seq::<u8>::empty() + s.stack });
    }
}

/// One more encoder step extends what the payload deposits.
proof fn lemma_runs_to_step(
    acc: Seq<OpCode>,
    stacked: Seq<u8>,
    eax0: u32,
    delta: Seq<OpCode>,
    dword: u32,
    eax1: u32,
)
    requires
        runs_to(acc, stacked, eax0),
        step_good(delta, dword, eax0, eax1),
    ensures
        runs_to(acc + delta, le4(dword as int) + stacked, eax1),
{
    reveal(runs_to);
    assert forall|s: SimState| sim_wf(s) && s.eax == 1 implies #[trigger] exec_ops(s, acc + delta)
        == Some(
        SimState { eax: eax1 as int, esp: s.esp, stack: (le4(dword as int) + stacked) + s.stack },
    ) by {
        lemma_exec_ops_app(s, acc, delta);
        let m = SimState { eax: eax0 as int, esp: s.esp, stack: stacked + s.stack };
        assert(exec_ops(s, acc) == Some(m));
        assert(sim_wf(m));
        lemma_step_good_use(delta, dword, eax0, eax1, m);
        assert(le4(dword as int) + (stacked + s.stack) =~= (le4(dword as int) + stacked)
            + s.stack);
    }
}

/// The opcodes appended for each word of `words` in order, threading the
/// accumulator value, starting from `eax`.
pub open spec fn spec_encode_words(words: Seq<u32>, eax: u32, budget: nat) -> Option<Seq<OpCode>>
    decreases words.len(),
{
    if words.len() == 0 {
        Some(Seq::empty())
    } else {
        match spec_encode_step(words.first(), eax, budget) {
            None => None,
            Some(pair) => match spec_encode_words(words.drop_first(), pair.1, budget) {
                None => None,
                Some(rest) => Some(pair.0 + rest),
            },
        }
    }
}

/// What encoding a whole payload returns: the baseline priming followed by
/// the per-word steps over the payload's reversed dwords.
pub open spec fn spec_encode_payload(bytes: Seq<u8>, budget: nat) -> Option<Seq<OpCode>> {
    match spec_encode_words(dwords(bytes), 1, budget) {
        Some(ops) => Some(seq![OpCode::Push8(1), OpCode::PopEax] + ops),
        None => None,
    }
}

/// LAW: round-trip — run from any well-formed state, an encoded payload
/// never gets stuck, leaves the stack pointer alone, and deposits exactly
/// the padded payload bytes on the stack.
#[verifier::opaque]
pub open spec fn payload_good(ops: Seq<OpCode>, bytes: Seq<u8>) -> bool {
    forall|s: SimState|
        sim_wf(s) ==> (#[trigger] exec_ops(s, ops) matches Some(t) && t.esp == s.esp && t.stack
            == padded(bytes) + s.stack && sim_wf(t))
}

/// Uses the round-trip property on one concrete state.
pub proof fn lemma_payload_good_use(ops: Seq<OpCode>, bytes: Seq<u8>, s: SimState)
    requires
        payload_good(ops, bytes),
        sim_wf(s),
    ensures
        exec_ops(s, ops) matches Some(t) && t.esp == s.esp && t.stack == padded(bytes) + s.stack
            && sim_wf(t),
{
    reveal(payload_good);
}

/// A fully built payload round-trips: the priming plus all the word steps.
proof fn lemma_payload_from_runs(acc: Seq<OpCode>, bytes: Seq<u8>, eaxf: u32)
    requires
        runs_to(acc, padded(bytes), eaxf),
    ensures
        payload_good(seq![OpCode::Push8(1), OpCode::PopEax] + acc, bytes),
{
    reveal(payload_good);
    let pre = seq![OpCode::Push8(1), OpCode::PopEax];
    assert forall|s: SimState| sim_wf(s) implies (#[trigger] exec_ops(s, pre + acc) matches Some(
        t,
    ) && t.esp == s.esp && t.stack == padded(bytes) + s.stack && sim_wf(t)) by {
        lemma_exec_ops_app(s, pre, acc);
        crate::sim::lemma_one_eax_exec(s);
        let m = SimState { eax: 1, esp: s.esp, stack: s.stack };
        assert(sim_wf(m));
        lemma_runs_to_use(acc, padded(bytes), eaxf, m);
        assert(sim_wf(SimState { eax: eaxf as int, esp: s.esp, stack: padded(bytes) + s.stack }));
    }
}

/// Uses a partially built payload on one concrete state.
proof fn lemma_runs_to_use(ops: Seq<OpCode>, stacked: Seq<u8>, eax1: u32, s: SimState)
    requires
        runs_to(ops, stacked, eax1),
        sim_wf(s),
        s.eax == 1,
    ensures
        exec_ops(s, ops) == Some(
            SimState { eax: eax1 as int, esp: s.esp, stack: stacked + s.stack },
        ),
{
    reveal(runs_to);
}

/// The baseline priming opcodes are safe.
proof fn lemma_safe_baseline()
    ensures
        op_safe(OpCode::Push8(1)),
        op_safe(OpCode::PopEax),
{
    let a = OpCode::Push8(1);
    let b = OpCode::PopEax;
    assert forall|j: int| 0 <= j < op_bytes(a).len() implies crate::codec::byte_is_safe(
        #[trigger] op_bytes(a)[j],
    ) by {}
    assert forall|j: int| 0 <= j < op_bytes(b).len() implies crate::codec::byte_is_safe(
        #[trigger] op_bytes(b)[j],
    ) by {}
}

/// Encodes a whole byte payload as safe-alphabet instructions: a baseline
/// priming, then one encoder step per dword of the padded payload, taken in
/// reverse order so the pushes deposit the payload in its original order.
/// Every byte of the returned instructions lies in the safe alphabet, and
/// simulated execution deposits exactly the padded payload on the stack.
#[verifier::rlimit(100)]
#[verifier::spinoff_prover]
pub fn encode_payload(bytes: &Vec<u8>, budget: usize) -> (r: Result<InstructionSet, EncodeError>)
    requires
        bytes@.len() <= 0x1000_0000,
    ensures
        match r {
            Ok(is) => {
                &&& is.wf()
                &&& Some(is@) == spec_encode_payload(bytes@, budget as nat)
                &&& safe_ops(is@)
                &&& payload_good(is@, bytes@)
                &&& ops_len(is@) <= 10 + 55 * dwords(bytes@).len()
            },
            Err(e) => {
                &&& spec_encode_payload(bytes@, budget as nat) is None
                &&& e == EncodeError::UnencodableValue
            },
        },
{
    let words = crate::codec::get_dwords(bytes);
    let ghost w = words@;
    let n = words.len();
    proof {
        lemma_padded_mul4(bytes@);
        assert(4 * n == padded(bytes@).len());
        assert(n <= 0x4000001);
    }
    let mut output = InstructionSet::new();
    proof {
        assert(ops_len(output@) == 0);
    }
    output.one_eax();
    let mut eax: u32 = 1;
    let ghost prime = seq![OpCode::Push8(1), OpCode::PopEax];
    let ghost mut acc = Seq::<OpCode>::empty();
    proof {
        assert(output@ =~= prime + acc);
        lemma_runs_to_base();
        assert(pushed_stack(w.subrange(0, 0)) =~= Seq::<u8>::empty());
        assert(w.subrange(0, n as int) =~= w);
        lemma_safe_baseline();
        assert(safe_ops(output@));
        lemma_ops_len_bound(output@);
    }
    let mut i: usize = 0;
    while i < n
        invariant
            w == dwords(bytes@),
            words@ == w,
            i <= n == w.len() <= 0x4000001,
            budget <= usize::MAX,
            output.wf(),
            output@ == prime + acc,
            prime == seq![OpCode::Push8(1), OpCode::PopEax],
            safe_ops(output@),
            ops_len(output@) <= 10 + 55 * i,
            runs_to(acc, pushed_stack(w.subrange(0, i as int)), eax),
            (match spec_encode_words(w.subrange(i as int, n as int), eax, budget as nat) {
                None => spec_encode_words(w, 1, budget as nat) is None,
                Some(rest) => spec_encode_words(w, 1, budget as nat) == Some(acc + rest),
            }),
        decreases n - i,
    {
        let dword = words[i];
        let ghost eax0 = eax;
        let ghost out0 = output@;
        let ghost tail = w.subrange(i as int, n as int);
        proof {
            assert(tail.first() == dword);
            assert(tail.drop_first() =~= w.subrange(i as int + 1, n as int));
        }
        match output.encode(dword, &mut eax, budget) {
            Ok(()) => {
                proof {
                    let pair = spec_encode_step(dword, eax0, budget as nat).unwrap();
                    let delta = pair.0;
                    assert(output@ == out0 + delta);
                    let acc1 = acc + delta;
                    assert(output@ =~= prime + acc1);
                    lemma_runs_to_step(
                        acc,
                        pushed_stack(w.subrange(0, i as int)),
                        eax0,
                        delta,
                        dword,
                        pair.1,
                    );
                    assert(w.subrange(0, i as int + 1).last() == dword);
                    assert(w.subrange(0, i as int + 1).drop_last() =~= w.subrange(0, i as int));
                    assert(pushed_stack(w.subrange(0, i as int + 1)) == le4(dword as int)
                        + pushed_stack(w.subrange(0, i as int)));
                    lemma_safe_ops_app(out0, delta);
                    lemma_ops_len_app(out0, delta);
                    lemma_ops_len_bound(delta);
                    match spec_encode_words(w.subrange(i as int + 1, n as int), pair.1,
                        budget as nat) {
                        None => {
                            assert(spec_encode_words(tail, eax0, budget as nat) is None);
                        },
                        Some(rest) => {
                            assert(spec_encode_words(tail, eax0, budget as nat) == Some(
                                delta + rest,
                            ));
                            assert(acc + (delta + rest) =~= acc1 + rest);
                        },
                    }
                    acc = acc1;
                }
            },
            Err(_) => {
                proof {
                    assert(spec_encode_words(tail, eax0, budget as nat) is None);
                }
                return Err(EncodeError::UnencodableValue);
            },
        }
        i = i + 1;
    }
    proof {
        assert(w.subrange(n as int, n as int) =~= Seq::<u32>::empty());
        assert(spec_encode_words(Seq::<u32>::empty(), eax, budget as nat) == Some(
            Seq::<OpCode>::empty(),
        ));
        assert(acc + Seq::<OpCode>::empty() =~= acc);
        assert(spec_encode_words(w, 1, budget as nat) == Some(acc));
        assert(Some(output@) == spec_encode_payload(bytes@, budget as nat));
        assert(w.subrange(0, n as int) =~= w);
        lemma_dwords_pushed(bytes@);
        lemma_payload_from_runs(acc, bytes@, eax);
    }
    Ok(output)
}

} // verus!
