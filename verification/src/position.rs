//! Stack-pointer positioning and far-jump generation, both sized by fixpoint
//! iteration: the generated code's length is an input of the value it must
//! encode, and an output of encoding that value, so candidate lengths are
//! recomputed until assumed and actual length agree.

use vstd::prelude::*;
use crate::codec::{dwords, le4, padded, w32, word4};
use crate::encode::{
    encode_payload, lemma_payload_good_use, payload_good, spec_encode_payload,
};
use crate::instructions::{
    jump_bytes, lemma_ops_len_app, lemma_ops_len_bound, lemma_safe_ops_app, ops_len, safe_ops,
    InstructionSet,
};
use crate::opcode::{op_bytes, op_safe, OpCode};
use crate::select::{spec_wrap, wrap};
use crate::sim::{
    cand_good, exec_op, exec_ops, lemma_cand_good_use, lemma_exec_ops_app, lemma_word4_prefix,
    sim_wf, SimState,
};
use crate::EncodeError;

verus! {

/// How many sizing iterations a fixpoint loop attempts before reporting
/// non-convergence.
pub const FIXPOINT_CAP: u32 = 32;

/// The value the stack pointer must take after the positioning code: past
/// the instruction pointer, the rest of the positioning code, and the
/// trailing payload.
pub open spec fn position_target(eip: u32, last: int, payload: int) -> int {
    w32(eip + last + 4 + payload)
}

/// The fixpoint search for the positioning arithmetic: assume a length,
/// encode the target that length implies, and accept when the encoded length
/// matches the assumption.
pub open spec fn spec_position_fix(
    esp: u32,
    eip: u32,
    payload: int,
    budget: nat,
    last: int,
    fuel: nat,
) -> Result<Seq<OpCode>, EncodeError>
    decreases fuel,
{
    if fuel == 0 {
        Err(EncodeError::NonConvergent)
    } else {
        match spec_wrap(position_target(eip, last, payload) as u32, esp, budget) {
            None => Err(EncodeError::UnencodableValue),
            Some(ops) => if ops_len(ops) == last {
                Ok(ops)
            } else {
                spec_position_fix(esp, eip, payload, budget, ops_len(ops), (fuel - 1) as nat)
            },
        }
    }
}

/// The full positioning code: capture the stack pointer, rewrite it with the
/// converged arithmetic, and restore it.
pub open spec fn spec_position_ops(esp: u32, eip: u32, payload: int, budget: nat) -> Result<
    Seq<OpCode>,
    EncodeError,
> {
    match spec_position_fix(esp, eip, payload, budget, 0, FIXPOINT_CAP as nat) {
        Ok(arith) => Ok(
            seq![OpCode::PushEsp, OpCode::PopEax] + arith + seq![
                OpCode::PushEax(None),
                OpCode::PopEsp,
            ],
        ),
        Err(e) => Err(e),
    }
}

/// What positioning code does at runtime: from any well-formed state whose
/// stack pointer holds `esp`, it ends with both the accumulator and the
/// stack pointer at `fesp` and the stack unchanged.
#[verifier::opaque]
pub open spec fn position_good(ops: Seq<OpCode>, esp: u32, fesp: u32) -> bool {
    forall|s: SimState|
        sim_wf(s) && s.esp == esp ==> #[trigger] exec_ops(s, ops) == Some(
            SimState { eax: fesp as int, esp: fesp as int, stack: s.stack },
        )
}

/// Uses positioning code on one concrete state.
pub proof fn lemma_position_good_use(ops: Seq<OpCode>, esp: u32, fesp: u32, s: SimState)
    requires
        position_good(ops, esp, fesp),
        sim_wf(s),
        s.esp == esp,
    ensures
        exec_ops(s, ops) == Some(SimState { eax: fesp as int, esp: fesp as int, stack: s.stack }),
{
    reveal(position_good);
}

/// Capturing the stack pointer into the accumulator leaves the rest alone.
proof fn lemma_capture_esp(s: SimState)
    requires
        sim_wf(s),
    ensures
        exec_ops(s, seq![OpCode::PushEsp, OpCode::PopEax]) == Some(
            SimState { eax: s.esp, esp: s.esp, stack: s.stack },
        ),
{
    let pre = seq![OpCode::PushEsp, OpCode::PopEax];
    assert(pre.first() == OpCode::PushEsp);
    let m1 = SimState { eax: s.eax, esp: s.esp, stack: le4(s.esp) + s.stack };
    assert(exec_op(s, pre.first()) == Some(m1));
    assert(pre.drop_first() =~= seq![OpCode::PopEax]);
    crate::codec::lemma_word4_le4(s.esp);
    lemma_word4_prefix(le4(s.esp), s.stack);
    assert(m1.stack.len() >= 4);
    let m2 = SimState { eax: s.esp, esp: s.esp, stack: s.stack };
    assert(exec_op(m1, OpCode::PopEax) == Some(
        SimState { eax: word4(m1.stack), esp: m1.esp, stack: m1.stack.skip(4) },
    ));
    assert(word4(m1.stack) == s.esp);
    assert(m1.stack.skip(4) == s.stack);
    assert(seq![OpCode::PopEax].drop_first() =~= Seq::<OpCode>::empty());
    assert(exec_ops(m2, Seq::<OpCode>::empty()) == Some(m2));
    assert(exec_ops(m1, seq![OpCode::PopEax]) == Some(m2));
    assert(exec_ops(s, pre) == Some(m2));
}

/// Restoring the accumulator into the stack pointer leaves the rest alone.
proof fn lemma_store_esp(s: SimState)
    requires
        sim_wf(s),
    ensures
        exec_ops(s, seq![OpCode::PushEax(None), OpCode::PopEsp]) == Some(
            SimState { eax: s.eax, esp: s.eax, stack: s.stack },
        ),
{
    let post = seq![OpCode::PushEax(None), OpCode::PopEsp];
    assert(post.first() == OpCode::PushEax(None));
    let m1 = SimState { eax: s.eax, esp: s.esp, stack: le4(s.eax) + s.stack };
    assert(exec_op(s, post.first()) == Some(m1));
    assert(post.drop_first() =~= seq![OpCode::PopEsp]);
    crate::codec::lemma_word4_le4(s.eax);
    lemma_word4_prefix(le4(s.eax), s.stack);
    assert(m1.stack.len() >= 4);
    let m2 = SimState { eax: s.eax, esp: s.eax, stack: s.stack };
    assert(exec_op(m1, OpCode::PopEsp) == Some(
        SimState { eax: m1.eax, esp: word4(m1.stack), stack: m1.stack.skip(4) },
    ));
    assert(word4(m1.stack) == s.eax);
    assert(m1.stack.skip(4) == s.stack);
    assert(seq![OpCode::PopEsp].drop_first() =~= Seq::<OpCode>::empty());
    assert(exec_ops(m2, Seq::<OpCode>::empty()) == Some(m2));
    assert(exec_ops(m1, seq![OpCode::PopEsp]) == Some(m2));
    assert(exec_ops(s, post) == Some(m2));
}

/// Wrapping converged arithmetic in the capture/restore pair repositions the
/// stack pointer to the arithmetic's target.
proof fn lemma_position_exec(arith: Seq<OpCode>, esp: u32, t: u32)
    requires
        cand_good(arith, t, esp),
    ensures
        position_good(
            seq![OpCode::PushEsp, OpCode::PopEax] + arith + seq![
                OpCode::PushEax(None),
                OpCode::PopEsp,
            ],
            esp,
            t,
        ),
{
    reveal(position_good);
    let pre = seq![OpCode::PushEsp, OpCode::PopEax];
    let post = seq![OpCode::PushEax(None), OpCode::PopEsp];
    let ops = pre + arith + post;
    assert forall|s: SimState| sim_wf(s) && s.esp == esp implies #[trigger] exec_ops(s, ops)
        == Some(SimState { eax: t as int, esp: t as int, stack: s.stack }) by {
        assert(ops =~= pre + (arith + post));
        lemma_exec_ops_app(s, pre, arith + post);
        lemma_capture_esp(s);
        let m2 = SimState { eax: s.esp, esp: s.esp, stack: s.stack };
        assert(exec_ops(s, pre) == Some(m2));
        assert(sim_wf(m2));
        lemma_exec_ops_app(m2, arith, post);
        lemma_cand_good_use(arith, t, esp, m2);
        let m3 = SimState { eax: t as int, esp: s.esp, stack: s.stack };
        assert(exec_ops(m2, arith) == Some(m3));
        assert(sim_wf(m3));
        lemma_store_esp(m3);
        assert(exec_ops(m3, post) == Some(
            SimState { eax: t as int, esp: t as int, stack: s.stack },
        ));
        assert(exec_ops(s, pre + (arith + post)) == Some(
            SimState { eax: t as int, esp: t as int, stack: s.stack },
        ));
    }
}

/// The capture/restore pairs are two bytes each.
proof fn lemma_frame_lens()
    ensures
        ops_len(seq![OpCode::PushEsp, OpCode::PopEax]) == 2,
        ops_len(seq![OpCode::PushEax(None), OpCode::PopEsp]) == 2,
{
    let pre = seq![OpCode::PushEsp, OpCode::PopEax];
    let post = seq![OpCode::PushEax(None), OpCode::PopEsp];
    assert(ops_len(Seq::<OpCode>::empty()) == 0);
    assert(pre.drop_last() =~= seq![OpCode::PushEsp]);
    assert(seq![OpCode::PushEsp].drop_last() =~= Seq::<OpCode>::empty());
    assert(ops_len(seq![OpCode::PushEsp]) == 1);
    assert(pre.last() == OpCode::PopEax);
    assert(op_bytes(OpCode::PopEax).len() == 1);
    assert(ops_len(pre) == 2);
    assert(post.drop_last() =~= seq![OpCode::PushEax(None)]);
    assert(seq![OpCode::PushEax(None)].drop_last() =~= Seq::<OpCode>::empty());
    assert(ops_len(seq![OpCode::PushEax(None)]) == 1);
    assert(post.last() == OpCode::PopEsp);
    assert(op_bytes(OpCode::PopEsp).len() == 1);
    assert(ops_len(post) == 2);
}

/// The capture and restore opcodes are safe.
proof fn lemma_safe_frame()
    ensures
        op_safe(OpCode::PushEsp),
        op_safe(OpCode::PopEax),
        op_safe(OpCode::PushEax(None)),
        op_safe(OpCode::PopEsp),
{
    assert forall|j: int|
        0 <= j < op_bytes(OpCode::PushEsp).len() implies crate::codec::byte_is_safe(
        #[trigger] op_bytes(OpCode::PushEsp)[j],
    ) by {}
    assert forall|j: int|
        0 <= j < op_bytes(OpCode::PopEax).len() implies crate::codec::byte_is_safe(
        #[trigger] op_bytes(OpCode::PopEax)[j],
    ) by {}
    assert forall|j: int|
        0 <= j < op_bytes(OpCode::PushEax(None)).len() implies crate::codec::byte_is_safe(
        #[trigger] op_bytes(OpCode::PushEax(None))[j],
    ) by {}
    assert forall|j: int|
        0 <= j < op_bytes(OpCode::PopEsp).len() implies crate::codec::byte_is_safe(
        #[trigger] op_bytes(OpCode::PopEsp)[j],
    ) by {}
}

impl InstructionSet {
    /// Appends code that, at runtime, repositions the stack pointer to the
    /// address just past this code and a trailing payload of
    /// `payload_size` bytes: it captures the stack pointer, rewrites it to
    /// `eip + 4 + payload_size + L` (where `L` is the length of the
    /// rewriting arithmetic itself, found by fixpoint iteration), and
    /// restores it.  Appends nothing on failure.
    #[verifier::rlimit(100)]
    pub fn position(&mut self, esp: u32, eip: u32, payload_size: usize, budget: usize) -> (r:
        Result<(), EncodeError>)
        requires
            old(self).wf(),
            ops_len(old(self)@) + 200 <= usize::MAX,
            payload_size <= 0xffff_ffff,
        ensures
            final(self).wf(),
            match r {
                Ok(()) => {
                    &&& spec_position_ops(esp, eip, payload_size as int, budget as nat)
                        matches Ok(ops) && final(self)@ == old(self)@ + ops && safe_ops(ops)
                        && ops.len() <= 16 && position_good(
                        ops,
                        esp,
                        w32(eip + ops_len(ops) + payload_size) as u32,
                    )
                },
                Err(e) => {
                    &&& final(self)@ == old(self)@
                    &&& spec_position_ops(esp, eip, payload_size as int, budget as nat) == Err::<
                        Seq<OpCode>,
                        EncodeError,
                    >(e)
                },
            },
    {
        let ghost whole = spec_position_fix(
            esp,
            eip,
            payload_size as int,
            budget as nat,
            0,
            FIXPOINT_CAP as nat,
        );
        let mut last: usize = 0;
        let mut iter: u32 = 0;
        while iter < FIXPOINT_CAP
            invariant
                old(self).wf(),
                self@ == old(self)@,
                self.wf(),
                ops_len(old(self)@) + 200 <= usize::MAX,
                payload_size <= 0xffff_ffff,
                iter <= FIXPOINT_CAP,
                last <= 60,
                whole == spec_position_fix(
                    esp,
                    eip,
                    payload_size as int,
                    budget as nat,
                    0,
                    FIXPOINT_CAP as nat,
                ),
                spec_position_fix(
                    esp,
                    eip,
                    payload_size as int,
                    budget as nat,
                    last as int,
                    (FIXPOINT_CAP - iter) as nat,
                ) == whole,
            decreases FIXPOINT_CAP - iter,
        {
            let t: u32 = ((eip as u64 + last as u64 + 4 + payload_size as u64) % 0x1_0000_0000)
                as u32;
            proof {
                assert(t as int == position_target(eip, last as int, payload_size as int));
            }
            match wrap(t, esp, budget) {
                Err(e) => {
                    return Err(e);
                },
                Ok(c) => {
                    let clen = c.len();
                    proof {
                        lemma_ops_len_bound(c@);
                    }
                    if clen == last {
                        let mut full = InstructionSet::new();
                        proof {
                            assert(ops_len(full@) == 0);
                        }
                        full.push_esp();
                        proof {
                            lemma_ops_len_bound(full@);
                        }
                        full.pop_eax();
                        proof {
                            assert(full@ =~= seq![OpCode::PushEsp, OpCode::PopEax]);
                            lemma_ops_len_bound(full@);
                        }
                        full.extend(c);
                        proof {
                            lemma_ops_len_app(seq![OpCode::PushEsp, OpCode::PopEax], c@);
                            lemma_ops_len_bound(full@);
                        }
                        full.push_eax(None);
                        proof {
                            lemma_ops_len_bound(full@);
                        }
                        full.pop_esp();
                        let ghost arith = c@;
                        let ghost ops = seq![OpCode::PushEsp, OpCode::PopEax] + arith + seq![
                            OpCode::PushEax(None),
                            OpCode::PopEsp,
                        ];
                        proof {
                            assert(full@ =~= ops);
                            lemma_position_exec(arith, esp, t);
                            lemma_safe_frame();
                            assert(safe_ops(seq![OpCode::PushEsp, OpCode::PopEax]));
                            assert(safe_ops(seq![OpCode::PushEax(None), OpCode::PopEsp]));
                            lemma_safe_ops_app(seq![OpCode::PushEsp, OpCode::PopEax], arith);
                            lemma_safe_ops_app(
                                seq![OpCode::PushEsp, OpCode::PopEax] + arith,
                                seq![OpCode::PushEax(None), OpCode::PopEsp],
                            );
                            lemma_ops_len_app(seq![OpCode::PushEsp, OpCode::PopEax], arith);
                            lemma_ops_len_app(
                                seq![OpCode::PushEsp, OpCode::PopEax] + arith,
                                seq![OpCode::PushEax(None), OpCode::PopEsp],
                            );
                            lemma_frame_lens();
                            assert(ops_len(ops) == 4 + last);
                            assert(t as int == position_target(
                                eip,
                                last as int,
                                payload_size as int,
                            ));
                            assert(t as int == w32(eip + ops_len(ops) + payload_size));
                            lemma_ops_len_bound(ops);
                        }
                        self.extend(full);
                        return Ok(());
                    }
                    last = clen;
                },
            }
            iter = iter + 1;
        }
        Err(EncodeError::NonConvergent)
    }
}

/// Positioning code alone: repositions the stack pointer to the first byte
/// after the generated code itself.
pub fn generate_position(esp: u32, eip: u32, budget: usize) -> (r: Result<
    InstructionSet,
    EncodeError,
>)
    ensures
        match r {
            Ok(is) => {
                &&& is.wf()
                &&& Ok::<Seq<OpCode>, EncodeError>(is@) == spec_position_ops(
                    esp,
                    eip,
                    0,
                    budget as nat,
                )
                &&& safe_ops(is@)
                &&& position_good(is@, esp, w32(eip + ops_len(is@)) as u32)
            },
            Err(e) => spec_position_ops(esp, eip, 0, budget as nat) == Err::<
                Seq<OpCode>,
                EncodeError,
            >(e),
        },
{
    let mut out = InstructionSet::new();
    proof {
        assert(ops_len(out@) == 0);
    }
    match out.position(esp, eip, 0, budget) {
        Ok(()) => {
            proof {
                assert(out@ =~= spec_position_ops(esp, eip, 0, budget as nat).unwrap());
            }
            Ok(out)
        },
        Err(e) => Err(e),
    }
}

/// What deployed code does at runtime: from any well-formed state whose
/// stack pointer holds `esp`, it deposits the padded payload on the stack
/// and leaves the stack pointer at `fesp`.
#[verifier::opaque]
pub open spec fn deploy_good(ops: Seq<OpCode>, bytes: Seq<u8>, esp: u32, fesp: u32) -> bool {
    forall|s: SimState|
        sim_wf(s) && s.esp == esp ==> (#[trigger] exec_ops(s, ops) matches Some(t) && t.esp
            == fesp as int && t.stack == padded(bytes) + s.stack)
}

/// Uses deployed code on one concrete state.
pub proof fn lemma_deploy_good_use(ops: Seq<OpCode>, bytes: Seq<u8>, esp: u32, fesp: u32, s: SimState)
    requires
        deploy_good(ops, bytes, esp, fesp),
        sim_wf(s),
        s.esp == esp,
    ensures
        exec_ops(s, ops) matches Some(t) && t.esp == fesp as int && t.stack == padded(bytes)
            + s.stack,
{
    reveal(deploy_good);
}

/// Positioning code followed by an encoded payload deposits the payload just
/// below the repositioned stack pointer.
proof fn lemma_deploy(pos: Seq<OpCode>, pl: Seq<OpCode>, bytes: Seq<u8>, esp: u32, t: u32)
    requires
        position_good(pos, esp, t),
        payload_good(pl, bytes),
    ensures
        deploy_good(pos + pl, bytes, esp, t),
{
    reveal(deploy_good);
    assert forall|s: SimState| sim_wf(s) && s.esp == esp implies (#[trigger] exec_ops(s, pos + pl)
        matches Some(u) && u.esp == t as int && u.stack == padded(bytes) + s.stack) by {
        lemma_exec_ops_app(s, pos, pl);
        lemma_position_good_use(pos, esp, t, s);
        let m = SimState { eax: t as int, esp: t as int, stack: s.stack };
        assert(sim_wf(m));
        lemma_payload_good_use(pl, bytes, m);
    }
}

/// What generating position-plus-payload returns.
pub open spec fn spec_position_and_payload(
    bytes: Seq<u8>,
    esp: u32,
    eip: u32,
    budget: nat,
) -> Result<Seq<OpCode>, EncodeError> {
    match spec_encode_payload(bytes, budget) {
        None => Err(EncodeError::UnencodableValue),
        Some(pl) => match spec_position_ops(
            esp,
            eip,
            padded(bytes).len() + ops_len(pl),
            budget,
        ) {
            Err(e) => Err(e),
            Ok(pos) => Ok(pos + pl),
        },
    }
}

/// Positioning code followed by the encoded payload: at runtime the pushed
/// payload lands in the `padded-length` bytes just past the whole generated
/// code, and the stack pointer ends just past the payload.
pub fn generate_position_and_payload(bytes: &Vec<u8>, esp: u32, eip: u32, budget: usize) -> (r:
    Result<InstructionSet, EncodeError>)
    requires
        bytes@.len() <= 0x1000_0000,
    ensures
        match r {
            Ok(is) => {
                &&& is.wf()
                &&& Ok::<Seq<OpCode>, EncodeError>(is@) == spec_position_and_payload(
                    bytes@,
                    esp,
                    eip,
                    budget as nat,
                )
                &&& safe_ops(is@)
                &&& deploy_good(
                    is@,
                    bytes@,
                    esp,
                    w32(eip + ops_len(is@) + padded(bytes@).len()) as u32,
                )
            },
            Err(e) => spec_position_and_payload(bytes@, esp, eip, budget as nat) == Err::<
                Seq<OpCode>,
                EncodeError,
            >(e),
        },
{
    let wrapped = match encode_payload(bytes, budget) {
        Ok(w) => w,
        Err(e) => {
            return Err(e);
        },
    };
    let rem = bytes.len() % 4;
    let unpack_len: usize = if rem == 0 {
        bytes.len()
    } else {
        bytes.len() + (4 - rem)
    };
    proof {
        assert(unpack_len == padded(bytes@).len());
        assert(dwords(bytes@).len() * 4 == padded(bytes@).len()) by {
            crate::encode::lemma_dwords_len(bytes@);
        }
    }
    proof {
        lemma_ops_len_bound(wrapped@);
        assert(dwords(bytes@).len() <= 0x4000001);
        assert(ops_len(wrapped@) <= 10 + 55 * 0x4000001);
    }
    let total = wrapped.len() + unpack_len;
    let mut out = InstructionSet::new();
    proof {
        assert(ops_len(out@) == 0);
    }
    match out.position(esp, eip, total, budget) {
        Ok(()) => {
            let ghost pos = spec_position_ops(
                esp,
                eip,
                total as int,
                budget as nat,
            ).unwrap();
            proof {
                assert(out@ =~= pos);
                lemma_ops_len_bound(pos);
                lemma_ops_len_app(pos, wrapped@);
                lemma_safe_ops_app(pos, wrapped@);
                lemma_deploy(
                    pos,
                    wrapped@,
                    bytes@,
                    esp,
                    w32(eip + ops_len(pos) + total) as u32,
                );
                assert(w32(eip + ops_len(pos) + total) == w32(
                    eip + ops_len(pos + wrapped@) + padded(bytes@).len(),
                ));
            }
            let final_out = out.combine(wrapped);
            Ok(final_out)
        },
        Err(e) => Err(e),
    }
}

/// The fixpoint search for a far jump: assume a total generated length,
/// derive the jump displacement and its encoding, and accept when the
/// generated length matches the assumption.  A length that repeats two
/// iterations back oscillates and is reported as non-convergent.
pub open spec fn spec_far_jump_fix(
    esp: u32,
    eip: u32,
    target: u32,
    budget: nat,
    last: int,
    last2: int,
    fuel: nat,
) -> Result<Seq<OpCode>, EncodeError>
    decreases fuel,
{
    if fuel == 0 {
        Err(EncodeError::NonConvergent)
    } else {
        let jc = jump_bytes(target as int, w32(eip + last + 5));
        match spec_encode_payload(jc, budget) {
            None => Err(EncodeError::UnencodableValue),
            Some(pl) => match spec_position_ops(esp, eip, 8 + ops_len(pl), budget) {
                Err(e) => Err(e),
                Ok(pos) => {
                    let newk = ops_len(pos) + ops_len(pl);
                    if newk == last {
                        Ok(pos + pl)
                    } else if newk == last2 {
                        Err(EncodeError::NonConvergent)
                    } else {
                        spec_far_jump_fix(esp, eip, target, budget, newk, last, (fuel - 1) as nat)
                    }
                },
            },
        }
    }
}

/// What far-jump generation returns: the fixpoint under the given budget,
/// with one controlled relaxation to the baseline-only strategies when the
/// sized search does not converge.
pub open spec fn spec_generate_far_jump(esp: u32, eip: u32, target: u32, budget: nat) -> Result<
    Seq<OpCode>,
    EncodeError,
> {
    match spec_far_jump_fix(esp, eip, target, budget, 0, 0, FIXPOINT_CAP as nat) {
        Ok(ops) => Ok(ops),
        Err(e) => if e == EncodeError::NonConvergent && budget > 0 {
            spec_far_jump_fix(esp, eip, target, 0, 0, 0, FIXPOINT_CAP as nat)
        } else {
            Err(e)
        },
    }
}

/// One fixpoint attempt at the far jump, without relaxation.
#[verifier::rlimit(100)]
fn far_jump_attempt(esp: u32, eip: u32, target: u32, budget: usize) -> (r: Result<
    InstructionSet,
    EncodeError,
>)
    ensures
        match r {
            Ok(is) => {
                &&& is.wf()
                &&& Ok::<Seq<OpCode>, EncodeError>(is@) == spec_far_jump_fix(
                    esp,
                    eip,
                    target,
                    budget as nat,
                    0,
                    0,
                    FIXPOINT_CAP as nat,
                )
                &&& safe_ops(is@)
                &&& deploy_good(
                    is@,
                    jump_bytes(target as int, w32(eip + ops_len(is@) + 5)),
                    esp,
                    w32(eip + ops_len(is@) + 8) as u32,
                )
            },
            Err(e) => spec_far_jump_fix(
                esp,
                eip,
                target,
                budget as nat,
                0,
                0,
                FIXPOINT_CAP as nat,
            ) == Err::<Seq<OpCode>, EncodeError>(e),
        },
{
    let ghost whole = spec_far_jump_fix(
        esp,
        eip,
        target,
        budget as nat,
        0,
        0,
        FIXPOINT_CAP as nat,
    );
    let mut last: usize = 0;
    let mut last2: usize = 0;
    let mut iter: u32 = 0;
    while iter < FIXPOINT_CAP
        invariant
            iter <= FIXPOINT_CAP,
            last <= 0xffff,
            last2 <= 0xffff,
            whole == spec_far_jump_fix(
                esp,
                eip,
                target,
                budget as nat,
                0,
                0,
                FIXPOINT_CAP as nat,
            ),
            spec_far_jump_fix(
                esp,
                eip,
                target,
                budget as nat,
                last as int,
                last2 as int,
                (FIXPOINT_CAP - iter) as nat,
            ) == whole,
        decreases FIXPOINT_CAP - iter,
    {
        let base: u32 = ((eip as u64 + last as u64 + 5) % 0x1_0000_0000) as u32;
        let jc = InstructionSet::create_far_jump(target, base);
        proof {
            assert(jc@ == jump_bytes(target as int, w32(eip + last as int + 5)));
            assert(jc@.len() == 5);
        }
        let pl = match encode_payload(&jc, budget) {
            Ok(p) => p,
            Err(e) => {
                return Err(e);
            },
        };
        proof {
            assert(padded(jc@).len() == 8);
            crate::encode::lemma_dwords_len(jc@);
            assert(dwords(jc@).len() == 2);
            assert(ops_len(pl@) <= 120);
        }
        let pl_len = pl.len();
        let mut out = InstructionSet::new();
        proof {
            assert(ops_len(out@) == 0);
        }
        match out.position(esp, eip, 8 + pl_len, budget) {
            Err(e) => {
                return Err(e);
            },
            Ok(()) => {
                let ghost pos = spec_position_ops(
                    esp,
                    eip,
                    8 + pl_len as int,
                    budget as nat,
                ).unwrap();
                proof {
                    assert(out@ =~= pos);
                    lemma_ops_len_bound(pos);
                    assert(pos.len() <= 16);
                    assert(ops_len(pos) <= 80);
                }
                let newk = out.len() + pl_len;
                if newk == last {
                    proof {
                        lemma_ops_len_app(pos, pl@);
                        lemma_safe_ops_app(pos, pl@);
                        lemma_deploy(
                            pos,
                            pl@,
                            jc@,
                            esp,
                            w32(eip + ops_len(pos) + (8 + pl_len)) as u32,
                        );
                        assert(w32(eip + ops_len(pos) + (8 + pl_len)) == w32(
                            eip + ops_len(pos + pl@) + 8,
                        ));
                        assert(w32(eip + last as int + 5) == w32(eip + ops_len(pos + pl@) + 5));
                    }
                    let final_out = out.combine(pl);
                    return Ok(final_out);
                }
                if newk == last2 {
                    return Err(EncodeError::NonConvergent);
                }
                last2 = last;
                last = newk;
                proof {
                    lemma_ops_len_bound(pos);
                    assert(pos.len() <= 16);
                    assert(ops_len(pos) <= 80);
                    assert(newk <= 200);
                }
            },
        }
        iter = iter + 1;
    }
    Err(EncodeError::NonConvergent)
}

/// A safe far jump to an arbitrary target address: positioning code followed
/// by the encoded jump instruction, sized by fixpoint iteration.  At runtime
/// the jump's padded eight bytes land just past the generated code, with the
/// displacement computed from the address after the jump's own five bytes.
pub fn generate_far_jump(esp: u32, eip: u32, target: u32, budget: usize) -> (r: Result<
    InstructionSet,
    EncodeError,
>)
    ensures
        match r {
            Ok(is) => {
                &&& is.wf()
                &&& Ok::<Seq<OpCode>, EncodeError>(is@) == spec_generate_far_jump(
                    esp,
                    eip,
                    target,
                    budget as nat,
                )
                &&& safe_ops(is@)
                &&& deploy_good(
                    is@,
                    jump_bytes(target as int, w32(eip + ops_len(is@) + 5)),
                    esp,
                    w32(eip + ops_len(is@) + 8) as u32,
                )
            },
            Err(e) => spec_generate_far_jump(esp, eip, target, budget as nat) == Err::<
                Seq<OpCode>,
                EncodeError,
            >(e),
        },
{
    match far_jump_attempt(esp, eip, target, budget) {
        Ok(is) => Ok(is),
        Err(e) => {
            if budget > 0 {
                match e {
                    EncodeError::NonConvergent => far_jump_attempt(esp, eip, target, 0),
                    _ => Err(e),
                }
            } else {
                Err(e)
            }
        },
    }
}

} // verus!
