//! `InstructionSet`: an ordered, appendable list of instructions that caches
//! its total encoded byte length, with one builder method per opcode family.

use vstd::prelude::*;
use crate::codec::{byte_is_safe, le4, w32, wrap_sub32};
use crate::opcode::{op_bytes, op_safe, Instruction, OpCode};

verus! {

/// Total encoded byte length of an opcode sequence.
pub open spec fn ops_len(ops: Seq<OpCode>) -> int
    decreases ops.len(),
{
    if ops.len() == 0 {
        0
    } else {
        ops_len(ops.drop_last()) + op_bytes(ops.last()).len()
    }
}

/// The concatenated encoding of an opcode sequence.
pub open spec fn set_bytes(ops: Seq<OpCode>) -> Seq<u8>
    decreases ops.len(),
{
    if ops.len() == 0 {
        Seq::empty()
    } else {
        set_bytes(ops.drop_last()) + op_bytes(ops.last())
    }
}

/// Every encoded byte of every opcode lies in the safe alphabet.
pub open spec fn safe_ops(ops: Seq<OpCode>) -> bool {
    forall|i: int| 0 <= i < ops.len() ==> op_safe(#[trigger] ops[i])
}

/// Length distributes over concatenation.
pub proof fn lemma_ops_len_app(a: Seq<OpCode>, b: Seq<OpCode>)
    ensures
        ops_len(a + b) == ops_len(a) + ops_len(b),
    decreases b.len(),
{
    if b.len() == 0 {
        assert(a + b =~= a);
    } else {
        assert((a + b).drop_last() =~= a + b.drop_last());
        lemma_ops_len_app(a, b.drop_last());
    }
}

/// The concatenated encoding is as long as the cached total says.
pub proof fn lemma_set_bytes_len(ops: Seq<OpCode>)
    ensures
        set_bytes(ops).len() == ops_len(ops),
    decreases ops.len(),
{
    if ops.len() > 0 {
        lemma_set_bytes_len(ops.drop_last());
    }
}

/// Total length is between one and five bytes per opcode.
pub proof fn lemma_ops_len_bound(ops: Seq<OpCode>)
    ensures
        ops.len() <= ops_len(ops) <= 5 * ops.len(),
    decreases ops.len(),
{
    if ops.len() > 0 {
        lemma_ops_len_bound(ops.drop_last());
        crate::opcode::lemma_op_bytes_len(ops.last());
    }
}

/// LAW: safety — when every opcode of a sequence is safe (as the solver and
/// encoder guarantee of their outputs), every byte of the emitted machine
/// code lies in the safe alphabet.
pub proof fn lemma_safe_ops_bytes(ops: Seq<OpCode>)
    requires
        safe_ops(ops),
    ensures
        forall|j: int| 0 <= j < set_bytes(ops).len() ==> byte_is_safe(#[trigger] set_bytes(ops)[j]),
    decreases ops.len(),
{
    if ops.len() > 0 {
        assert(safe_ops(ops.drop_last())) by {
            assert(forall|i: int|
                0 <= i < ops.len() - 1 ==> ops.drop_last()[i] == #[trigger] ops[i]);
        }
        lemma_safe_ops_bytes(ops.drop_last());
        assert(op_safe(ops.last()));
        let front = set_bytes(ops.drop_last());
        let back = op_bytes(ops.last());
        assert forall|j: int| 0 <= j < set_bytes(ops).len() implies byte_is_safe(
            #[trigger] set_bytes(ops)[j],
        ) by {
            if j < front.len() {
                assert(set_bytes(ops)[j] == front[j]);
            } else {
                assert(set_bytes(ops)[j] == back[j - front.len()]);
            }
        }
    }
}

/// Safety of encodings carries over concatenation.
pub proof fn lemma_safe_ops_app(a: Seq<OpCode>, b: Seq<OpCode>)
    requires
        safe_ops(a),
        safe_ops(b),
    ensures
        safe_ops(a + b),
{
    assert forall|i: int| 0 <= i < (a + b).len() implies op_safe(#[trigger] (a + b)[i]) by {
        if i < a.len() {
            assert((a + b)[i] == a[i]);
        } else {
            assert((a + b)[i] == b[i - a.len()]);
        }
    }
}

/// An ordered list of generated instructions together with the total length
/// in bytes of their encodings.
#[derive(Debug, Clone)]
pub struct InstructionSet {
    instructions: Vec<Instruction>,
    len: usize,
}

impl View for InstructionSet {
    type V = Seq<OpCode>;

    closed spec fn view(&self) -> Seq<OpCode> {
        self.instructions@.map(|i: int, ins: Instruction| ins@)
    }
}

impl InstructionSet {
    /// The cached length matches the instructions held, and each instruction
    /// carries its true encoding.
    pub closed spec fn wf(self) -> bool {
        &&& self.len == ops_len(self@)
        &&& forall|i: int| 0 <= i < self.instructions@.len() ==> (#[trigger] self.instructions@[i]).wf()
    }

    /// Creates a new, empty set.
    pub fn new() -> (r: Self)
        ensures
            r@ =~= Seq::<OpCode>::empty(),
            r.wf(),
    {
        let r = Self { len: 0, instructions: Vec::new() };
        proof {
            assert(r@ =~= Seq::<OpCode>::empty());
        }
        r
    }

    /// Appends all instructions of `other`, preserving order and length.
    pub fn extend(&mut self, other: Self)
        requires
            old(self).wf(),
            other.wf(),
            ops_len(old(self)@) + ops_len(other@) <= usize::MAX,
        ensures
            final(self).wf(),
            final(self)@ == old(self)@ + other@,
    {
        proof {
            lemma_ops_len_app(self@, other@);
        }
        let mut o = other;
        self.len = self.len + o.len;
        self.instructions.append(&mut o.instructions);
        proof {
            assert(final(self)@ =~= old(self)@ + other@);
        }
    }

    /// Combines two sets into one, left followed by right.
    pub fn combine(self, other: Self) -> (r: Self)
        requires
            self.wf(),
            other.wf(),
            ops_len(self@) + ops_len(other@) <= usize::MAX,
        ensures
            r.wf(),
            r@ == self@ + other@,
    {
        let mut s = self;
        s.extend(other);
        s
    }

    /// Appends one instruction.
    pub fn push(&mut self, instruction: Instruction)
        requires
            old(self).wf(),
            instruction.wf(),
            ops_len(old(self)@) + 5 <= usize::MAX,
        ensures
            final(self).wf(),
            final(self)@ == old(self)@.push(instruction@),
    {
        proof {
            crate::opcode::lemma_op_bytes_len(instruction@);
        }
        self.len = self.len + instruction.len();
        self.instructions.push(instruction);
        proof {
            assert(final(self)@ =~= old(self)@.push(instruction@));
            assert(final(self)@.drop_last() =~= old(self)@);
        }
    }

    /// Total length in bytes of the encoded instructions.
    pub fn len(&self) -> (r: usize)
        requires
            self.wf(),
        ensures
            r == ops_len(self@),
    {
        self.len
    }

    /// Number of instructions held.
    pub fn count(&self) -> (r: usize)
        ensures
            r == self@.len(),
    {
        self.instructions.len()
    }

    /// The instruction at position `i`.
    pub fn instruction_at(&self, i: usize) -> (r: &Instruction)
        requires
            self.wf(),
            i < self@.len(),
        ensures
            r@ == self@[i as int],
            r.wf(),
    {
        &self.instructions[i]
    }

    /// Appends the instruction for one opcode.
    fn emit(&mut self, op: OpCode)
        requires
            old(self).wf(),
            ops_len(old(self)@) + 5 <= usize::MAX,
        ensures
            final(self).wf(),
            final(self)@ == old(self)@.push(op),
    {
        self.push(Instruction::construct(op));
    }

    /// The safe-alphabet equivalent of `mov eax, 0`: set the accumulator to
    /// one, then decrement it.
    pub fn zero_eax(&mut self)
        requires
            old(self).wf(),
            ops_len(old(self)@) + 15 <= usize::MAX,
        ensures
            final(self).wf(),
            final(self)@ == old(self)@ + seq![
                OpCode::Push8(1),
                OpCode::PopEax,
                OpCode::DecEax,
            ],
    {
        self.push8(1);
        proof {
            assert(self@.drop_last() =~= old(self)@);
        }
        self.pop_eax();
        proof {
            assert(self@.drop_last() =~= old(self)@.push(OpCode::Push8(1)));
            assert(self@.drop_last().drop_last() =~= old(self)@);
        }
        self.dec_eax();
        proof {
            assert(final(self)@ =~= old(self)@ + seq![
                OpCode::Push8(1),
                OpCode::PopEax,
                OpCode::DecEax,
            ]);
        }
    }

    /// The safe-alphabet equivalent of `mov eax, 1`: push an immediate one
    /// and pop it into the accumulator.
    pub fn one_eax(&mut self)
        requires
            old(self).wf(),
            ops_len(old(self)@) + 10 <= usize::MAX,
        ensures
            final(self).wf(),
            final(self)@ == old(self)@ + seq![OpCode::Push8(1), OpCode::PopEax],
    {
        self.push8(1);
        proof {
            assert(self@.drop_last() =~= old(self)@);
        }
        self.pop_eax();
        proof {
            assert(final(self)@ =~= old(self)@ + seq![OpCode::Push8(1), OpCode::PopEax]);
        }
    }

    /// The raw (unwrapped) byte sequence of a near jump from `eip` by the
    /// displacement that reaches `jmp`.
    pub fn create_far_jump(jmp: u32, eip: u32) -> (r: Vec<u8>)
        ensures
            r@ == jump_bytes(jmp as int, eip as int),
    {
        let offset = wrap_sub32(jmp, eip);
        let mut code = crate::codec::get_full_bytes32(offset);
        code.insert(0, 0xe9);
        proof {
            assert(code@ =~= jump_bytes(jmp as int, eip as int));
        }
        code
    }

    /// Push the accumulator; the operand records the value for display only.
    pub fn push_eax(&mut self, eax: Option<u32>)
        requires
            old(self).wf(),
            ops_len(old(self)@) + 5 <= usize::MAX,
        ensures
            final(self).wf(),
            final(self)@ == old(self)@.push(OpCode::PushEax(eax)),
    {
        self.emit(OpCode::PushEax(eax));
    }

    /// Push the low 16 bits of the accumulator.
    pub fn push_ax(&mut self, eax: Option<u16>)
        requires
            old(self).wf(),
            ops_len(old(self)@) + 5 <= usize::MAX,
        ensures
            final(self).wf(),
            final(self)@ == old(self)@.push(OpCode::PushAx(eax)),
    {
        self.emit(OpCode::PushAx(eax));
    }

    /// Add a 32-bit immediate to the accumulator.
    pub fn add_eax(&mut self, val: u32)
        requires
            old(self).wf(),
            ops_len(old(self)@) + 5 <= usize::MAX,
        ensures
            final(self).wf(),
            final(self)@ == old(self)@.push(OpCode::AddEax(val)),
    {
        self.emit(OpCode::AddEax(val));
    }

    /// Add a 16-bit immediate to the low lane of the accumulator.
    pub fn add_ax(&mut self, val: u16)
        requires
            old(self).wf(),
            ops_len(old(self)@) + 5 <= usize::MAX,
        ensures
            final(self).wf(),
            final(self)@ == old(self)@.push(OpCode::AddAx(val)),
    {
        self.emit(OpCode::AddAx(val));
    }

    /// Add an 8-bit immediate to the low lane of the accumulator.
    pub fn add_al(&mut self, val: u8)
        requires
            old(self).wf(),
            ops_len(old(self)@) + 5 <= usize::MAX,
        ensures
            final(self).wf(),
            final(self)@ == old(self)@.push(OpCode::AddAl(val)),
    {
        self.emit(OpCode::AddAl(val));
    }

    /// Subtract a 32-bit immediate from the accumulator.
    pub fn sub_eax(&mut self, val: u32)
        requires
            old(self).wf(),
            ops_len(old(self)@) + 5 <= usize::MAX,
        ensures
            final(self).wf(),
            final(self)@ == old(self)@.push(OpCode::SubEax(val)),
    {
        self.emit(OpCode::SubEax(val));
    }

    /// Subtract a 16-bit immediate from the low lane of the accumulator.
    pub fn sub_ax(&mut self, val: u16)
        requires
            old(self).wf(),
            ops_len(old(self)@) + 5 <= usize::MAX,
        ensures
            final(self).wf(),
            final(self)@ == old(self)@.push(OpCode::SubAx(val)),
    {
        self.emit(OpCode::SubAx(val));
    }

    /// Subtract an 8-bit immediate from the low lane of the accumulator.
    pub fn sub_al(&mut self, val: u8)
        requires
            old(self).wf(),
            ops_len(old(self)@) + 5 <= usize::MAX,
        ensures
            final(self).wf(),
            final(self)@ == old(self)@.push(OpCode::SubAl(val)),
    {
        self.emit(OpCode::SubAl(val));
    }

    /// Push a 32-bit immediate.  The immediate is emitted as given: no
    /// safe-alphabet wrapping is applied here.
    pub fn push32(&mut self, val: u32)
        requires
            old(self).wf(),
            ops_len(old(self)@) + 5 <= usize::MAX,
        ensures
            final(self).wf(),
            final(self)@ == old(self)@.push(OpCode::Push32(val)),
    {
        self.emit(OpCode::Push32(val));
    }

    /// Push a 16-bit immediate (two bytes on the stack).
    pub fn push16(&mut self, val: u16)
        requires
            old(self).wf(),
            ops_len(old(self)@) + 5 <= usize::MAX,
        ensures
            final(self).wf(),
            final(self)@ == old(self)@.push(OpCode::Push16(val)),
    {
        self.emit(OpCode::Push16(val));
    }

    /// Push an 8-bit immediate (sign-extended to a dword on the stack).
    pub fn push8(&mut self, val: u8)
        requires
            old(self).wf(),
            ops_len(old(self)@) + 5 <= usize::MAX,
        ensures
            final(self).wf(),
            final(self)@ == old(self)@.push(OpCode::Push8(val)),
    {
        self.emit(OpCode::Push8(val));
    }

    /// Push the stack pointer.
    pub fn push_esp(&mut self)
        requires
            old(self).wf(),
            ops_len(old(self)@) + 5 <= usize::MAX,
        ensures
            final(self).wf(),
            final(self)@ == old(self)@.push(OpCode::PushEsp),
    {
        self.emit(OpCode::PushEsp);
    }

    /// Pop the top dword into the stack pointer.
    pub fn pop_esp(&mut self)
        requires
            old(self).wf(),
            ops_len(old(self)@) + 5 <= usize::MAX,
        ensures
            final(self).wf(),
            final(self)@ == old(self)@.push(OpCode::PopEsp),
    {
        self.emit(OpCode::PopEsp);
    }

    /// Pop the top dword into the accumulator.
    pub fn pop_eax(&mut self)
        requires
            old(self).wf(),
            ops_len(old(self)@) + 5 <= usize::MAX,
        ensures
            final(self).wf(),
            final(self)@ == old(self)@.push(OpCode::PopEax),
    {
        self.emit(OpCode::PopEax);
    }

    /// Decrement the accumulator.
    pub fn dec_eax(&mut self)
        requires
            old(self).wf(),
            ops_len(old(self)@) + 5 <= usize::MAX,
        ensures
            final(self).wf(),
            final(self)@ == old(self)@.push(OpCode::DecEax),
    {
        self.emit(OpCode::DecEax);
    }
}

/// The raw bytes of a near jump: opcode `0xE9` followed by the little-endian
/// 32-bit displacement `jmp - eip` (wrapping).
pub open spec fn jump_bytes(jmp: int, eip: int) -> Seq<u8> {
    seq![0xe9u8] + le4(w32(jmp - eip))
}

} // verus!
