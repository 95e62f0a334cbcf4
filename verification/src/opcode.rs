//! The closed instruction set: opcode variants, their exact byte encodings,
//! and the `Instruction` value object (opcode plus precomputed encoding).

use vstd::prelude::*;
use crate::codec::{le2, le4, byte_is_safe, get_full_bytes16, get_full_bytes32};

verus! {

/// One opcode of the supported 32-bit x86-style subset, with its operand.
/// The `Option` operands of the push-accumulator forms carry only a display
/// hint (the value known to be in the register); they do not affect the
/// encoding.
#[derive(Debug, Clone, Copy, PartialEq, Eq)]
pub enum OpCode {
    Push8(u8),
    Push16(u16),
    Push32(u32),
    PopEax,
    DecEax,
    AddEax(u32),
    AddAx(u16),
    AddAl(u8),
    SubEax(u32),
    SubAx(u16),
    SubAl(u8),
    PushEax(Option<u32>),
    PushAx(Option<u16>),
    PushEsp,
    PopEsp,
}

/// The exact byte encoding of an opcode.
pub open spec fn op_bytes(op: OpCode) -> Seq<u8> {
    match op {
        OpCode::Push8(v) => seq![0x6au8, v],
        OpCode::Push16(v) => seq![0x66u8, 0x68u8] + le2(v as int),
        OpCode::Push32(v) => seq![0x68u8] + le4(v as int),
        OpCode::PopEax => seq![0x58u8],
        OpCode::DecEax => seq![0x48u8],
        OpCode::AddEax(v) => seq![0x05u8] + le4(v as int),
        OpCode::AddAx(v) => seq![0x66u8, 0x05u8] + le2(v as int),
        OpCode::AddAl(v) => seq![0x04u8, v],
        OpCode::SubEax(v) => seq![0x2du8] + le4(v as int),
        OpCode::SubAx(v) => seq![0x66u8, 0x2du8] + le2(v as int),
        OpCode::SubAl(v) => seq![0x2cu8, v],
        OpCode::PushEax(_) => seq![0x50u8],
        OpCode::PushAx(_) => seq![0x66u8, 0x50u8],
        OpCode::PushEsp => seq![0x54u8],
        OpCode::PopEsp => seq![0x5cu8],
    }
}

/// Every byte of the opcode's encoding lies in the safe alphabet.
pub open spec fn op_safe(op: OpCode) -> bool {
    forall|j: int| 0 <= j < op_bytes(op).len() ==> byte_is_safe(#[trigger] op_bytes(op)[j])
}

/// No encoding is longer than five bytes.
pub proof fn lemma_op_bytes_len(op: OpCode)
    ensures
        1 <= op_bytes(op).len() <= 5,
{
}

/// An instruction: an opcode together with its precomputed byte encoding.
#[derive(Debug, Clone)]
pub struct Instruction {
    op: OpCode,
    bytes: Vec<u8>,
}

impl View for Instruction {
    type V = OpCode;

    closed spec fn view(&self) -> OpCode {
        self.op
    }
}

impl Instruction {
    /// The stored encoding matches the opcode's defined encoding.
    pub closed spec fn wf(self) -> bool {
        self.bytes@ == op_bytes(self.op)
    }

    /// Builds the instruction for an opcode, precomputing its encoding.
    pub fn construct(op: OpCode) -> (r: Instruction)
        ensures
            r@ == op,
            r.wf(),
    {
        let bytes: Vec<u8> = match op {
            OpCode::Push8(v) => {
                let mut b: Vec<u8> = Vec::new();
                b.push(0x6a);
                b.push(v);
                proof { assert(b@ =~= op_bytes(op)); }
                b
            },
            OpCode::Push16(v) => {
                let mut b: Vec<u8> = Vec::new();
                b.push(0x66);
                b.push(0x68);
                let mut imm = get_full_bytes16(v);
                b.append(&mut imm);
                proof { assert(b@ =~= op_bytes(op)); }
                b
            },
            OpCode::Push32(v) => {
                let mut b: Vec<u8> = Vec::new();
                b.push(0x68);
                let mut imm = get_full_bytes32(v);
                b.append(&mut imm);
                proof { assert(b@ =~= op_bytes(op)); }
                b
            },
            OpCode::PopEax => {
                let mut b: Vec<u8> = Vec::new();
                b.push(0x58);
                proof { assert(b@ =~= op_bytes(op)); }
                b
            },
            OpCode::DecEax => {
                let mut b: Vec<u8> = Vec::new();
                b.push(0x48);
                proof { assert(b@ =~= op_bytes(op)); }
                b
            },
            OpCode::AddEax(v) => {
                let mut b: Vec<u8> = Vec::new();
                b.push(0x05);
                let mut imm = get_full_bytes32(v);
                b.append(&mut imm);
                proof { assert(b@ =~= op_bytes(op)); }
                b
            },
            OpCode::AddAx(v) => {
                let mut b: Vec<u8> = Vec::new();
                b.push(0x66);
                b.push(0x05);
                let mut imm = get_full_bytes16(v);
                b.append(&mut imm);
                proof { assert(b@ =~= op_bytes(op)); }
                b
            },
            OpCode::AddAl(v) => {
                let mut b: Vec<u8> = Vec::new();
                b.push(0x04);
                b.push(v);
                proof { assert(b@ =~= op_bytes(op)); }
                b
            },
            OpCode::SubEax(v) => {
                let mut b: Vec<u8> = Vec::new();
                b.push(0x2d);
                let mut imm = get_full_bytes32(v);
                b.append(&mut imm);
                proof { assert(b@ =~= op_bytes(op)); }
                b
            },
            OpCode::SubAx(v) => {
                let mut b: Vec<u8> = Vec::new();
                b.push(0x66);
                b.push(0x2d);
                let mut imm = get_full_bytes16(v);
                b.append(&mut imm);
                proof { assert(b@ =~= op_bytes(op)); }
                b
            },
            OpCode::SubAl(v) => {
                let mut b: Vec<u8> = Vec::new();
                b.push(0x2c);
                b.push(v);
                proof { assert(b@ =~= op_bytes(op)); }
                b
            },
            OpCode::PushEax(_) => {
                let mut b: Vec<u8> = Vec::new();
                b.push(0x50);
                proof { assert(b@ =~= op_bytes(op)); }
                b
            },
            OpCode::PushAx(_) => {
                let mut b: Vec<u8> = Vec::new();
                b.push(0x66);
                b.push(0x50);
                proof { assert(b@ =~= op_bytes(op)); }
                b
            },
            OpCode::PushEsp => {
                let mut b: Vec<u8> = Vec::new();
                b.push(0x54);
                proof { assert(b@ =~= op_bytes(op)); }
                b
            },
            OpCode::PopEsp => {
                let mut b: Vec<u8> = Vec::new();
                b.push(0x5c);
                proof { assert(b@ =~= op_bytes(op)); }
                b
            },
        };
        Instruction { op, bytes }
    }

    /// The opcode of this instruction.
    pub fn opcode(&self) -> (r: OpCode)
        ensures
            r == self@,
    {
        self.op
    }

    /// The encoded bytes of this instruction.
    pub fn encoded(&self) -> (r: &Vec<u8>)
        requires
            self.wf(),
        ensures
            r@ == op_bytes(self@),
    {
        &self.bytes
    }

    /// The encoded length of this instruction.
    pub fn len(&self) -> (r: usize)
        requires
            self.wf(),
        ensures
            r == op_bytes(self@).len(),
    {
        self.bytes.len()
    }
}

} // verus!
