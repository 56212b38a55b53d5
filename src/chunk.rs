use crate::value::{Value, ValueModel};
use vstd::prelude::*;

verus! {

/// The most constants that one chunk can hold: an operand byte indexes them.
pub const MAX_CONSTANTS: usize = 256;

/// The operations of the virtual machine.
#[derive(Clone, Copy, Debug, PartialEq, Eq, Structural)]
pub enum OpCode {
    Constant,
    Nil,
    True,
    False,
    Equal,
    Greater,
    Less,
    Add,
    Subtract,
    Multiply,
    Divide,
    Not,
    Negate,
    Return,
}

/// The byte that encodes an operation.
pub open spec fn op_byte(op: OpCode) -> u8 {
    match op {
        OpCode::Constant => 0,
        OpCode::Nil => 1,
        OpCode::True => 2,
        OpCode::False => 3,
        OpCode::Equal => 4,
        OpCode::Greater => 5,
        OpCode::Less => 6,
        OpCode::Add => 7,
        OpCode::Subtract => 8,
        OpCode::Multiply => 9,
        OpCode::Divide => 10,
        OpCode::Not => 11,
        OpCode::Negate => 12,
        OpCode::Return => 13,
    }
}

/// The operation that a byte encodes, if any.
pub open spec fn byte_op(b: u8) -> Option<OpCode> {
    if b == 0 {
        Some(OpCode::Constant)
    } else if b == 1 {
        Some(OpCode::Nil)
    } else if b == 2 {
        Some(OpCode::True)
    } else if b == 3 {
        Some(OpCode::False)
    } else if b == 4 {
        Some(OpCode::Equal)
    } else if b == 5 {
        Some(OpCode::Greater)
    } else if b == 6 {
        Some(OpCode::Less)
    } else if b == 7 {
        Some(OpCode::Add)
    } else if b == 8 {
        Some(OpCode::Subtract)
    } else if b == 9 {
        Some(OpCode::Multiply)
    } else if b == 10 {
        Some(OpCode::Divide)
    } else if b == 11 {
        Some(OpCode::Not)
    } else if b == 12 {
        Some(OpCode::Negate)
    } else if b == 13 {
        Some(OpCode::Return)
    } else {
        None
    }
}

impl OpCode {
    pub fn to_byte(self) -> (r: u8)
        ensures
            r == op_byte(self),
    {
        match self {
            OpCode::Constant => 0,
            OpCode::Nil => 1,
            OpCode::True => 2,
            OpCode::False => 3,
            OpCode::Equal => 4,
            OpCode::Greater => 5,
            OpCode::Less => 6,
            OpCode::Add => 7,
            OpCode::Subtract => 8,
            OpCode::Multiply => 9,
            OpCode::Divide => 10,
            OpCode::Not => 11,
            OpCode::Negate => 12,
            OpCode::Return => 13,
        }
    }

    pub fn from_byte(b: u8) -> (r: Option<OpCode>)
        ensures
            r == byte_op(b),
    {
        match b {
            0 => Some(OpCode::Constant),
            1 => Some(OpCode::Nil),
            2 => Some(OpCode::True),
            3 => Some(OpCode::False),
            4 => Some(OpCode::Equal),
            5 => Some(OpCode::Greater),
            6 => Some(OpCode::Less),
            7 => Some(OpCode::Add),
            8 => Some(OpCode::Subtract),
            9 => Some(OpCode::Multiply),
            10 => Some(OpCode::Divide),
            11 => Some(OpCode::Not),
            12 => Some(OpCode::Negate),
            13 => Some(OpCode::Return),
            _ => None,
        }
    }
}

/// One decoded instruction: an operation, with its operand byte for `Constant`.
#[derive(Clone, Copy, Debug, PartialEq, Eq, Structural)]
pub enum Instruction {
    Constant(u8),
    Simple(OpCode),
}

/// The bytes that encode an instruction.
pub open spec fn encode(ins: Instruction) -> Seq<u8> {
    match ins {
        Instruction::Constant(i) => seq![op_byte(OpCode::Constant), i],
        Instruction::Simple(op) => seq![op_byte(op)],
    }
}

/// An instruction as the compiler writes it: `Constant` always has its operand.
pub open spec fn well_formed_instruction(ins: Instruction) -> bool {
    match ins {
        Instruction::Simple(op) => op != OpCode::Constant,
        Instruction::Constant(_) => true,
    }
}

/// The instruction that starts at `offset`, with the offset just past it; `None`
/// with the next byte's offset where the bytes there encode no instruction.
pub open spec fn decode_at(code: Seq<u8>, offset: int) -> (Option<Instruction>, int) {
    match byte_op(code[offset]) {
        Some(OpCode::Constant) => if offset + 1 < code.len() {
            (Some(Instruction::Constant(code[offset + 1])), offset + 2)
        } else {
            (None, offset + 1)
        },
        Some(op) => (Some(Instruction::Simple(op)), offset + 1),
        None => (None, offset + 1),
    }
}

/// The bytes of a sequence of instructions, one after another.
pub open spec fn encode_all(instrs: Seq<Instruction>) -> Seq<u8>
    decreases instrs.len(),
{
    if instrs.len() == 0 {
        Seq::empty()
    } else {
        encode_all(instrs.drop_last()) + encode(instrs.last())
    }
}

/// The operands of the `Constant` instructions of a sequence, in order.
pub open spec fn constant_operands(instrs: Seq<Instruction>) -> Seq<u8>
    decreases instrs.len(),
{
    if instrs.len() == 0 {
        Seq::empty()
    } else {
        match instrs.last() {
            Instruction::Constant(i) => constant_operands(instrs.drop_last()).push(i),
            Instruction::Simple(_) => constant_operands(instrs.drop_last()),
        }
    }
}

/// `0, 1, ..., n - 1`: each constant loaded once, in the order they were added.
pub open spec fn first_indices(n: nat) -> Seq<u8> {
    Seq::new(n, |i: int| i as u8)
}

/// Writing an instruction and then decoding where it starts gives back that
/// instruction, and the decoder ends exactly where the next instruction
/// starts, whatever was written before and whatever is written after.
pub proof fn lemma_decode_encoded(before: Seq<u8>, ins: Instruction, after: Seq<u8>)
    requires
        well_formed_instruction(ins),
    ensures
        decode_at(before + encode(ins) + after, before.len() as int) == (
            Some(ins),
            before.len() + encode(ins).len() as int,
        ),
{
    let code = before + encode(ins) + after;
    let n = before.len() as int;
    match ins {
        Instruction::Constant(i) => {
            assert(code[n] == 0u8);
            assert(code[n + 1] == i);
        },
        Instruction::Simple(op) => {
            assert(code[n] == op_byte(op));
            assert(byte_op(op_byte(op)) == Some(op));
        },
    }
}

pub open spec fn line_or_zero(lines: Seq<u32>, offset: int) -> u32 {
    if 0 <= offset < lines.len() {
        lines[offset]
    } else {
        0
    }
}

/// A chunk of bytecode: instruction bytes, the source line of each byte, and
/// the constants that `Constant` instructions load.
pub struct Chunk {
    code: Vec<u8>,
    lines: Vec<u32>,
    constants: Vec<Value>,
}

impl Chunk {
    pub closed spec fn code_seq(&self) -> Seq<u8> {
        self.code@
    }

    pub closed spec fn line_seq(&self) -> Seq<u32> {
        self.lines@
    }

    pub closed spec fn constant_seq(&self) -> Seq<ValueModel> {
        self.constants@.map_values(|v: Value| v@)
    }

    /// Each byte has its line, and the constants fit an operand byte. `new`
    /// makes a chunk so, and each method that changes one keeps it so.
    pub open spec fn wf(&self) -> bool {
        &&& self.line_seq().len() == self.code_seq().len()
        &&& self.constant_seq().len() <= MAX_CONSTANTS
    }

    pub fn new() -> (r: Chunk)
        ensures
            r.code_seq() == Seq::<u8>::empty(),
            r.line_seq() == Seq::<u32>::empty(),
            r.constant_seq() == Seq::<ValueModel>::empty(),
            r.wf(),
    {
        let r = Chunk { code: Vec::new(), lines: Vec::new(), constants: Vec::new() };
        assert(r.constant_seq() =~= Seq::<ValueModel>::empty());
        r
    }

    /// Appends one byte, produced by source line `line`.
    pub fn write(&mut self, byte: u8, line: u32)
        requires
            old(self).wf(),
        ensures
            final(self).code_seq() == old(self).code_seq().push(byte),
            final(self).line_seq() == old(self).line_seq().push(line),
            final(self).constant_seq() == old(self).constant_seq(),
            final(self).wf(),
    {
        self.code.push(byte);
        self.lines.push(line);
    }

    /// Adds a constant and returns its index, or `None`, with the chunk
    /// unchanged, when the chunk already holds `MAX_CONSTANTS` of them.
    pub fn add_constant(&mut self, value: Value) -> (r: Option<u8>)
        requires
            old(self).wf(),
        ensures
            final(self).code_seq() == old(self).code_seq(),
            final(self).line_seq() == old(self).line_seq(),
            old(self).constant_seq().len() < MAX_CONSTANTS ==> {
                &&& r == Some(old(self).constant_seq().len() as u8)
                &&& final(self).constant_seq() == old(self).constant_seq().push(value@)
            },
            old(self).constant_seq().len() >= MAX_CONSTANTS ==> {
                &&& r is None
                &&& final(self).constant_seq() == old(self).constant_seq()
            },
            final(self).wf(),
    {
        if self.constants.len() >= MAX_CONSTANTS {
            return None;
        }
        let index = self.constants.len() as u8;
        let ghost before = self.constants@;
        self.constants.push(value);
        assert(self.constants@.map_values(|v: Value| v@) =~= before.map_values(
            |v: Value| v@,
        ).push(value@));
        Some(index)
    }

    pub fn len(&self) -> (r: usize)
        ensures
            r == self.code_seq().len(),
    {
        self.code.len()
    }

    /// The source line of the byte at `offset`, or 0 where there is none.
    pub fn line_of(&self, offset: usize) -> (r: u32)
        ensures
            r == line_or_zero(self.line_seq(), offset as int),
    {
        if offset < self.lines.len() {
            self.lines[offset]
        } else {
            0
        }
    }

    pub fn constant_count(&self) -> (r: usize)
        ensures
            r == self.constant_seq().len(),
    {
        self.constants.len()
    }

    /// The constant at `index`, sharing a string's characters.
    pub fn constant(&self, index: usize) -> (r: Value)
        requires
            index < self.constant_seq().len(),
        ensures
            r@ == self.constant_seq()[index as int],
    {
        self.constants[index].share()
    }

    /// Decodes the instruction at `offset`: the instruction, if the bytes there
    /// form one, and the offset where the next one starts.
    pub fn disassemble_instruction(&self, offset: usize) -> (r: (Option<Instruction>, usize))
        requires
            offset < self.code_seq().len(),
        ensures
            (r.0, r.1 as int) == decode_at(self.code_seq(), offset as int),
    {
        let n = self.code.len();
        let byte = self.code[offset];
        match OpCode::from_byte(byte) {
            Some(OpCode::Constant) => if offset + 1 < n {
                (Some(Instruction::Constant(self.code[offset + 1])), offset + 2)
            } else {
                (None, offset + 1)
            },
            Some(op) => (Some(Instruction::Simple(op)), offset + 1),
            None => (None, offset + 1),
        }
    }

    /// Decodes the whole chunk from its start, one instruction after another.
    pub fn disassemble(&self) -> (r: Vec<(usize, Option<Instruction>)>)
        ensures
            r@.len() <= self.code_seq().len(),
            r@.len() > 0 ==> r@[0].0 == 0,
            forall|k: int|
                #![trigger r@[k]]
                0 <= k < r@.len() ==> {
                    let (ins, next) = decode_at(self.code_seq(), r@[k].0 as int);
                    &&& r@[k].0 < self.code_seq().len()
                    &&& r@[k].1 == ins
                    &&& if k + 1 < r@.len() {
                        r@[k + 1].0 == next
                    } else {
                        next >= self.code_seq().len()
                    }
                },
            self.code_seq().len() > 0 ==> r@.len() > 0,
    {
        let mut out: Vec<(usize, Option<Instruction>)> = Vec::new();
        let mut offset: usize = 0;
        while offset < self.code.len()
            invariant
                offset <= self.code_seq().len() + 1,
                out@.len() <= offset,
                out@.len() > 0 ==> out@[0].0 == 0,
                out@.len() == 0 ==> offset == 0,
                out@.len() > 0 ==> offset == decode_at(
                    self.code_seq(),
                    out@[out@.len() - 1].0 as int,
                ).1,
                forall|k: int|
                    #![trigger out@[k]]
                    0 <= k < out@.len() ==> {
                        let (ins, next) = decode_at(self.code_seq(), out@[k].0 as int);
                        &&& out@[k].0 < self.code_seq().len()
                        &&& out@[k].1 == ins
                        &&& k + 1 < out@.len() ==> out@[k + 1].0 == next
                    },
            decreases self.code_seq().len() - offset,
        {
            let (ins, next) = self.disassemble_instruction(offset);
            out.push((offset, ins));
            offset = next;
        }
        out
    }
}

} // verus!
