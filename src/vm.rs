use crate::chunk::{Chunk, Instruction, OpCode, decode_at, line_or_zero};
use crate::value::{Value, ValueModel, equal_values, falsey};
use vstd::prelude::*;

verus! {

/// The most values the stack holds.
pub const STACK_MAX: usize = 256;

/// How one run of a program ended.
#[derive(Clone, Copy, Debug, PartialEq, Eq, Structural)]
#[must_use]
pub enum InterpretResult {
    Success,
    CompileError,
    RuntimeError,
}

/// Arithmetic and comparisons on numbers, which the machine hands to its
/// caller: the operands are IEEE-754 bit patterns, the left one first. The
/// answer is a number for `Add`, `Subtract`, `Multiply`, `Divide` and `Negate`,
/// and a boolean for `Greater`, `Less` and `Equal`.
#[derive(Clone, Copy, Debug, PartialEq, Eq, Structural)]
pub enum NumericTask {
    Add(u64, u64),
    Subtract(u64, u64),
    Multiply(u64, u64),
    Divide(u64, u64),
    Greater(u64, u64),
    Less(u64, u64),
    Equal(u64, u64),
    Negate(u64),
}

/// A runtime error: its message and the source line of the instruction.
#[derive(Clone, Copy, Debug)]
pub struct RuntimeError {
    pub message: &'static str,
    pub line: u32,
}

/// Where a run of the machine stopped.
pub enum Step {
    /// `Return` ran: the program's output. The machine has halted.
    Output(Value),
    /// A runtime error. The machine has halted with an empty stack.
    Fault(RuntimeError),
    /// Numeric work is needed: hand its answer to `resume`, then `run` again.
    Compute(NumericTask),
}

/// What a step of the machine does.
pub enum Effect {
    Continue,
    Output(ValueModel),
    Fault(Seq<char>, u32),
    Compute(NumericTask),
}

impl View for Step {
    type V = Effect;

    open spec fn view(&self) -> Effect {
        match self {
            Step::Output(v) => Effect::Output(v@),
            Step::Fault(e) => Effect::Fault(e.message@, e.line),
            Step::Compute(t) => Effect::Compute(*t),
        }
    }
}

pub open spec fn invalid_bytecode() -> Seq<char> {
    "Invalid bytecode."@
}

pub open spec fn stack_overflow() -> Seq<char> {
    "Stack overflow."@
}

pub open spec fn operand_not_number() -> Seq<char> {
    "Operand must be a number."@
}

pub open spec fn operands_mismatch() -> Seq<char> {
    "Operands must be two numbers or two strings."@
}

/// Pushes `v`, unless the stack is full.
pub open spec fn push_value(stack: Seq<ValueModel>, v: ValueModel, line: u32) -> (
    Effect,
    Seq<ValueModel>,
) {
    if stack.len() >= STACK_MAX {
        (Effect::Fault(stack_overflow(), line), Seq::empty())
    } else {
        (Effect::Continue, stack.push(v))
    }
}

/// The numeric task of a binary operation on two numbers.
pub open spec fn numeric_task(op: OpCode, x: u64, y: u64) -> NumericTask {
    match op {
        OpCode::Add => NumericTask::Add(x, y),
        OpCode::Subtract => NumericTask::Subtract(x, y),
        OpCode::Multiply => NumericTask::Multiply(x, y),
        OpCode::Divide => NumericTask::Divide(x, y),
        OpCode::Greater => NumericTask::Greater(x, y),
        OpCode::Less => NumericTask::Less(x, y),
        _ => NumericTask::Equal(x, y),
    }
}

/// What an operation without operand does to the stack; `line` is the line
/// reported for an error.
///
/// Strings are joined by `Add` alone: the other arithmetic operations and the
/// comparisons take two numbers.
pub open spec fn execute(op: OpCode, stack: Seq<ValueModel>, line: u32) -> (
    Effect,
    Seq<ValueModel>,
) {
    let n = stack.len();
    match op {
        OpCode::Nil => push_value(stack, ValueModel::Nil, line),
        OpCode::True => push_value(stack, ValueModel::Bool(true), line),
        OpCode::False => push_value(stack, ValueModel::Bool(false), line),
        OpCode::Return => if n == 0 {
            (Effect::Fault(invalid_bytecode(), line), Seq::empty())
        } else {
            (Effect::Output(stack.last()), stack.drop_last())
        },
        OpCode::Not => if n == 0 {
            (Effect::Fault(invalid_bytecode(), line), Seq::empty())
        } else {
            (Effect::Continue, stack.drop_last().push(ValueModel::Bool(falsey(stack.last()))))
        },
        OpCode::Negate => if n == 0 {
            (Effect::Fault(invalid_bytecode(), line), Seq::empty())
        } else {
            match stack.last() {
                ValueModel::Number(x) => (
                    Effect::Compute(NumericTask::Negate(x)),
                    stack.drop_last(),
                ),
                _ => (Effect::Fault(operand_not_number(), line), Seq::empty()),
            }
        },
        OpCode::Constant => (Effect::Fault(invalid_bytecode(), line), Seq::empty()),
        _ => if n < 2 {
            (Effect::Fault(invalid_bytecode(), line), Seq::empty())
        } else {
            let a = stack[n - 2];
            let b = stack[n - 1];
            let rest = stack.take(n - 2);
            match (a, b) {
                (ValueModel::Number(x), ValueModel::Number(y)) => (
                    Effect::Compute(numeric_task(op, x, y)),
                    rest,
                ),
                _ => if op == OpCode::Equal {
                    (Effect::Continue, rest.push(ValueModel::Bool(equal_values(a, b))))
                } else if op == OpCode::Add && a is Str && b is Str {
                    (Effect::Continue, rest.push(ValueModel::Str(a->Str_0 + b->Str_0)))
                } else {
                    (Effect::Fault(operands_mismatch(), line), Seq::empty())
                },
            }
        },
    }
}

/// Whether two values are of the same kind.
pub open spec fn same_kind(a: ValueModel, b: ValueModel) -> bool {
    match (a, b) {
        (ValueModel::Bool(_), ValueModel::Bool(_)) => true,
        (ValueModel::Nil, ValueModel::Nil) => true,
        (ValueModel::Number(_), ValueModel::Number(_)) => true,
        (ValueModel::Str(_), ValueModel::Str(_)) => true,
        _ => false,
    }
}

/// Values of different kinds are never equal: `Equal` on them replaces them
/// with `false`.
pub proof fn lemma_cross_kind_equal(stack: Seq<ValueModel>, line: u32)
    requires
        stack.len() >= 2,
        !same_kind(stack[stack.len() - 2], stack[stack.len() - 1]),
    ensures
        execute(OpCode::Equal, stack, line) == (
            Effect::Continue,
            stack.take(stack.len() - 2).push(ValueModel::Bool(false)),
        ),
{
}

/// One step of the machine at `ip`: what it does, where it goes on, and the
/// stack after it.
pub open spec fn step_spec(chunk: Chunk, ip: int, stack: Seq<ValueModel>) -> (
    Effect,
    int,
    Seq<ValueModel>,
) {
    let code = chunk.code_seq();
    let line = line_or_zero(chunk.line_seq(), ip);
    if ip < 0 || ip >= code.len() {
        (Effect::Fault(invalid_bytecode(), line), ip, Seq::empty())
    } else {
        let (ins, next) = decode_at(code, ip);
        match ins {
            None => (Effect::Fault(invalid_bytecode(), line), next, Seq::empty()),
            Some(Instruction::Constant(k)) => if k >= chunk.constant_seq().len() {
                (Effect::Fault(invalid_bytecode(), line), next, Seq::empty())
            } else {
                let (e, s) = push_value(stack, chunk.constant_seq()[k as int], line);
                (e, next, s)
            },
            Some(Instruction::Simple(op)) => {
                let (e, s) = execute(op, stack, line);
                (e, next, s)
            },
        }
    }
}

/// Steps from `ip` until a step does more than continue.
pub open spec fn run_spec(chunk: Chunk, ip: int, stack: Seq<ValueModel>) -> (
    Effect,
    int,
    Seq<ValueModel>,
)
    decreases chunk.code_seq().len() - ip,
{
    let (e, next, s) = step_spec(chunk, ip, stack);
    if e is Continue && 0 <= ip < next <= chunk.code_seq().len() {
        run_spec(chunk, next, s)
    } else {
        (e, next, s)
    }
}

/// The stack machine that runs one chunk.
pub struct VM<'a> {
    chunk: &'a Chunk,
    ip: usize,
    stack: Vec<Value>,
    awaiting: bool,
    halted: bool,
}

impl<'a> VM<'a> {
    /// The chunk being run.
    pub closed spec fn program(&self) -> Chunk {
        *self.chunk
    }

    /// The offset of the next instruction.
    pub closed spec fn ip(&self) -> int {
        self.ip as int
    }

    pub closed spec fn stack(&self) -> Seq<ValueModel> {
        self.stack@.map_values(|v: Value| v@)
    }

    /// Waiting for the answer to a numeric task.
    pub closed spec fn awaiting(&self) -> bool {
        self.awaiting
    }

    /// Stopped for good, after `Return` or a runtime error.
    pub closed spec fn halted(&self) -> bool {
        self.halted
    }

    pub closed spec fn wf(&self) -> bool {
        &&& self.ip <= self.chunk.code_seq().len()
        &&& self.stack@.len() <= STACK_MAX
        &&& !(self.awaiting && self.halted)
        &&& self.awaiting ==> self.stack@.len() < STACK_MAX
    }

    /// A machine at the start of `chunk`, with an empty stack.
    pub fn new(chunk: &'a Chunk) -> (r: VM<'a>)
        ensures
            r.wf(),
            r.program() == *chunk,
            r.ip() == 0,
            r.stack() == Seq::<ValueModel>::empty(),
            !r.awaiting(),
            !r.halted(),
    {
        let r = VM { chunk, ip: 0, stack: Vec::new(), awaiting: false, halted: false };
        assert(r.stack() =~= Seq::<ValueModel>::empty());
        r
    }

    pub fn is_awaiting(&self) -> (r: bool)
        ensures
            r == self.awaiting(),
    {
        self.awaiting
    }

    pub fn is_halted(&self) -> (r: bool)
        ensures
            r == self.halted(),
    {
        self.halted
    }

    fn push(&mut self, value: Value)
        requires
            old(self).stack@.len() < STACK_MAX,
        ensures
            final(self).stack() == old(self).stack().push(value@),
            final(self).stack@.len() == old(self).stack@.len() + 1,
            final(self).chunk == old(self).chunk,
            final(self).ip == old(self).ip,
            final(self).awaiting == old(self).awaiting,
            final(self).halted == old(self).halted,
    {
        let ghost before = self.stack@;
        self.stack.push(value);
        assert(self.stack@.map_values(|v: Value| v@) =~= before.map_values(|v: Value| v@).push(
            value@,
        ));
    }

    fn pop(&mut self) -> (r: Value)
        requires
            old(self).stack@.len() > 0,
        ensures
            r@ == old(self).stack().last(),
            final(self).stack() == old(self).stack().drop_last(),
            final(self).stack@.len() == old(self).stack@.len() - 1,
            final(self).chunk == old(self).chunk,
            final(self).ip == old(self).ip,
            final(self).awaiting == old(self).awaiting,
            final(self).halted == old(self).halted,
    {
        let ghost before = self.stack@;
        let r = self.stack.pop().unwrap();
        assert(self.stack@.map_values(|v: Value| v@) =~= before.map_values(
            |v: Value| v@,
        ).drop_last());
        r
    }

    /// The value `distance` places below the top of the stack.
    fn peek(&self, distance: usize) -> (r: &Value)
        requires
            distance < self.stack@.len(),
        ensures
            r@ == self.stack()[self.stack@.len() - 1 - distance],
    {
        &self.stack[self.stack.len() - 1 - distance]
    }

    /// Empties the stack.
    fn reset_stack(&mut self)
        ensures
            final(self).stack() == Seq::<ValueModel>::empty(),
            final(self).stack@.len() == 0,
            final(self).chunk == old(self).chunk,
            final(self).ip == old(self).ip,
            final(self).awaiting == old(self).awaiting,
            final(self).halted == old(self).halted,
    {
        self.stack = Vec::new();
        assert(self.stack() =~= Seq::<ValueModel>::empty());
    }

    /// Halts on a runtime error at the instruction that starts at `offset`.
    fn runtime_error(&mut self, message: &'static str, offset: usize) -> (r: Step)
        requires
            old(self).ip <= old(self).chunk.code_seq().len(),
        ensures
            r@ == Effect::Fault(message@, line_or_zero(old(self).chunk.line_seq(), offset as int)),
            final(self).stack() == Seq::<ValueModel>::empty(),
            final(self).stack@.len() == 0,
            final(self).chunk == old(self).chunk,
            final(self).ip == old(self).ip,
            !final(self).awaiting,
            final(self).halted,
    {
        self.reset_stack();
        self.awaiting = false;
        self.halted = true;
        Step::Fault(RuntimeError { message, line: self.chunk.line_of(offset) })
    }

    /// Pushes `value`, or halts when the stack is full.
    fn push_checked(&mut self, value: Value, offset: usize) -> (r: Option<Step>)
        requires
            old(self).wf(),
            !old(self).awaiting,
            !old(self).halted,
        ensures
            final(self).wf(),
            final(self).chunk == old(self).chunk,
            final(self).ip == old(self).ip,
            ({
                let (e, s) = push_value(
                    old(self).stack(),
                    value@,
                    line_or_zero(old(self).chunk.line_seq(), offset as int),
                );
                &&& final(self).stack() == s
                &&& !final(self).awaiting
                &&& match r {
                    None => e is Continue && !final(self).halted,
                    Some(step) => step@ == e && final(self).halted,
                }
            }),
    {
        if self.stack.len() >= STACK_MAX {
            return Some(self.runtime_error("Stack overflow.", offset));
        }
        self.push(value);
        None
    }

    /// Joins the two strings on top of the stack into one.
    fn concatenate(&mut self)
        requires
            2 <= old(self).stack@.len() <= STACK_MAX,
            old(self).stack()[old(self).stack@.len() - 2] is Str,
            old(self).stack().last() is Str,
        ensures
            ({
                let st = old(self).stack();
                let n = st.len();
                final(self).stack() == st.take(n - 2).push(
                    ValueModel::Str(st[n - 2]->Str_0 + st[n - 1]->Str_0),
                )
            }),
            final(self).stack@.len() == old(self).stack@.len() - 1,
            final(self).chunk == old(self).chunk,
            final(self).ip == old(self).ip,
            final(self).awaiting == old(self).awaiting,
            final(self).halted == old(self).halted,
    {
        let ghost st = self.stack();
        let b = self.pop();
        let a = self.pop();
        assert(self.stack() =~= st.take(st.len() - 2));
        let joined = match (a.as_str(), b.as_str()) {
            (Some(x), Some(y)) => String::from_str(x).concat(y),
            _ => String::new(),
        };
        self.push(Value::from_string(joined));
    }

    fn numeric_task(op: OpCode, x: u64, y: u64) -> (r: NumericTask)
        ensures
            r == numeric_task(op, x, y),
    {
        match op {
            OpCode::Add => NumericTask::Add(x, y),
            OpCode::Subtract => NumericTask::Subtract(x, y),
            OpCode::Multiply => NumericTask::Multiply(x, y),
            OpCode::Divide => NumericTask::Divide(x, y),
            OpCode::Greater => NumericTask::Greater(x, y),
            OpCode::Less => NumericTask::Less(x, y),
            _ => NumericTask::Equal(x, y),
        }
    }

    /// Runs a binary operation: `Equal`, `Greater`, `Less`, `Add`, `Subtract`,
    /// `Multiply` or `Divide`.
    fn binary_op(&mut self, op: OpCode, offset: usize) -> (r: Option<Step>)
        requires
            old(self).wf(),
            !old(self).awaiting,
            !old(self).halted,
            op != OpCode::Constant,
            op != OpCode::Nil,
            op != OpCode::True,
            op != OpCode::False,
            op != OpCode::Return,
            op != OpCode::Not,
            op != OpCode::Negate,
        ensures
            final(self).wf(),
            final(self).chunk == old(self).chunk,
            final(self).ip == old(self).ip,
            ({
                let (e, s) = execute(
                    op,
                    old(self).stack(),
                    line_or_zero(old(self).chunk.line_seq(), offset as int),
                );
                &&& final(self).stack() == s
                &&& match r {
                    None => e is Continue && !final(self).awaiting && !final(self).halted,
                    Some(step) => step@ == e && final(self).awaiting == (e is Compute)
                        && final(self).halted == !(e is Compute),
                }
            }),
    {
        let ghost st = self.stack();
        if self.stack.len() < 2 {
            return Some(self.runtime_error("Invalid bytecode.", offset));
        }
        let numbers = match (self.peek(1), self.peek(0)) {
            (Value::Number(x), Value::Number(y)) => Some((*x, *y)),
            _ => None,
        };
        match numbers {
            Some((x, y)) => {
                self.pop();
                self.pop();
                assert(self.stack() =~= st.take(st.len() - 2));
                self.awaiting = true;
                return Some(Step::Compute(Self::numeric_task(op, x, y)));
            },
            None => {},
        }
        if op == OpCode::Equal {
            let b = self.pop();
            let a = self.pop();
            assert(self.stack() =~= st.take(st.len() - 2));
            let same = a.equals(&b);
            self.push(Value::Bool(same));
            None
        } else if op == OpCode::Add && self.peek(1).is_string() && self.peek(0).is_string() {
            self.concatenate();
            None
        } else {
            Some(self.runtime_error("Operands must be two numbers or two strings.", offset))
        }
    }

    /// Runs an operation without operand.
    fn execute(&mut self, op: OpCode, offset: usize) -> (r: Option<Step>)
        requires
            old(self).wf(),
            !old(self).awaiting,
            !old(self).halted,
        ensures
            final(self).wf(),
            final(self).chunk == old(self).chunk,
            final(self).ip == old(self).ip,
            ({
                let (e, s) = execute(
                    op,
                    old(self).stack(),
                    line_or_zero(old(self).chunk.line_seq(), offset as int),
                );
                &&& final(self).stack() == s
                &&& match r {
                    None => e is Continue && !final(self).awaiting && !final(self).halted,
                    Some(step) => step@ == e && final(self).awaiting == (e is Compute)
                        && final(self).halted == !(e is Compute),
                }
            }),
    {
        match op {
            OpCode::Nil => self.push_checked(Value::Nil, offset),
            OpCode::True => self.push_checked(Value::Bool(true), offset),
            OpCode::False => self.push_checked(Value::Bool(false), offset),
            OpCode::Constant => Some(self.runtime_error("Invalid bytecode.", offset)),
            OpCode::Return => {
                if self.stack.len() == 0 {
                    return Some(self.runtime_error("Invalid bytecode.", offset));
                }
                let v = self.pop();
                self.halted = true;
                Some(Step::Output(v))
            },
            OpCode::Not => {
                if self.stack.len() == 0 {
                    return Some(self.runtime_error("Invalid bytecode.", offset));
                }
                let v = self.pop();
                self.push(Value::Bool(v.is_falsey()));
                None
            },
            OpCode::Negate => {
                if self.stack.len() == 0 {
                    return Some(self.runtime_error("Invalid bytecode.", offset));
                }
                let top = match self.peek(0) {
                    Value::Number(x) => Some(*x),
                    _ => None,
                };
                match top {
                    Some(x) => {
                        self.pop();
                        self.awaiting = true;
                        Some(Step::Compute(NumericTask::Negate(x)))
                    },
                    None => Some(self.runtime_error("Operand must be a number.", offset)),
                }
            },
            _ => self.binary_op(op, offset),
        }
    }

    /// Runs the instruction at the instruction pointer.
    fn step(&mut self) -> (r: Option<Step>)
        requires
            old(self).wf(),
            !old(self).awaiting,
            !old(self).halted,
        ensures
            final(self).wf(),
            final(self).chunk == old(self).chunk,
            ({
                let (e, next, s) = step_spec(*old(self).chunk, old(self).ip as int, old(self).stack());
                &&& final(self).ip == next
                &&& final(self).stack() == s
                &&& match r {
                    None => e is Continue && !final(self).awaiting && !final(self).halted,
                    Some(step) => step@ == e && final(self).awaiting == (e is Compute)
                        && final(self).halted == !(e is Compute),
                }
            }),
    {
        let start = self.ip;
        if start >= self.chunk.len() {
            return Some(self.runtime_error("Invalid bytecode.", start));
        }
        let (ins, next) = self.chunk.disassemble_instruction(start);
        self.ip = next;
        match ins {
            None => Some(self.runtime_error("Invalid bytecode.", start)),
            Some(Instruction::Constant(k)) => {
                if (k as usize) >= self.chunk.constant_count() {
                    return Some(self.runtime_error("Invalid bytecode.", start));
                }
                let v = self.chunk.constant(k as usize);
                self.push_checked(v, start)
            },
            Some(Instruction::Simple(op)) => self.execute(op, start),
        }
    }

    /// Runs instructions until one needs numeric work, returns, or fails.
    pub fn run(&mut self) -> (r: Step)
        requires
            old(self).wf(),
            !old(self).awaiting(),
            !old(self).halted(),
        ensures
            final(self).wf(),
            final(self).program() == old(self).program(),
            ({
                let (e, next, s) = run_spec(old(self).program(), old(self).ip(), old(self).stack());
                &&& r@ == e
                &&& final(self).ip() == next
                &&& final(self).stack() == s
                &&& final(self).awaiting() == (e is Compute)
                &&& final(self).halted() == !(e is Compute)
            }),
    {
        let ghost target = run_spec(*self.chunk, self.ip as int, self.stack());
        loop
            invariant
                self.wf(),
                !self.awaiting,
                !self.halted,
                self.chunk == old(self).chunk,
                run_spec(*self.chunk, self.ip as int, self.stack()) == target,
                target == run_spec(*old(self).chunk, old(self).ip as int, old(self).stack()),
            decreases self.chunk.code_seq().len() - self.ip,
        {
            let ghost ip = self.ip as int;
            let ghost st = self.stack();
            match self.step() {
                Some(step) => {
                    assert(!(step@ is Continue));
                    assert(run_spec(*self.chunk, ip, st) == step_spec(*self.chunk, ip, st));
                    return step;
                },
                None => {
                    assert(0 <= ip < self.ip <= self.chunk.code_seq().len());
                },
            }
        }
    }

    /// Hands the machine the answer to the numeric task it stopped on: a
    /// number's bit pattern, or a boolean for a comparison.
    pub fn resume(&mut self, answer: Value)
        requires
            old(self).wf(),
            old(self).awaiting(),
        ensures
            final(self).wf(),
            final(self).program() == old(self).program(),
            final(self).ip() == old(self).ip(),
            final(self).stack() == old(self).stack().push(answer@),
            !final(self).awaiting(),
            !final(self).halted(),
    {
        self.push(answer);
        self.awaiting = false;
    }
}

} // verus!
