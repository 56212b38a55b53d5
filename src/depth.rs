use crate::chunk::{
    Chunk, Instruction, OpCode, constant_operands, decode_at, encode, encode_all, first_indices,
    lemma_decode_encoded, line_or_zero, well_formed_instruction,
};
use crate::compiler::{
    Emit, Failure, ParseFn, Precedence, code_of_source, compiled, emits, encode_lines, pieces, expr_spec, infix_spec, level, operator_code,
    parse_fn_spec, program_spec, rule_of, shape, shapes, tighter,
};
use crate::scanner::{TokenModel, TokenType, tokens};
use crate::value::ValueModel;
use crate::vm::{
    execute, invalid_bytecode, operand_not_number, operands_mismatch, push_value, stack_overflow,
    run_spec, step_spec,
};
use vstd::prelude::*;

verus! {

/// The code of a successful parse, without lines.
pub open spec fn code_of(r: Result<(int, Seq<(Emit, u32)>), Failure>) -> Seq<Emit> {
    match r {
        Ok((_, c)) => emits(c),
        Err(_) => Seq::empty(),
    }
}

proof fn lemma_emits_append(a: Seq<(Emit, u32)>, b: Seq<(Emit, u32)>)
    ensures
        emits(a + b) == emits(a) + emits(b),
{
    assert(emits(a + b) =~= emits(a) + emits(b));
}

/// How many values a piece of code takes from the stack.
pub open spec fn needs(e: Emit) -> int {
    match e {
        Emit::Literal => 0,
        Emit::Op(op) => match op {
            OpCode::Constant | OpCode::Nil | OpCode::True | OpCode::False => 0,
            OpCode::Not | OpCode::Negate | OpCode::Return => 1,
            _ => 2,
        },
    }
}

/// How the depth of the stack changes with a piece of code.
pub open spec fn effect(e: Emit) -> int {
    match e {
        Emit::Literal => 1,
        Emit::Op(op) => match op {
            OpCode::Constant | OpCode::Nil | OpCode::True | OpCode::False => 1,
            OpCode::Not | OpCode::Negate => 0,
            _ => -1,
        },
    }
}

/// Running `c` from a stack of depth `d`: the depth at the end, or `None` if
/// some piece finds fewer values than it takes.
pub open spec fn run_depth(c: Seq<Emit>, d: int) -> Option<int>
    decreases c.len(),
{
    if c.len() == 0 {
        Some(d)
    } else if d < needs(c[0]) {
        None
    } else {
        run_depth(c.drop_first(), d + effect(c[0]))
    }
}

proof fn lemma_run_depth_append(a: Seq<Emit>, b: Seq<Emit>, d: int)
    ensures
        run_depth(a + b, d) == match run_depth(a, d) {
            Some(e) => run_depth(b, e),
            None => None,
        },
    decreases a.len(),
{
    if a.len() > 0 {
        assert((a + b).drop_first() =~= a.drop_first() + b);
        assert((a + b)[0] == a[0]);
        lemma_run_depth_append(a.drop_first(), b, d + effect(a[0]));
    } else {
        assert(a + b =~= b);
    }
}

/// The code of a well-formed piece of an expression leaves one more value on
/// the stack than it found, and never takes a value it did not push.
proof fn lemma_parse_fn_depth(f: ParseFn, ts: Seq<TokenModel>, numbers: Seq<u64>, i: int, d: int)
    requires
        d >= 0,
        parse_fn_spec(f, ts, numbers, i) is Ok,
        f != ParseFn::Binary,
    ensures
        run_depth(code_of(parse_fn_spec(f, ts, numbers, i)), d) == Some(d + 1),
    decreases ts.len() - i, 1nat,
{
    match f {
        ParseFn::Grouping => {
            let r = expr_spec(ts, numbers, i + 1, Precedence::Assignment);
            assert(code_of(parse_fn_spec(f, ts, numbers, i)) == code_of(r));
            assert(r is Ok);
            lemma_expr_depth(ts, numbers, i + 1, Precedence::Assignment, d);
        },
        ParseFn::Unary => {
            let r = expr_spec(ts, numbers, i + 1, Precedence::Unary);
            let (j, cl) = r->Ok_0;
            let c = emits(cl);
            lemma_expr_depth(ts, numbers, i + 1, Precedence::Unary, d);
            let op = if ts[i].ty == TokenType::Bang {
                Emit::Op(OpCode::Not)
            } else {
                Emit::Op(OpCode::Negate)
            };
            assert(emits(cl.push((op, ts[j - 1].line))) =~= c.push(op));
            assert(code_of(parse_fn_spec(f, ts, numbers, i)) == c.push(op));
            assert(c.push(op) =~= c + seq![op]);
            lemma_run_depth_append(c, seq![op], d);
            assert(seq![op].drop_first() =~= Seq::<Emit>::empty());
            assert(run_depth(seq![op], d + 1) == run_depth(Seq::<Emit>::empty(), d + 1));
        },
        _ => {
            let c = code_of(parse_fn_spec(f, ts, numbers, i));
            let cl = parse_fn_spec(f, ts, numbers, i)->Ok_0.1;
            assert(c =~= seq![cl[0].0]);
            assert(c.len() == 1 && needs(c[0]) == 0 && effect(c[0]) == 1);
            assert(c.drop_first() =~= Seq::<Emit>::empty());
            assert(run_depth(c, d) == run_depth(c.drop_first(), d + 1));
        },
    }
}

proof fn lemma_binary_depth(ts: Seq<TokenModel>, numbers: Seq<u64>, j: int, d: int)
    requires
        d >= 1,
        parse_fn_spec(ParseFn::Binary, ts, numbers, j) is Ok,
    ensures
        run_depth(code_of(parse_fn_spec(ParseFn::Binary, ts, numbers, j)), d) == Some(d),
    decreases ts.len() - j, 1nat,
{
    let r = expr_spec(ts, numbers, j + 1, tighter(rule_of(ts[j].ty).precedence));
    let (k, rl) = r->Ok_0;
    let right = emits(rl);
    lemma_expr_depth(ts, numbers, j + 1, tighter(rule_of(ts[j].ty).precedence), d);
    let opl = operator_code(ts[j].ty, ts[k - 1].line);
    let ops = emits(opl);
    lemma_emits_append(rl, opl);
    assert(code_of(parse_fn_spec(ParseFn::Binary, ts, numbers, j)) == right + ops);
    lemma_run_depth_append(right, ops, d);
    assert(ops.len() == opl.len() && ops[0] == opl[0].0);
    assert(needs(ops[0]) == 2 && effect(ops[0]) == -1);
    assert(run_depth(ops, d + 1) == run_depth(ops.drop_first(), d));
    if ops.len() == 2 {
        assert(ops.drop_first() =~= seq![ops[1]]);
        assert(seq![ops[1]].drop_first() =~= Seq::<Emit>::empty());
        assert(ops[1] == opl[1].0);
        assert(ops[1] == Emit::Op(OpCode::Not));
        assert(run_depth(seq![ops[1]], d) == run_depth(Seq::<Emit>::empty(), d));
    } else {
        assert(ops.drop_first() =~= Seq::<Emit>::empty());
    }
}

proof fn lemma_expr_depth(ts: Seq<TokenModel>, numbers: Seq<u64>, i: int, min: Precedence, d: int)
    requires
        d >= 0,
        expr_spec(ts, numbers, i, min) is Ok,
    ensures
        run_depth(code_of(expr_spec(ts, numbers, i, min)), d) == Some(d + 1),
    decreases ts.len() - i, 3nat,
{
    let f = rule_of(ts[i].ty).prefix->0;
    let (j, c) = parse_fn_spec(f, ts, numbers, i)->Ok_0;
    lemma_parse_fn_depth(f, ts, numbers, i, d);
    lemma_infix_depth(ts, numbers, j, min, c, d);
}

proof fn lemma_infix_depth(
    ts: Seq<TokenModel>,
    numbers: Seq<u64>,
    j: int,
    min: Precedence,
    left: Seq<(Emit, u32)>,
    d: int,
)
    requires
        d >= 0,
        infix_spec(ts, numbers, j, min, left) is Ok,
        run_depth(emits(left), d) == Some(d + 1),
    ensures
        run_depth(code_of(infix_spec(ts, numbers, j, min, left)), d) == Some(d + 1),
    decreases ts.len() - j, 2nat,
{
    if 0 <= j < ts.len() && level(min) <= level(rule_of(ts[j].ty).precedence) {
        let (k, c) = parse_fn_spec(ParseFn::Binary, ts, numbers, j)->Ok_0;
        lemma_binary_depth(ts, numbers, j, d + 1);
        lemma_emits_append(left, c);
        lemma_run_depth_append(emits(left), emits(c), d);
        lemma_infix_depth(ts, numbers, k, min, left + c, d);
    }
}

/// The code of a whole program, `Return` included, finds every operand it
/// takes and leaves the stack empty.
pub proof fn lemma_program_depth(ts: Seq<TokenModel>, numbers: Seq<u64>)
    requires
        program_spec(ts, numbers) is Ok,
    ensures
        run_depth(emits(program_spec(ts, numbers)->Ok_0), 0) == Some(0int),
{
    let (j, cl) = expr_spec(ts, numbers, 0, Precedence::Assignment)->Ok_0;
    let c = emits(cl);
    lemma_expr_depth(ts, numbers, 0, Precedence::Assignment, 0);
    let ret = seq![Emit::Op(OpCode::Return)];
    assert(emits(program_spec(ts, numbers)->Ok_0) =~= c + ret);
    lemma_run_depth_append(c, ret, 0);
    assert(ret.drop_first() =~= Seq::<Emit>::empty());
    assert(run_depth(ret, 1) == run_depth(Seq::<Emit>::empty(), 0));
}

/// Where the `k`-th instruction starts.
pub open spec fn boundary(instrs: Seq<Instruction>, k: int) -> int {
    encode_all(instrs.take(k)).len() as int
}

proof fn lemma_encode_prefix(instrs: Seq<Instruction>, m: int)
    requires
        0 <= m <= instrs.len(),
    ensures
        boundary(instrs, m) <= encode_all(instrs).len(),
        encode_all(instrs).subrange(0, boundary(instrs, m)) == encode_all(instrs.take(m)),
    decreases instrs.len() - m,
{
    if m == instrs.len() {
        assert(instrs.take(m) =~= instrs);
        assert(encode_all(instrs).subrange(0, boundary(instrs, m)) =~= encode_all(instrs));
    } else {
        lemma_encode_prefix(instrs, m + 1);
        assert(instrs.take(m + 1).drop_last() =~= instrs.take(m));
        let a = encode_all(instrs.take(m));
        let b = encode_all(instrs.take(m + 1));
        assert(b == a + encode(instrs.take(m + 1).last()));
        assert(encode_all(instrs).subrange(0, a.len() as int) =~= b.subrange(0, a.len() as int));
        assert(b.subrange(0, a.len() as int) =~= a);
    }
}

/// Decoding a whole sequence of written instructions: at the start of the
/// `k`-th instruction the decoder finds exactly that instruction and ends at
/// the start of the next one; the starts increase, and the last instruction
/// ends exactly at the end of the code.
pub proof fn lemma_decode_boundary(instrs: Seq<Instruction>, k: int)
    requires
        0 <= k < instrs.len(),
        well_formed_instruction(instrs[k]),
    ensures
        decode_at(encode_all(instrs), boundary(instrs, k)) == (
            Some(instrs[k]),
            boundary(instrs, k + 1),
        ),
        boundary(instrs, k) < boundary(instrs, k + 1) <= encode_all(instrs).len(),
        boundary(instrs, instrs.len() as int) == encode_all(instrs).len(),
        boundary(instrs, 0) == 0,
{
    assert(instrs.take(instrs.len() as int) =~= instrs);
    assert(instrs.take(0) =~= Seq::<Instruction>::empty());
    lemma_encode_prefix(instrs, k + 1);
    let code = encode_all(instrs);
    let before = encode_all(instrs.take(k));
    assert(instrs.take(k + 1).drop_last() =~= instrs.take(k));
    assert(instrs.take(k + 1).last() == instrs[k]);
    let upto = encode_all(instrs.take(k + 1));
    assert(upto == before + encode(instrs[k]));
    let after = code.subrange(upto.len() as int, code.len() as int);
    assert(code =~= before + encode(instrs[k]) + after);
    lemma_decode_encoded(before, instrs[k], after);
}

proof fn lemma_operands_prefix(instrs: Seq<Instruction>, m: int)
    requires
        0 <= m <= instrs.len(),
    ensures
        constant_operands(instrs.take(m)).len() <= constant_operands(instrs).len(),
        constant_operands(instrs) .take(constant_operands(instrs.take(m)).len() as int)
            == constant_operands(instrs.take(m)),
    decreases instrs.len() - m,
{
    if m == instrs.len() {
        assert(instrs.take(m) =~= instrs);
        assert(constant_operands(instrs).take(constant_operands(instrs).len() as int)
            =~= constant_operands(instrs));
    } else {
        lemma_operands_prefix(instrs, m + 1);
        assert(instrs.take(m + 1).drop_last() =~= instrs.take(m));
        let a = constant_operands(instrs.take(m));
        let b = constant_operands(instrs.take(m + 1));
        let all = constant_operands(instrs);
        assert(all.take(a.len() as int) =~= b.take(a.len() as int));
        assert(b.take(a.len() as int) =~= a);
    }
}

/// A `Constant` instruction of a compiled chunk loads one of its constants.
pub proof fn lemma_constant_in_range(chunk: Chunk, instrs: Seq<Instruction>, k: int)
    requires
        compiled(chunk, instrs),
        0 <= k < instrs.len(),
        instrs[k] is Constant,
    ensures
        (instrs[k]->Constant_0 as int) < chunk.constant_seq().len(),
{
    lemma_operands_prefix(instrs, k + 1);
    assert(instrs.take(k + 1).drop_last() =~= instrs.take(k));
    assert(instrs.take(k + 1).last() == instrs[k]);
    let a = constant_operands(instrs.take(k + 1));
    let n = chunk.constant_seq().len();
    assert(a.last() == instrs[k]->Constant_0);
    assert(constant_operands(instrs) == first_indices(n));
    assert(a[a.len() - 1] == first_indices(n)[a.len() - 1]);
}

/// In code that the compiler wrote, the machine never meets invalid
/// bytecode. Starting the `k`-th instruction with a stack as deep as the
/// instructions before it leave it, a step does not fail as invalid bytecode;
/// where it goes on, or stops for numeric work, it does so at the start of the
/// next instruction, with the stack (the numeric answer counted) as deep as
/// the instructions up to that one leave it.
pub proof fn lemma_compiled_step(
    chunk: Chunk,
    instrs: Seq<Instruction>,
    k: int,
    stack: Seq<ValueModel>,
)
    requires
        compiled(chunk, instrs),
        run_depth(shapes(instrs), 0) is Some,
        0 <= k < instrs.len(),
        run_depth(shapes(instrs.take(k)), 0) == Some(stack.len() as int),
    ensures
        ({
            let (e, next, s) = step_spec(chunk, boundary(instrs, k), stack);
            &&& !(e is Fault && e->Fault_0 == invalid_bytecode())
            &&& e is Continue ==> next == boundary(instrs, k + 1) && run_depth(
                shapes(instrs.take(k + 1)),
                0,
            ) == Some(s.len() as int)
            &&& e is Compute ==> next == boundary(instrs, k + 1) && run_depth(
                shapes(instrs.take(k + 1)),
                0,
            ) == Some(s.len() + 1int)
        }),
{
    let ins = instrs[k];
    lemma_decode_boundary(instrs, k);
    lemma_encode_prefix(instrs, k + 1);
    assert(instrs.take(k + 1) =~= instrs.take(k).push(ins));
    assert(shapes(instrs.take(k + 1)) =~= shapes(instrs.take(k)) + seq![shape(ins)]);
    lemma_run_depth_append(shapes(instrs.take(k)), seq![shape(ins)], 0);
    let rest = instrs.subrange(k + 1, instrs.len() as int);
    assert(instrs =~= instrs.take(k + 1) + rest);
    assert(shapes(instrs) =~= shapes(instrs.take(k + 1)) + shapes(rest));
    lemma_run_depth_append(shapes(instrs.take(k + 1)), shapes(rest), 0);
    assert(seq![shape(ins)].drop_first() =~= Seq::<Emit>::empty());
    let n = stack.len() as int;
    assert(run_depth(seq![shape(ins)], n) == if n < needs(shape(ins)) {
        None
    } else {
        run_depth(Seq::<Emit>::empty(), n + effect(shape(ins)))
    });
    reveal_strlit("Stack overflow.");
    reveal_strlit("Invalid bytecode.");
    reveal_strlit("Operand must be a number.");
    reveal_strlit("Operands must be two numbers or two strings.");
    assert(invalid_bytecode().len() == 17);
    assert(stack_overflow().len() == 15);
    assert(operand_not_number().len() == 25);
    assert(operands_mismatch().len() == 44);
    let code = chunk.code_seq();
    assert(code == encode_all(instrs));
    assert(encode(ins).len() >= 1);
    assert(boundary(instrs, k) < code.len());
    let line = line_or_zero(chunk.line_seq(), boundary(instrs, k));
    assert(run_depth(shapes(instrs.take(k + 1)), 0) is Some);
    assert(n >= needs(shape(ins)));
    match ins {
        Instruction::Constant(x) => {
            lemma_constant_in_range(chunk, instrs, k);
            let (e, next, s) = step_spec(chunk, boundary(instrs, k), stack);
            assert(decode_at(code, boundary(instrs, k)) == (Some(ins), boundary(instrs, k + 1)));
            assert((e, s) == push_value(stack, chunk.constant_seq()[x as int], line));
            assert(next == boundary(instrs, k + 1));
            assert(needs(shape(ins)) == 0 && effect(shape(ins)) == 1);
            assert(run_depth(shapes(instrs.take(k + 1)), 0) == Some(n + 1));
        },
        Instruction::Simple(op) => {
            assert(op != OpCode::Constant);
            let (e, next, s) = step_spec(chunk, boundary(instrs, k), stack);
            assert((e, s) == execute(op, stack, line));
            assert(next == boundary(instrs, k + 1));
        },
    }
}

/// A run of the machine over code that the compiler wrote never stops as
/// invalid bytecode. Started at the `k`-th instruction with the stack that the
/// instructions before it leave, it stops for numeric work only at the start of
/// a later instruction, with the stack (the numeric answer counted) that the
/// instructions before that one leave: `resume` then brings the machine back
/// to where this law applies again.
pub proof fn lemma_compiled_run(
    chunk: Chunk,
    instrs: Seq<Instruction>,
    k: int,
    stack: Seq<ValueModel>,
)
    requires
        compiled(chunk, instrs),
        run_depth(shapes(instrs), 0) is Some,
        0 <= k < instrs.len(),
        run_depth(shapes(instrs.take(k)), 0) == Some(stack.len() as int),
    ensures
        ({
            let (e, next, s) = run_spec(chunk, boundary(instrs, k), stack);
            &&& !(e is Fault && e->Fault_0 == invalid_bytecode())
            &&& e is Compute ==> exists|k2: int|
                0 <= k2 < instrs.len() && next == boundary(instrs, k2) && #[trigger] run_depth(
                    shapes(instrs.take(k2)),
                    0,
                ) == Some(s.len() + 1int)
        }),
    decreases instrs.len() - k,
{
    lemma_compiled_step(chunk, instrs, k, stack);
    lemma_encode_prefix(instrs, k + 1);
    let (e, next, s) = step_spec(chunk, boundary(instrs, k), stack);
    if e is Continue || e is Compute {
        assert(instrs[k] != Instruction::Simple(OpCode::Return)) by {
            if instrs[k] == Instruction::Simple(OpCode::Return) {
                let line = line_or_zero(chunk.line_seq(), boundary(instrs, k));
                lemma_decode_boundary(instrs, k);
                assert((e, s) == execute(OpCode::Return, stack, line));
            }
        }
        assert(k + 1 < instrs.len());
        assert(instrs.take(k + 1).drop_last() =~= instrs.take(k));
        assert(encode(instrs.take(k + 1).last()).len() >= 1);
        assert(boundary(instrs, k) < boundary(instrs, k + 1));
    }
    if e is Continue {
        lemma_compiled_run(chunk, instrs, k + 1, s);
    } else if e is Compute {
        assert(run_depth(shapes(instrs.take(k + 1)), 0) == Some(s.len() + 1int));
    }
}

/// A chunk that `compile` returns meets what `lemma_compiled_run` asks, at
/// its first instruction with an empty stack: its code finds every operand it
/// takes.
pub proof fn lemma_compiled_source(chunk: Chunk, text: Seq<char>, numbers: Seq<u64>)
    requires
        code_of_source(chunk, text, numbers),
        program_spec(tokens(text), numbers) is Ok,
    ensures
        exists|instrs: Seq<Instruction>|
            #[trigger] compiled(chunk, instrs) && run_depth(shapes(instrs), 0) == Some(0int)
                && boundary(instrs, 0) == 0 && run_depth(shapes(instrs.take(0)), 0) == Some(0int),
{
    let (instrs, lines) = choose|instrs: Seq<Instruction>, lines: Seq<u32>|
        #[trigger] compiled(chunk, instrs) && lines.len() == instrs.len() && chunk.line_seq()
            == encode_lines(instrs, lines) && #[trigger] pieces(instrs, lines) == program_spec(
            tokens(text),
            numbers,
        )->Ok_0;
    lemma_program_depth(tokens(text), numbers);
    assert(shapes(instrs) =~= emits(pieces(instrs, lines)));
    assert(instrs.take(0) =~= Seq::<Instruction>::empty());
    assert(shapes(instrs.take(0)) =~= Seq::<Emit>::empty());
}

} // verus!
