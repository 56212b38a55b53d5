use rlox::chunk::{Chunk, Instruction, OpCode};
use rlox::compiler::{compile, get_rule, ParseFn, Precedence};
use rlox::scanner::TokenType;
use rlox::value::Value;
use rlox::vm::{NumericTask, Step, VM};

#[test]
fn lines_follow_every_write() {
    let mut c = Chunk::new();
    assert_eq!(c.len(), 0);
    c.write(OpCode::Nil.to_byte(), 7);
    c.write(OpCode::Return.to_byte(), 9);
    assert_eq!(c.len(), 2);
    assert_eq!(c.line_of(0), 7);
    assert_eq!(c.line_of(1), 9);
    assert_eq!(c.line_of(2), 0);
}

#[test]
fn constants_get_consecutive_indices() {
    let mut c = Chunk::new();
    assert_eq!(c.add_constant(Value::Nil), Some(0));
    assert_eq!(c.add_constant(Value::Bool(true)), Some(1));
    assert_eq!(c.constant_count(), 2);
    assert!(c.constant(1).equals(&Value::Bool(true)));
}

#[test]
fn constant_pool_holds_at_most_256() {
    let mut c = Chunk::new();
    for i in 0..256 {
        assert_eq!(c.add_constant(Value::Nil), Some(i as u8));
    }
    assert_eq!(c.add_constant(Value::Nil), None);
    assert_eq!(c.constant_count(), 256);
}

#[test]
fn decodes_what_was_written() {
    let mut c = Chunk::new();
    c.write(OpCode::Constant.to_byte(), 1);
    c.write(0, 1);
    c.write(OpCode::Negate.to_byte(), 1);
    c.write(200, 2);
    c.write(OpCode::Return.to_byte(), 2);
    c.write(OpCode::Constant.to_byte(), 3);
    assert_eq!(c.disassemble_instruction(0), (Some(Instruction::Constant(0)), 2));
    assert_eq!(c.disassemble_instruction(2), (Some(Instruction::Simple(OpCode::Negate)), 3));
    assert_eq!(c.disassemble_instruction(3), (None, 4));
    assert_eq!(c.disassemble_instruction(4), (Some(Instruction::Simple(OpCode::Return)), 5));
    assert_eq!(c.disassemble_instruction(5), (None, 6));
    let all = c.disassemble();
    let offsets: Vec<usize> = all.iter().map(|(o, _)| *o).collect();
    assert_eq!(offsets, vec![0, 2, 3, 4, 5]);
}

#[test]
fn opcode_bytes_round_trip() {
    let ops = [
        OpCode::Constant, OpCode::Nil, OpCode::True, OpCode::False, OpCode::Equal, OpCode::Greater, OpCode::Less, OpCode::Add, OpCode::Subtract, OpCode::Multiply, OpCode::Divide, OpCode::Not,
        OpCode::Negate, OpCode::Return,
    ];
    for (i, op) in ops.iter().enumerate() {
        assert_eq!(op.to_byte(), i as u8);
        assert_eq!(OpCode::from_byte(i as u8), Some(*op));
    }
    assert_eq!(OpCode::from_byte(14), None);
}

#[test]
fn compiled_code_for_a_sum() {
    let numbers = [1.0f64.to_bits(), 2.0f64.to_bits()];
    let chunk = compile("1 + 2", &numbers).ok().unwrap();
    let ins: Vec<Option<Instruction>> = chunk.disassemble().iter().map(|(_, i)| *i).collect();
    assert_eq!(
        ins,
        vec![
            Some(Instruction::Constant(0)),
            Some(Instruction::Constant(1)),
            Some(Instruction::Simple(OpCode::Add)),
            Some(Instruction::Simple(OpCode::Return)),
        ]
    );
    assert_eq!(chunk.constant_count(), 2);
    assert!(matches!(chunk.constant(1), Value::Number(b) if b == 2.0f64.to_bits()));
}

#[test]
fn compiled_code_for_compound_operators() {
    let chunk = compile("true != nil <= false", &[]).ok().unwrap();
    let ins: Vec<Option<Instruction>> = chunk.disassemble().iter().map(|(_, i)| *i).collect();
    assert_eq!(
        ins,
        vec![
            Some(Instruction::Simple(OpCode::True)),
            Some(Instruction::Simple(OpCode::Nil)),
            Some(Instruction::Simple(OpCode::False)),
            Some(Instruction::Simple(OpCode::Greater)),
            Some(Instruction::Simple(OpCode::Not)),
            Some(Instruction::Simple(OpCode::Equal)),
            Some(Instruction::Simple(OpCode::Not)),
            Some(Instruction::Simple(OpCode::Return)),
        ]
    );
}

#[test]
fn string_literal_becomes_its_contents() {
    let chunk = compile("\"hi there\"", &[]).ok().unwrap();
    assert_eq!(chunk.constant(0).as_str(), Some("hi there"));
}

#[test]
fn parse_table_entries() {
    let minus = get_rule(TokenType::Minus);
    assert_eq!(minus.prefix, Some(ParseFn::Unary));
    assert_eq!(minus.infix, Some(ParseFn::Binary));
    assert_eq!(minus.precedence, Precedence::Term);
    assert_eq!(get_rule(TokenType::Star).precedence, Precedence::Factor);
    assert_eq!(get_rule(TokenType::EqualEqual).precedence, Precedence::Equality);
    assert_eq!(get_rule(TokenType::Less).precedence, Precedence::Comparison);
    assert_eq!(get_rule(TokenType::String).prefix, Some(ParseFn::String));
    assert_eq!(get_rule(TokenType::Plus).prefix, None);
    assert_eq!(get_rule(TokenType::EOF).prefix, None);
    assert_eq!(get_rule(TokenType::EOF).precedence, Precedence::Lowest);
}

#[test]
fn precedence_levels() {
    assert_eq!(Precedence::Lowest.level(), 0);
    assert_eq!(Precedence::Primary.level(), 10);
    assert_eq!(Precedence::from_level(7), Some(Precedence::Factor));
    assert_eq!(Precedence::from_level(11), None);
}

fn chunk_of(ops: &[OpCode]) -> Chunk {
    let mut c = Chunk::new();
    for op in ops {
        c.write(op.to_byte(), 1);
    }
    c
}

#[test]
fn machine_stops_for_numeric_work() {
    let mut c = Chunk::new();
    c.add_constant(Value::Number(6)).unwrap();
    c.add_constant(Value::Number(7)).unwrap();
    for b in [0u8, 0, 0, 1, OpCode::Multiply.to_byte(), OpCode::Return.to_byte()] {
        c.write(b, 1);
    }
    let mut vm = VM::new(&c);
    match vm.run() {
        Step::Compute(task) => assert_eq!(task, NumericTask::Multiply(6, 7)),
        _ => panic!("expected numeric work"),
    }
    assert!(vm.is_awaiting());
    vm.resume(Value::Number(42));
    match vm.run() {
        Step::Output(Value::Number(n)) => assert_eq!(n, 42),
        _ => panic!("expected output"),
    }
    assert!(vm.is_halted());
}

#[test]
fn return_on_empty_stack_is_invalid_bytecode() {
    let c = chunk_of(&[OpCode::Return]);
    let mut vm = VM::new(&c);
    match vm.run() {
        Step::Fault(e) => {
            assert_eq!(e.message, "Invalid bytecode.");
            assert_eq!(e.line, 1);
        }
        _ => panic!("expected a fault"),
    }
}

#[test]
fn running_off_the_end_is_invalid_bytecode() {
    let c = chunk_of(&[OpCode::Nil]);
    let mut vm = VM::new(&c);
    match vm.run() {
        Step::Fault(e) => assert_eq!(e.message, "Invalid bytecode."),
        _ => panic!("expected a fault"),
    }
}

#[test]
fn stack_holds_at_most_256() {
    let c = chunk_of(&[OpCode::Nil; 257]);
    let mut vm = VM::new(&c);
    match vm.run() {
        Step::Fault(e) => assert_eq!(e.message, "Stack overflow."),
        _ => panic!("expected a fault"),
    }
    let mut ops = vec![OpCode::True; 256];
    ops.push(OpCode::Return);
    let c = chunk_of(&ops);
    let mut vm = VM::new(&c);
    assert!(matches!(vm.run(), Step::Output(Value::Bool(true))));
}

#[test]
fn compiled_lines_follow_the_tokens() {
    let numbers = [1.0f64.to_bits(), 2.0f64.to_bits()];
    let chunk = compile("1 +\n2", &numbers).ok().unwrap();
    let lines: Vec<u32> = (0..chunk.len()).map(|i| chunk.line_of(i)).collect();
    assert_eq!(lines, vec![1, 1, 2, 2, 2, 2]);
    let chunk = compile("1 + 2", &numbers).ok().unwrap();
    let lines: Vec<u32> = (0..chunk.len()).map(|i| chunk.line_of(i)).collect();
    assert_eq!(lines, vec![1, 1, 1, 1, 1, 1]);
}

#[test]
fn only_one_error_is_returned() {
    let errors = compile("(1 + ", &[1.0f64.to_bits()]).err().unwrap();
    assert_eq!(errors.len(), 1);
    assert_eq!(errors[0].message, "Expect expression.");
    assert_eq!(errors[0].token.ty, TokenType::EOF);
    let errors = compile("1 @ 2", &[1.0f64.to_bits(), 2.0f64.to_bits()]).err().unwrap();
    assert_eq!(errors.len(), 1);
    assert_eq!(errors[0].message, "Unexpected character.");
}
