use rlox::compiler::{compile, CompileError};
use rlox::scanner::{number_literals, TokenType};
use rlox::value::Value;
use rlox::vm::{NumericTask, Step, VM};

#[derive(Debug, PartialEq)]
enum Outcome {
    Output(String),
    Compile(Vec<(TokenType, String, u32, String)>),
    Runtime(String, u32),
}

fn number_values(source: &str) -> Vec<u64> {
    number_literals(source)
        .iter()
        .map(|s| s.parse::<f64>().unwrap().to_bits())
        .collect()
}

fn answer(task: NumericTask) -> Value {
    let f = f64::from_bits;
    match task {
        NumericTask::Add(a, b) => Value::Number((f(a) + f(b)).to_bits()),
        NumericTask::Subtract(a, b) => Value::Number((f(a) - f(b)).to_bits()),
        NumericTask::Multiply(a, b) => Value::Number((f(a) * f(b)).to_bits()),
        NumericTask::Divide(a, b) => Value::Number((f(a) / f(b)).to_bits()),
        NumericTask::Greater(a, b) => Value::Bool(f(a) > f(b)),
        NumericTask::Less(a, b) => Value::Bool(f(a) < f(b)),
        NumericTask::Equal(a, b) => Value::Bool(f(a) == f(b)),
        NumericTask::Negate(a) => Value::Number((-f(a)).to_bits()),
    }
}

fn show(v: &Value) -> String {
    match v {
        Value::Number(n) => format!("{}", f64::from_bits(*n)),
        other => other.display(),
    }
}

fn errors_of(errors: Vec<CompileError>) -> Vec<(TokenType, String, u32, String)> {
    errors
        .iter()
        .map(|e| (e.token.ty, e.token.lexeme.to_string(), e.token.line, e.message.to_string()))
        .collect()
}

fn run_source(source: &str) -> Outcome {
    let numbers = number_values(source);
    let chunk = match compile(source, &numbers) {
        Ok(chunk) => chunk,
        Err(errors) => return Outcome::Compile(errors_of(errors)),
    };
    let mut vm = VM::new(&chunk);
    loop {
        match vm.run() {
            Step::Output(v) => return Outcome::Output(show(&v)),
            Step::Fault(e) => return Outcome::Runtime(e.message.to_string(), e.line),
            Step::Compute(task) => vm.resume(answer(task)),
        }
    }
}

fn output(s: &str) -> Outcome {
    Outcome::Output(s.to_string())
}

#[test]
fn adds_two_numbers() {
    assert_eq!(run_source("1 + 2"), output("3"));
}

#[test]
fn concatenates_strings() {
    assert_eq!(run_source("\"foo\" + \"bar\""), output("foobar"));
}

#[test]
fn number_never_equals_string() {
    assert_eq!(run_source("1 == \"1\""), output("false"));
}

#[test]
fn not_nil_is_true() {
    assert_eq!(run_source("!nil"), output("true"));
}

#[test]
fn zero_is_truthy() {
    assert_eq!(run_source("!0"), output("false"));
}

#[test]
fn negating_a_string_is_a_runtime_error() {
    assert_eq!(
        run_source("-\"a\""),
        Outcome::Runtime("Operand must be a number.".to_string(), 1)
    );
}

#[test]
fn unterminated_string_is_a_compile_error() {
    match run_source("\"abc") {
        Outcome::Compile(errors) => {
            assert_eq!(errors[0].0, TokenType::Error);
            assert_eq!(errors[0].3, "Unterminated string");
        }
        other => panic!("expected a compile error, got {:?}", other),
    }
}

fn ones(n: usize) -> String {
    vec!["1"; n].join(" + ")
}

#[test]
fn too_many_constants_is_a_compile_error() {
    match run_source(&ones(257)) {
        Outcome::Compile(errors) => {
            assert_eq!(errors.len(), 1);
            assert_eq!(errors[0].3, "Too many constants in one chunk.");
        }
        other => panic!("expected a compile error, got {:?}", other),
    }
}

#[test]
fn full_constant_pool_still_compiles() {
    assert_eq!(run_source(&ones(256)), output("256"));
}

#[test]
fn factor_binds_tighter_than_term() {
    assert_eq!(run_source("1 + 2 * 3"), output("7"));
    assert_eq!(run_source("(1 + 2) * 3"), output("9"));
}

#[test]
fn subtraction_groups_to_the_left() {
    assert_eq!(run_source("10 - 4 - 3"), output("3"));
    assert_eq!(run_source("8 / 4 / 2"), output("1"));
}

#[test]
fn compound_comparisons() {
    assert_eq!(run_source("2 >= 2"), output("true"));
    assert_eq!(run_source("1 <= 0"), output("false"));
    assert_eq!(run_source("1 != 2"), output("true"));
    assert_eq!(run_source("3 > 2"), output("true"));
    assert_eq!(run_source("3 < 2"), output("false"));
}

#[test]
fn equality_of_each_kind() {
    assert_eq!(run_source("\"a\" == \"a\""), output("true"));
    assert_eq!(run_source("\"a\" == \"b\""), output("false"));
    assert_eq!(run_source("nil == nil"), output("true"));
    assert_eq!(run_source("true == false"), output("false"));
    assert_eq!(run_source("nil == false"), output("false"));
    assert_eq!(run_source("0.5 == 0.5"), output("true"));
}

#[test]
fn unary_operators() {
    assert_eq!(run_source("-(3)"), output("-3"));
    assert_eq!(run_source("--4"), output("4"));
    assert_eq!(run_source("!true"), output("false"));
    assert_eq!(run_source("!!\"\""), output("true"));
}

#[test]
fn literals_evaluate_to_themselves() {
    assert_eq!(run_source("nil"), output("nil"));
    assert_eq!(run_source("true"), output("true"));
    assert_eq!(run_source("2.5"), output("2.5"));
    assert_eq!(run_source("\"\""), output(""));
}

#[test]
fn strings_join_only_with_plus() {
    assert_eq!(
        run_source("\"a\" - \"b\""),
        Outcome::Runtime("Operands must be two numbers or two strings.".to_string(), 1)
    );
    assert_eq!(
        run_source("true + 1"),
        Outcome::Runtime("Operands must be two numbers or two strings.".to_string(), 1)
    );
    assert_eq!(
        run_source("\"a\" < \"b\""),
        Outcome::Runtime("Operands must be two numbers or two strings.".to_string(), 1)
    );
}

#[test]
fn runtime_error_reports_its_line() {
    assert_eq!(
        run_source("1 +\n\n nil"),
        Outcome::Runtime("Operands must be two numbers or two strings.".to_string(), 3)
    );
}

#[test]
fn missing_operand_is_a_compile_error() {
    assert_eq!(
        run_source("1 +"),
        Outcome::Compile(vec![(
            TokenType::EOF,
            String::new(),
            1,
            "Expect expression.".to_string()
        )])
    );
}

#[test]
fn unclosed_group_is_a_compile_error() {
    assert_eq!(
        run_source("(1"),
        Outcome::Compile(vec![(
            TokenType::EOF,
            String::new(),
            1,
            "Expect ')' after expression.".to_string()
        )])
    );
}

#[test]
fn trailing_tokens_are_a_compile_error() {
    assert_eq!(
        run_source("1 2"),
        Outcome::Compile(vec![(
            TokenType::Number,
            "2".to_string(),
            1,
            "Expect end of expression".to_string()
        )])
    );
}

#[test]
fn unexpected_character_is_a_compile_error() {
    assert_eq!(
        run_source("1 + @"),
        Outcome::Compile(vec![(
            TokenType::Error,
            "Unexpected character.".to_string(),
            1,
            "Unexpected character.".to_string()
        )])
    );
}

#[test]
fn only_the_first_error_is_reported() {
    match run_source("@ # $") {
        Outcome::Compile(errors) => assert_eq!(errors.len(), 1),
        other => panic!("expected a compile error, got {:?}", other),
    }
}

#[test]
fn missing_number_value_is_a_compile_error() {
    match compile("1 + 2", &[1.0f64.to_bits()]) {
        Err(errors) => {
            assert_eq!(errors.len(), 1);
            assert_eq!(errors[0].message, "Missing value for number literal.");
        }
        Ok(_) => panic!("expected a compile error"),
    }
}

#[test]
fn comments_and_blank_lines_are_skipped() {
    assert_eq!(run_source("// a comment\n  1 + // more\n 2\n"), output("3"));
}

#[test]
fn empty_source_is_a_compile_error() {
    assert_eq!(
        run_source(""),
        Outcome::Compile(vec![(
            TokenType::EOF,
            String::new(),
            1,
            "Expect expression.".to_string()
        )])
    );
}

#[test]
fn deep_nesting_overflows_the_stack() {
    let mut source = String::new();
    for _ in 0..260 {
        source.push_str("true == (");
    }
    source.push_str("true");
    for _ in 0..260 {
        source.push(')');
    }
    assert_eq!(run_source(&source), Outcome::Runtime("Stack overflow.".to_string(), 1));
}

#[test]
fn division_follows_floating_point() {
    assert_eq!(run_source("1 / 4"), output("0.25"));
    assert_eq!(run_source("1 / 0"), output("inf"));
    assert_eq!(run_source("0.1 + 0.2"), output("0.30000000000000004"));
}
