use crate::chunk::{
    MAX_CONSTANTS, Chunk, Instruction, OpCode, constant_operands, encode, encode_all, first_indices,
    well_formed_instruction,
};
use crate::scanner::{
    Scanner, Token, TokenModel, TokenType, lemma_scan, lemma_tokens_end, number_texts, scan, tokens,
    tokens_from,
};
use crate::value::{Value, ValueModel};
use vstd::prelude::*;

verus! {

/// Binding strength of operators, from loosest to tightest.
#[derive(Clone, Copy, Debug, PartialEq, Eq, Structural)]
pub enum Precedence {
    Lowest,
    Assignment,
    Or,
    And,
    Equality,
    Comparison,
    Term,
    Factor,
    Unary,
    Call,
    Primary,
}

pub open spec fn level(p: Precedence) -> u8 {
    match p {
        Precedence::Lowest => 0,
        Precedence::Assignment => 1,
        Precedence::Or => 2,
        Precedence::And => 3,
        Precedence::Equality => 4,
        Precedence::Comparison => 5,
        Precedence::Term => 6,
        Precedence::Factor => 7,
        Precedence::Unary => 8,
        Precedence::Call => 9,
        Precedence::Primary => 10,
    }
}

impl Precedence {
    pub fn level(self) -> (r: u8)
        ensures
            r == level(self),
    {
        match self {
            Precedence::Lowest => 0,
            Precedence::Assignment => 1,
            Precedence::Or => 2,
            Precedence::And => 3,
            Precedence::Equality => 4,
            Precedence::Comparison => 5,
            Precedence::Term => 6,
            Precedence::Factor => 7,
            Precedence::Unary => 8,
            Precedence::Call => 9,
            Precedence::Primary => 10,
        }
    }

    /// The precedence one level tighter (`Primary` stays `Primary`).
    pub fn tighter(self) -> (r: Precedence)
        ensures
            r == tighter(self),
    {
        match Precedence::from_level(self.level() + 1) {
            Some(p) => p,
            None => Precedence::Primary,
        }
    }

    /// The precedence at a level, if there is one.
    pub fn from_level(l: u8) -> (r: Option<Precedence>)
        ensures
            l <= 10 ==> r is Some && level(r->0) == l,
            l > 10 ==> r is None,
    {
        match l {
            0 => Some(Precedence::Lowest),
            1 => Some(Precedence::Assignment),
            2 => Some(Precedence::Or),
            3 => Some(Precedence::And),
            4 => Some(Precedence::Equality),
            5 => Some(Precedence::Comparison),
            6 => Some(Precedence::Term),
            7 => Some(Precedence::Factor),
            8 => Some(Precedence::Unary),
            9 => Some(Precedence::Call),
            10 => Some(Precedence::Primary),
            _ => None,
        }
    }
}

/// The ways of compiling a piece of an expression.
#[derive(Clone, Copy, Debug, PartialEq, Eq, Structural)]
pub enum ParseFn {
    Grouping,
    Unary,
    Binary,
    Number,
    String,
    Literal,
}

/// How a token is compiled where it starts an expression (`prefix`), where it
/// follows one (`infix`), and how tightly it binds as an infix operator.
#[derive(Clone, Copy, Debug, PartialEq, Eq, Structural)]
pub struct ParseRule {
    pub prefix: Option<ParseFn>,
    pub infix: Option<ParseFn>,
    pub precedence: Precedence,
}

pub open spec fn parse_rule(
    prefix: Option<ParseFn>,
    infix: Option<ParseFn>,
    precedence: Precedence,
) -> ParseRule {
    ParseRule { prefix, infix, precedence }
}

/// The parse table.
pub open spec fn rule_of(ty: TokenType) -> ParseRule {
    match ty {
        TokenType::LeftParen => parse_rule(Some(ParseFn::Grouping), None, Precedence::Lowest),
        TokenType::Minus => parse_rule(
            Some(ParseFn::Unary),
            Some(ParseFn::Binary),
            Precedence::Term,
        ),
        TokenType::Plus => parse_rule(None, Some(ParseFn::Binary), Precedence::Term),
        TokenType::Slash => parse_rule(None, Some(ParseFn::Binary), Precedence::Factor),
        TokenType::Star => parse_rule(None, Some(ParseFn::Binary), Precedence::Factor),
        TokenType::Bang => parse_rule(Some(ParseFn::Unary), None, Precedence::Lowest),
        TokenType::BangEqual => parse_rule(None, Some(ParseFn::Binary), Precedence::Equality),
        TokenType::EqualEqual => parse_rule(None, Some(ParseFn::Binary), Precedence::Equality),
        TokenType::Greater => parse_rule(None, Some(ParseFn::Binary), Precedence::Comparison),
        TokenType::GreaterEqual => parse_rule(
            None,
            Some(ParseFn::Binary),
            Precedence::Comparison,
        ),
        TokenType::Less => parse_rule(None, Some(ParseFn::Binary), Precedence::Comparison),
        TokenType::LessEqual => parse_rule(None, Some(ParseFn::Binary), Precedence::Comparison),
        TokenType::String => parse_rule(Some(ParseFn::String), None, Precedence::Lowest),
        TokenType::Number => parse_rule(Some(ParseFn::Number), None, Precedence::Lowest),
        TokenType::False => parse_rule(Some(ParseFn::Literal), None, Precedence::Lowest),
        TokenType::Nil => parse_rule(Some(ParseFn::Literal), None, Precedence::Lowest),
        TokenType::True => parse_rule(Some(ParseFn::Literal), None, Precedence::Lowest),
        _ => parse_rule(None, None, Precedence::Lowest),
    }
}

/// Looks a token kind up in the parse table.
pub fn get_rule(ty: TokenType) -> (r: ParseRule)
    ensures
        r == rule_of(ty),
{
    match ty {
        TokenType::LeftParen => ParseRule {
            prefix: Some(ParseFn::Grouping),
            infix: None,
            precedence: Precedence::Lowest,
        },
        TokenType::Minus => ParseRule {
            prefix: Some(ParseFn::Unary),
            infix: Some(ParseFn::Binary),
            precedence: Precedence::Term,
        },
        TokenType::Plus => ParseRule {
            prefix: None,
            infix: Some(ParseFn::Binary),
            precedence: Precedence::Term,
        },
        TokenType::Slash | TokenType::Star => ParseRule {
            prefix: None,
            infix: Some(ParseFn::Binary),
            precedence: Precedence::Factor,
        },
        TokenType::Bang => ParseRule {
            prefix: Some(ParseFn::Unary),
            infix: None,
            precedence: Precedence::Lowest,
        },
        TokenType::BangEqual | TokenType::EqualEqual => ParseRule {
            prefix: None,
            infix: Some(ParseFn::Binary),
            precedence: Precedence::Equality,
        },
        TokenType::Greater | TokenType::GreaterEqual | TokenType::Less
        | TokenType::LessEqual => ParseRule {
            prefix: None,
            infix: Some(ParseFn::Binary),
            precedence: Precedence::Comparison,
        },
        TokenType::String => ParseRule {
            prefix: Some(ParseFn::String),
            infix: None,
            precedence: Precedence::Lowest,
        },
        TokenType::Number => ParseRule {
            prefix: Some(ParseFn::Number),
            infix: None,
            precedence: Precedence::Lowest,
        },
        TokenType::False | TokenType::Nil | TokenType::True => ParseRule {
            prefix: Some(ParseFn::Literal),
            infix: None,
            precedence: Precedence::Lowest,
        },
        _ => ParseRule { prefix: None, infix: None, precedence: Precedence::Lowest },
    }
}

/// A compile error: the token where it was found, and what is wrong. For an
/// error token of the scanner the message is the token's own text.
#[derive(Clone, Copy, Debug)]
pub struct CompileError<'a> {
    pub token: Token<'a>,
    pub message: &'a str,
}

/// The state of one compilation: the tokens around the parse point, the
/// errors so far, and the chunk being written.
pub struct Parser<'a, 'b> {
    scanner: Scanner<'a>,
    current: Token<'a>,
    previous: Token<'a>,
    had_error: bool,
    panic_mode: bool,
    chunk: Chunk,
    errors: Vec<CompileError<'a>>,
    numbers: &'b [u64],
    next_number: usize,
    instrs: Ghost<Seq<Instruction>>,
    ilines: Ghost<Seq<u32>>,
    seen: Ghost<Seq<TokenModel>>,
    pending: Ghost<bool>,
}

/// The instructions written so far are well formed, and each `Constant` loads
/// a constant of its own, in the order they were added.
pub open spec fn sound_code(instrs: Seq<Instruction>, constants: nat) -> bool {
    &&& forall|i: int| 0 <= i < instrs.len() ==> #[trigger] well_formed_instruction(instrs[i])
    &&& constant_operands(instrs) == first_indices(constants)
}

/// A finished chunk: a sequence of well-formed instructions that ends with
/// `Return`, the only `Return` in it, whose `Constant` instructions load the
/// chunk's constants one by one, in order.
pub open spec fn compiled(chunk: Chunk, instrs: Seq<Instruction>) -> bool {
    &&& chunk.wf()
    &&& chunk.code_seq() == encode_all(instrs)
    &&& instrs.len() > 0
    &&& instrs.last() == Instruction::Simple(OpCode::Return)
    &&& forall|i: int|
        0 <= i < instrs.len() - 1 ==> #[trigger] instrs[i] != Instruction::Simple(OpCode::Return)
    &&& sound_code(instrs, chunk.constant_seq().len())
}

/// What a successful compilation says of the source: it scans without error
/// tokens, there is a value for each of its number literals, and the chunk's
/// constants are the values of its literals, in order, so at most
/// `MAX_CONSTANTS` of them.
pub open spec fn literals_compiled(text: Seq<char>, numbers: Seq<u64>, chunk: Chunk) -> bool {
    let ts = tokens(text);
    &&& forall|i: int| 0 <= i < ts.len() ==> #[trigger] ts[i].ty != TokenType::Error
    &&& number_texts(ts).len() <= numbers.len()
    &&& chunk.constant_seq() == literal_values(ts, numbers)
    &&& literal_values(ts, numbers).len() <= MAX_CONSTANTS
}

/// The source compiles: its tokens, read in order, form one expression
/// followed by the end, without an error token, with at most
/// `MAX_CONSTANTS` literals and a value for each number literal.
pub open spec fn compilable(text: Seq<char>, numbers: Seq<u64>) -> bool {
    program_spec(tokens(text), numbers) is Ok
}

/// The first error of a source that does not compile.
pub open spec fn first_error(text: Seq<char>, numbers: Seq<u64>) -> Failure {
    program_spec(tokens(text), numbers)->Err_0
}

/// The chunk's code is the grammar's code for the source, and each byte's
/// line is the line of its instruction there.
pub open spec fn code_of_source(chunk: Chunk, text: Seq<char>, numbers: Seq<u64>) -> bool {
    exists|instrs: Seq<Instruction>, lines: Seq<u32>|
        #[trigger] compiled(chunk, instrs) && lines.len() == instrs.len() && chunk.line_seq()
            == encode_lines(instrs, lines) && #[trigger] pieces(instrs, lines) == program_spec(
            tokens(text),
            numbers,
        )->Ok_0
}

/// The chunk is a finished one, for some sequence of instructions.
pub open spec fn is_compiled(chunk: Chunk) -> bool {
    exists|instrs: Seq<Instruction>| #[trigger] compiled(chunk, instrs)
}

proof fn lemma_push_instruction(instrs: Seq<Instruction>, ins: Instruction)
    ensures
        encode_all(instrs.push(ins)) == encode_all(instrs) + encode(ins),
        constant_operands(instrs.push(ins)) == match ins {
            Instruction::Constant(i) => constant_operands(instrs).push(i),
            Instruction::Simple(_) => constant_operands(instrs),
        },
{
    assert(instrs.push(ins).drop_last() =~= instrs);
}

/// All but the last of the tokens seen: the last is the current token.
pub open spec fn consumed(seen: Seq<TokenModel>) -> Seq<TokenModel> {
    if seen.len() == 0 {
        seen
    } else {
        seen.drop_last()
    }
}

/// The text of a string literal between its quotes.
pub open spec fn string_contents(lexeme: Seq<char>) -> Seq<char> {
    lexeme.subrange(1, lexeme.len() - 1)
}

/// The values of the literals among `ts`, in order: a number literal takes
/// the next of `numbers`, a string literal its text between the quotes.
pub open spec fn literal_values(ts: Seq<TokenModel>, numbers: Seq<u64>) -> Seq<ValueModel>
    decreases ts.len(),
{
    if ts.len() == 0 {
        Seq::empty()
    } else {
        let init = ts.drop_last();
        let t = ts.last();
        if t.ty == TokenType::Number {
            literal_values(init, numbers).push(
                ValueModel::Number(numbers[number_texts(init).len() as int]),
            )
        } else if t.ty == TokenType::String {
            literal_values(init, numbers).push(ValueModel::Str(string_contents(t.lexeme)))
        } else {
            literal_values(init, numbers)
        }
    }
}

pub open spec fn is_literal(ty: TokenType) -> bool {
    ty == TokenType::Number || ty == TokenType::String
}

proof fn lemma_literals_push(ts: Seq<TokenModel>, t: TokenModel, numbers: Seq<u64>)
    ensures
        literal_values(ts.push(t), numbers) == if t.ty == TokenType::Number {
            literal_values(ts, numbers).push(ValueModel::Number(numbers[number_texts(ts).len() as int]))
        } else if t.ty == TokenType::String {
            literal_values(ts, numbers).push(ValueModel::Str(string_contents(t.lexeme)))
        } else {
            literal_values(ts, numbers)
        },
        number_texts(ts.push(t)) == if t.ty == TokenType::Number {
            number_texts(ts).push(t.lexeme)
        } else {
            number_texts(ts)
        },
{
    assert(ts.push(t).drop_last() =~= ts);
}

/// Some token of `seen` is an error token.
pub open spec fn has_error_token(seen: Seq<TokenModel>) -> bool {
    exists|i: int| 0 <= i < seen.len() && #[trigger] seen[i].ty == TokenType::Error
}

/// A piece of compiled code, with a literal standing for the `Constant`
/// instruction that loads it.
pub enum Emit {
    Literal,
    Op(OpCode),
}

pub open spec fn shape(ins: Instruction) -> Emit {
    match ins {
        Instruction::Constant(_) => Emit::Literal,
        Instruction::Simple(op) => Emit::Op(op),
    }
}

pub open spec fn shapes(instrs: Seq<Instruction>) -> Seq<Emit> {
    instrs.map_values(|ins: Instruction| shape(ins))
}

/// Each instruction's shape with its line.
pub open spec fn pieces(instrs: Seq<Instruction>, lines: Seq<u32>) -> Seq<(Emit, u32)> {
    Seq::new(instrs.len(), |k: int| (shape(instrs[k]), lines[k]))
}

/// The pieces of code without their lines.
pub open spec fn emits(c: Seq<(Emit, u32)>) -> Seq<Emit> {
    c.map_values(|p: (Emit, u32)| p.0)
}

/// The line of each byte of the instructions: every byte of an instruction
/// has that instruction's line.
pub open spec fn encode_lines(instrs: Seq<Instruction>, lines: Seq<u32>) -> Seq<u32>
    decreases instrs.len(),
{
    if instrs.len() == 0 || lines.len() == 0 {
        Seq::empty()
    } else {
        encode_lines(instrs.drop_last(), lines.drop_last()) + Seq::new(
            encode(instrs.last()).len(),
            |b: int| lines.last(),
        )
    }
}

/// The precedence one level tighter than `p` (`Primary` stays `Primary`).
pub open spec fn tighter(p: Precedence) -> Precedence {
    match p {
        Precedence::Lowest => Precedence::Assignment,
        Precedence::Assignment => Precedence::Or,
        Precedence::Or => Precedence::And,
        Precedence::And => Precedence::Equality,
        Precedence::Equality => Precedence::Comparison,
        Precedence::Comparison => Precedence::Term,
        Precedence::Term => Precedence::Factor,
        Precedence::Factor => Precedence::Unary,
        Precedence::Unary => Precedence::Call,
        _ => Precedence::Primary,
    }
}

/// The code of a binary operator: one instruction, or for `!=`, `>=` and
/// `<=` the opposite comparison followed by `Not`; all on line `line`.
pub open spec fn operator_code(ty: TokenType, line: u32) -> Seq<(Emit, u32)> {
    match ty {
        TokenType::BangEqual => seq![(Emit::Op(OpCode::Equal), line), (Emit::Op(OpCode::Not), line)],
        TokenType::EqualEqual => seq![(Emit::Op(OpCode::Equal), line)],
        TokenType::Greater => seq![(Emit::Op(OpCode::Greater), line)],
        TokenType::GreaterEqual => seq![(Emit::Op(OpCode::Less), line), (Emit::Op(OpCode::Not), line)],
        TokenType::Less => seq![(Emit::Op(OpCode::Less), line)],
        TokenType::LessEqual => seq![(Emit::Op(OpCode::Greater), line), (Emit::Op(OpCode::Not), line)],
        TokenType::Plus => seq![(Emit::Op(OpCode::Add), line)],
        TokenType::Minus => seq![(Emit::Op(OpCode::Subtract), line)],
        TokenType::Star => seq![(Emit::Op(OpCode::Multiply), line)],
        _ => seq![(Emit::Op(OpCode::Divide), line)],
    }
}

/// A compile error as the grammar finds it: the token, and the message.
pub struct Failure {
    pub token: TokenModel,
    pub message: Seq<char>,
}

pub open spec fn failure(token: TokenModel, message: Seq<char>) -> Failure {
    Failure { token, message }
}

pub open spec fn expect_expression() -> Seq<char> {
    "Expect expression."@
}

pub open spec fn expect_paren() -> Seq<char> {
    "Expect ')' after expression."@
}

pub open spec fn expect_end() -> Seq<char> {
    "Expect end of expression"@
}

pub open spec fn too_many_constants() -> Seq<char> {
    "Too many constants in one chunk."@
}

pub open spec fn missing_number() -> Seq<char> {
    "Missing value for number literal."@
}

/// Moving past the token at `c` reads an error token: the scanner's message
/// is then the error, at that token.
pub open spec fn next_is_error(ts: Seq<TokenModel>, c: int) -> bool {
    ts[c].ty != TokenType::EOF && c + 1 < ts.len() && ts[c + 1].ty == TokenType::Error
}

pub open spec fn scan_failure(ts: Seq<TokenModel>, c: int) -> Failure {
    failure(ts[c], ts[c].lexeme)
}

/// The error in writing the literal at `i`, if any: a number literal without a
/// value, or a literal beyond the `MAX_CONSTANTS` a chunk holds.
pub open spec fn literal_failure(ts: Seq<TokenModel>, numbers: Seq<u64>, i: int) -> Option<Failure> {
    let upto = ts.take(i + 1);
    if ts[i].ty == TokenType::Number && number_texts(upto).len() > numbers.len() {
        Some(failure(ts[i], missing_number()))
    } else if literal_values(upto, numbers).len() > MAX_CONSTANTS {
        Some(failure(ts[i], too_many_constants()))
    } else {
        None
    }
}

/// The grammar of expressions, as precedence climbing over the token
/// sequence `ts`, with the values `numbers` of the number literals. Each of the
/// three functions takes the position of a token and gives, for a well-formed
/// piece, the position just after it and its code in postfix order; otherwise
/// the first error met, in the order the tokens are read.
///
/// `parse_fn_spec`: what the rule `f` makes of the token at `i` and what
/// follows it. A group is an expression followed by `)`; a prefix operator
/// applies to an expression of unary precedence; a binary operator is
/// followed by its right operand, which binds one level tighter; a literal
/// becomes a constant load.
pub open spec fn parse_fn_spec(f: ParseFn, ts: Seq<TokenModel>, numbers: Seq<u64>, i: int) -> Result<
    (int, Seq<(Emit, u32)>),
    Failure,
>
    decreases ts.len() - i, 1nat,
{
    if 0 <= i < ts.len() {
        match f {
            ParseFn::Grouping => match expr_spec(ts, numbers, i + 1, Precedence::Assignment) {
                Ok((j, c)) => if 0 <= j < ts.len() && ts[j].ty == TokenType::RightParen {
                    if next_is_error(ts, j) {
                        Err(scan_failure(ts, j + 1))
                    } else {
                        Ok((j + 1, c))
                    }
                } else {
                    Err(failure(ts[j], expect_paren()))
                },
                Err(e) => Err(e),
            },
            ParseFn::Unary => match expr_spec(ts, numbers, i + 1, Precedence::Unary) {
                Ok((j, c)) => Ok(
                    (
                        j,
                        c.push(
                            (
                                if ts[i].ty == TokenType::Bang {
                                    Emit::Op(OpCode::Not)
                                } else {
                                    Emit::Op(OpCode::Negate)
                                },
                                ts[j - 1].line,
                            ),
                        ),
                    ),
                ),
                Err(e) => Err(e),
            },
            ParseFn::Binary => match expr_spec(
                ts,
                numbers,
                i + 1,
                tighter(rule_of(ts[i].ty).precedence),
            ) {
                Ok((j, c)) => Ok((j, c + operator_code(ts[i].ty, ts[j - 1].line))),
                Err(e) => Err(e),
            },
            ParseFn::Literal => Ok(
                (
                    i + 1,
                    seq![
                        (
                            if ts[i].ty == TokenType::False {
                                Emit::Op(OpCode::False)
                            } else if ts[i].ty == TokenType::Nil {
                                Emit::Op(OpCode::Nil)
                            } else {
                                Emit::Op(OpCode::True)
                            },
                            ts[i].line,
                        ),
                    ],
                ),
            ),
            _ => match literal_failure(ts, numbers, i) {
                Some(e) => Err(e),
                None => Ok((i + 1, seq![(Emit::Literal, ts[i].line)])),
            },
        }
    } else {
        Err(failure(ts[i], expect_expression()))
    }
}

/// An expression whose operators bind at least as tightly as `min`, starting
/// with the current token at `i`: that token is read past, then it must start
/// a prefix form, which the infix operators that follow extend.
pub open spec fn expr_spec(ts: Seq<TokenModel>, numbers: Seq<u64>, i: int, min: Precedence) -> Result<
    (int, Seq<(Emit, u32)>),
    Failure,
>
    decreases ts.len() - i, 3nat,
{
    if 0 <= i < ts.len() {
        if next_is_error(ts, i) {
            Err(scan_failure(ts, i + 1))
        } else {
            match rule_of(ts[i].ty).prefix {
                None => Err(failure(ts[i], expect_expression())),
                Some(f) => match parse_fn_spec(f, ts, numbers, i) {
                    Ok((j, c)) => if i < j <= ts.len() {
                        infix_spec(ts, numbers, j, min, c)
                    } else {
                        Err(failure(ts[i], expect_expression()))
                    },
                    Err(e) => Err(e),
                },
            }
        }
    } else {
        Err(failure(ts[i], expect_expression()))
    }
}

/// After the code `left` of an operand, with the current token at `j`: each
/// infix operator that binds at least as tightly as `min`, with its right
/// operand.
pub open spec fn infix_spec(
    ts: Seq<TokenModel>,
    numbers: Seq<u64>,
    j: int,
    min: Precedence,
    left: Seq<(Emit, u32)>,
) -> Result<(int, Seq<(Emit, u32)>), Failure>
    decreases ts.len() - j, 2nat,
{
    if 0 <= j < ts.len() {
        if level(min) <= level(rule_of(ts[j].ty).precedence) {
            if next_is_error(ts, j) {
                Err(scan_failure(ts, j + 1))
            } else {
                match parse_fn_spec(ParseFn::Binary, ts, numbers, j) {
                    Ok((k, c)) => if j < k <= ts.len() {
                        infix_spec(ts, numbers, k, min, left + c)
                    } else {
                        Err(failure(ts[j], expect_expression()))
                    },
                    Err(e) => Err(e),
                }
            }
        } else {
            Ok((j, left))
        }
    } else {
        Err(failure(ts[j], expect_expression()))
    }
}

/// The source is one expression followed by the end: its code, in postfix
/// order, with a literal for each constant load, then `Return`, each piece with
/// the line of the token read last when it is written; or the first error met.
pub open spec fn program_spec(ts: Seq<TokenModel>, numbers: Seq<u64>) -> Result<
    Seq<(Emit, u32)>,
    Failure,
> {
    if ts.len() > 0 && ts[0].ty == TokenType::Error {
        Err(scan_failure(ts, 0))
    } else {
        match expr_spec(ts, numbers, 0, Precedence::Assignment) {
            Ok((j, c)) => if 0 <= j < ts.len() && ts[j].ty == TokenType::EOF {
                Ok(c.push((Emit::Op(OpCode::Return), ts[j].line)))
            } else {
                Err(failure(ts[j], expect_end()))
            },
            Err(e) => Err(e),
        }
    }
}

/// The error a compile error stands for.
pub open spec fn failure_of(e: CompileError) -> Failure {
    failure(e.token@, e.message@)
}

proof fn lemma_lines_push(instrs: Seq<Instruction>, lines: Seq<u32>, ins: Instruction, line: u32)
    requires
        lines.len() == instrs.len(),
    ensures
        encode_lines(instrs.push(ins), lines.push(line)) == encode_lines(instrs, lines) + Seq::new(
            encode(ins).len(),
            |b: int| line,
        ),
{
    assert(instrs.push(ins).drop_last() =~= instrs);
    assert(lines.push(line).drop_last() =~= lines);
}

impl<'a, 'b> Parser<'a, 'b> {
    pub closed spec fn inv(&self) -> bool {
        &&& self.base_inv()
        &&& self.shape_inv()
        &&& self.values_inv()
        &&& self.previous_inv()
    }

    /// Without errors, a token consumed is the one before the current token.
    pub closed spec fn previous_inv(&self) -> bool {
        let seen = self.seen@;
        !self.had_error && self.previous.ty != TokenType::EOF && self.previous.ty
            != TokenType::Error ==> seen.len() >= 2 && seen[seen.len() - 2] == self.previous@
    }

    pub closed spec fn base_inv(&self) -> bool {
        &&& self.scanner.wf()
        &&& self.chunk.wf()
        &&& self.chunk.code_seq() == encode_all(self.instrs@)
        &&& self.ilines@.len() == self.instrs@.len()
        &&& self.chunk.line_seq() == encode_lines(self.instrs@, self.ilines@)
        &&& forall|i: int|
            0 <= i < self.instrs@.len() ==> #[trigger] well_formed_instruction(self.instrs@[i])
        &&& forall|i: int|
            0 <= i < self.instrs@.len() ==> #[trigger] self.instrs@[i] != Instruction::Simple(
                OpCode::Return,
            )
        &&& !self.had_error ==> constant_operands(self.instrs@) == first_indices(
            self.chunk.constant_seq().len(),
        )
        &&& self.had_error == (self.errors@.len() > 0)
        &&& self.errors@.len() <= 1
        &&& self.panic_mode == self.had_error
        &&& self.current.ty == TokenType::EOF ==> {
            &&& self.scanner.position() == self.scanner.text().len()
            &&& self.current.line == self.scanner.line()
            &&& self.current.lexeme@ == Seq::<char>::empty()
        }
        &&& self.current.ty == TokenType::String ==> self.current.lexeme@.len() >= 2
        &&& self.previous.ty == TokenType::String ==> self.previous.lexeme@.len() >= 2
        &&& self.next_number <= self.numbers@.len()
        &&& self.previous.ty == TokenType::EOF ==> self.current.ty == TokenType::EOF
    }

    /// The tokens seen so far, the current one last, are the first tokens of
    /// the source.
    pub closed spec fn shape_inv(&self) -> bool {
        let seen = self.seen@;
        let text = self.scanner.text();
        &&& self.current.ty != TokenType::EOF ==> seen + tokens_from(
            text,
            self.scanner.position(),
            self.scanner.line(),
        ) == tokens(text)
        &&& self.current.ty == TokenType::EOF ==> seen == tokens(text)
        &&& seen.len() > 0 ==> seen.last() == self.current@
        &&& seen.len() == 0 ==> self.current.ty == TokenType::Error
        &&& self.pending@ ==> is_literal(self.previous.ty) && seen.len() >= 2 && seen[seen.len()
            - 2] == self.previous@
    }

    /// Without errors so far: no error token was seen, and the constants are
    /// the values of the literals consumed, but for a literal just consumed
    /// and not yet written (`pending`).
    pub closed spec fn values_inv(&self) -> bool {
        let seen = self.seen@;
        let lv = literal_values(consumed(seen), self.numbers@);
        !self.had_error ==> {
            &&& forall|i: int| 0 <= i < seen.len() ==> #[trigger] seen[i].ty != TokenType::Error
            &&& self.chunk.constant_seq() == if self.pending@ {
                lv.drop_last()
            } else {
                lv
            }
            &&& self.pending@ ==> lv.len() > 0
            &&& self.next_number + if self.pending@ && self.previous.ty == TokenType::Number {
                1int
            } else {
                0int
            } == number_texts(consumed(seen)).len()
        }
    }

    /// Twice the characters left to scan, and one more while the current
    /// token is not `EOF`: consuming a token that is not `EOF` lowers it.
    pub closed spec fn measure(&self) -> nat {
        (2 * (self.scanner.text().len() - self.scanner.position()) + if self.current.ty
            == TokenType::EOF {
            0int
        } else {
            1int
        }) as nat
    }

    /// The source's tokens.
    pub closed spec fn ts(&self) -> Seq<TokenModel> {
        tokens(self.scanner.text())
    }

    /// The values given for the number literals.
    pub closed spec fn nums(&self) -> Seq<u64> {
        self.numbers@
    }

    /// Code is only added, tokens are only consumed, errors stay, and once an
    /// error is recorded the list of errors stays as it is.
    pub closed spec fn grows(&self, before: Self) -> bool {
        &&& before.instrs@.len() <= self.instrs@.len()
        &&& forall|i: int| 0 <= i < before.instrs@.len() ==> #[trigger] self.instrs@[i] == before.instrs@[i]
        &&& forall|i: int| 0 <= i < before.instrs@.len() ==> #[trigger] self.ilines@[i] == before.ilines@[i]
        &&& self.ilines@.len() == self.instrs@.len()
        &&& before.ilines@.len() == before.instrs@.len()
        &&& before.seen@.len() <= self.seen@.len()
        &&& before.had_error ==> self.had_error
        &&& before.had_error ==> self.errors@ == before.errors@
        &&& self.scanner.text() == before.scanner.text()
        &&& self.numbers@ == before.numbers@
    }

    /// The code written since `before`, literals standing for their loads.
    pub closed spec fn emitted(&self, before: Self) -> Seq<(Emit, u32)> {
        let a = before.instrs@.len() as int;
        let b = self.instrs@.len() as int;
        pieces(self.instrs@.subrange(a, b), self.ilines@.subrange(a, b))
    }

    /// Starting without errors: the parse went as the grammar says (`expect`),
    /// ending before the current token; or the grammar fails, and its error is
    /// the one error recorded.
    pub closed spec fn outcome(
        &self,
        before: Self,
        expect: Result<(int, Seq<(Emit, u32)>), Failure>,
    ) -> bool {
        !before.had_error ==> {
            &&& !self.had_error ==> expect == Ok::<(int, Seq<(Emit, u32)>), Failure>(
                (self.seen@.len() - 1, self.emitted(before)),
            )
            &&& !self.had_error ==> self.previous.ty != TokenType::EOF && self.previous.ty
                != TokenType::Error
            &&& self.had_error ==> expect is Err && self.errors@.len() == 1 && failure_of(
                self.errors@[0],
            ) == expect->Err_0
        }
    }

    /// The seen tokens are the first tokens of the source; the current one is
    /// the last of them, and unless it is `EOF` more tokens follow.
    proof fn lemma_seen_prefix(&self)
        requires
            self.base_inv(),
            self.shape_inv(),
        ensures
            self.seen@ == self.ts().take(self.seen@.len() as int),
            self.seen@.len() <= self.ts().len(),
            self.seen@.len() > 0 ==> self.ts()[self.seen@.len() - 1] == self.current@,
            self.current.ty != TokenType::EOF ==> self.seen@.len() < self.ts().len(),
    {
        let seen = self.seen@;
        if self.current.ty != TokenType::EOF {
            self.scanner.lemma_wf();
            let rest = tokens_from(self.scanner.text(), self.scanner.position(), self.scanner.line());
            lemma_tokens_end(self.scanner.text(), self.scanner.position(), self.scanner.line());
            assert(seen + rest == self.ts());
            assert(self.ts().take(seen.len() as int) =~= seen);
            if seen.len() > 0 {
                assert(self.ts()[seen.len() - 1] == seen[seen.len() - 1]);
            }
        } else {
            assert(self.ts().take(seen.len() as int) =~= seen);
        }
    }

    /// Code written from `before` to `middle`, then on to `self`.
    proof fn lemma_emitted_concat(&self, before: Self, middle: Self)
        requires
            middle.grows(before),
            self.grows(middle),
        ensures
            self.grows(before),
            self.emitted(before) == middle.emitted(before) + self.emitted(middle),
    {
        let a = before.instrs@.len() as int;
        let b = middle.instrs@.len() as int;
        let c = self.instrs@;
        let l = self.ilines@;
        let n = c.len() as int;
        assert(c.subrange(a, b) =~= middle.instrs@.subrange(a, b));
        assert(l.subrange(a, b) =~= middle.ilines@.subrange(a, b));
        assert(pieces(c.subrange(a, n), l.subrange(a, n)) =~= pieces(c.subrange(a, b), l.subrange(a, b))
            + pieces(c.subrange(b, n), l.subrange(b, n)));
    }

    /// The code written since `before`, when nothing or one instruction was.
    proof fn lemma_emitted_small(&self, before: Self)
        requires
            self.grows(before),
            self.instrs@.len() <= before.instrs@.len() + 1,
        ensures
            self.instrs@.len() == before.instrs@.len() ==> self.emitted(before) == Seq::<
                (Emit, u32),
            >::empty(),
            self.instrs@.len() == before.instrs@.len() + 1 ==> self.emitted(before) == seq![
                (shape(self.instrs@.last()), self.ilines@.last()),
            ],
    {
        let a = before.instrs@.len() as int;
        let c = self.instrs@;
        let l = self.ilines@;
        if c.len() == a {
            assert(pieces(c.subrange(a, a), l.subrange(a, a)) =~= Seq::<(Emit, u32)>::empty());
        } else {
            assert(pieces(c.subrange(a, a + 1), l.subrange(a, a + 1)) =~= seq![
                (shape(c.last()), l.last()),
            ]);
        }
    }

    /// Where the current token stands among the source's tokens.
    pub closed spec fn position(&self) -> int {
        self.seen@.len() - 1
    }

    /// Unless an error was recorded, a current token has been read.
    pub closed spec fn started(&self) -> bool {
        !self.had_error ==> self.seen@.len() >= 1
    }

    /// No literal is waiting to be written, unless an error was recorded.
    pub closed spec fn settled(&self) -> bool {
        !self.pending@ || self.had_error
    }

    /// The text and the number values are those the parser started with.
    pub closed spec fn same_source(&self, before: Self) -> bool {
        &&& self.scanner.text() == before.scanner.text()
        &&& self.numbers@ == before.numbers@
    }

    /// The code is that of `before` with `Return` added.
    pub closed spec fn returned(&self, before: Self) -> bool {
        &&& self.instrs@ == before.instrs@.push(Instruction::Simple(OpCode::Return))
        &&& self.ilines@ == before.ilines@.push(before.previous.line)
    }

    /// Only the code has changed since `before`.
    pub closed spec fn same_tokens(&self, before: Self) -> bool {
        &&& self.scanner == before.scanner
        &&& self.numbers@ == before.numbers@
        &&& self.seen == before.seen
        &&& self.pending == before.pending
        &&& self.current == before.current
        &&& self.previous == before.previous
        &&& self.had_error == before.had_error
        &&& self.next_number == before.next_number
        &&& self.chunk.constant_seq() == before.chunk.constant_seq()
        &&& self.errors@ == before.errors@
    }

    /// Unless an error was recorded, the chunk is complete.
    pub closed spec fn finished(&self) -> bool {
        !self.had_error ==> {
            &&& compiled(self.chunk, self.instrs@)
            &&& self.ilines@.len() == self.instrs@.len()
            &&& self.chunk.line_seq() == encode_lines(self.instrs@, self.ilines@)
        }
    }

    /// How many errors have been recorded.
    pub closed spec fn error_count(&self) -> nat {
        self.errors@.len()
    }

    /// Whether an error has been recorded.
    pub closed spec fn failed(&self) -> bool {
        self.had_error
    }

    fn new(scanner: Scanner<'a>, numbers: &'b [u64]) -> (r: Parser<'a, 'b>)
        requires
            scanner.wf(),
            scanner.position() == 0,
            scanner.line() == 1,
        ensures
            r.inv(),
            r.settled(),
            !r.failed(),
            r.scanner.text() == scanner.text(),
            r.numbers@ == numbers@,
            r.current.ty == TokenType::Error,
            r.instrs@ == Seq::<Instruction>::empty(),
            r.seen@ == Seq::<TokenModel>::empty(),
    {
        let r = Parser {
            scanner,
            current: Token::default(),
            previous: Token::default(),
            had_error: false,
            panic_mode: false,
            chunk: Chunk::new(),
            errors: Vec::new(),
            numbers,
            next_number: 0,
            instrs: Ghost(Seq::empty()),
            ilines: Ghost(Seq::empty()),
            seen: Ghost(Seq::empty()),
            pending: Ghost(false),
        };
        assert(first_indices(0) =~= Seq::<u8>::empty());
        assert(Seq::<TokenModel>::empty() + tokens_from(r.scanner.text(), 0, 1) =~= tokens(
            r.scanner.text(),
        ));
        r
    }

    /// Records an error at `token`, unless one was recorded already.
    fn error_at(&mut self, token: Token<'a>, message: &'a str)
        requires
            old(self).base_inv(),
            old(self).shape_inv(),
        ensures
            final(self).inv(),
            final(self).failed(),
            final(self).measure() == old(self).measure(),
            final(self).current == old(self).current,
            final(self).previous == old(self).previous,
            final(self).instrs == old(self).instrs,
            final(self).ilines == old(self).ilines,
            final(self).chunk == old(self).chunk,
            final(self).scanner == old(self).scanner,
            final(self).numbers == old(self).numbers,
            final(self).next_number == old(self).next_number,
            final(self).seen == old(self).seen,
            final(self).pending == old(self).pending,
            final(self).grows(*old(self)),
            old(self).panic_mode ==> final(self).errors@ == old(self).errors@,
            !old(self).panic_mode ==> final(self).errors@ == old(self).errors@.push(
                (CompileError { token, message }),
            ),
    {
        if self.panic_mode {
            return;
        }
        self.panic_mode = true;
        self.had_error = true;
        self.errors.push(CompileError { token, message });
    }

    fn error_at_current(&mut self, message: &'a str)
        requires
            old(self).base_inv(),
            old(self).shape_inv(),
        ensures
            final(self).inv(),
            final(self).failed(),
            final(self).measure() == old(self).measure(),
            final(self).current == old(self).current,
            final(self).previous == old(self).previous,
            final(self).instrs == old(self).instrs,
            final(self).ilines == old(self).ilines,
            final(self).chunk == old(self).chunk,
            final(self).scanner == old(self).scanner,
            final(self).numbers == old(self).numbers,
            final(self).next_number == old(self).next_number,
            final(self).seen == old(self).seen,
            final(self).pending == old(self).pending,
            final(self).grows(*old(self)),
            old(self).panic_mode ==> final(self).errors@ == old(self).errors@,
            !old(self).panic_mode ==> final(self).errors@ == old(self).errors@.push(
                (CompileError { token: old(self).current, message }),
            ),
    {
        let token = self.current;
        self.error_at(token, message);
    }

    fn error(&mut self, message: &'a str)
        requires
            old(self).inv(),
        ensures
            final(self).inv(),
            final(self).failed(),
            final(self).measure() == old(self).measure(),
            final(self).current == old(self).current,
            final(self).previous == old(self).previous,
            final(self).instrs == old(self).instrs,
            final(self).ilines == old(self).ilines,
            final(self).chunk == old(self).chunk,
            final(self).scanner == old(self).scanner,
            final(self).numbers == old(self).numbers,
            final(self).next_number == old(self).next_number,
            final(self).seen == old(self).seen,
            final(self).pending == old(self).pending,
            final(self).grows(*old(self)),
            old(self).panic_mode ==> final(self).errors@ == old(self).errors@,
            !old(self).panic_mode ==> final(self).errors@ == old(self).errors@.push(
                (CompileError { token: old(self).previous, message }),
            ),
    {
        let token = self.previous;
        self.error_at(token, message);
    }

    /// Moves to the next token that is not an error token, recording an error
    /// for each error token on the way.
    fn advance(&mut self)
        requires
            old(self).inv(),
            old(self).settled(),
        ensures
            final(self).inv(),
            final(self).same_source(*old(self)),
            final(self).previous == old(self).current,
            final(self).current.ty != TokenType::Error,
            final(self).measure() <= old(self).measure(),
            old(self).current.ty != TokenType::EOF ==> final(self).measure() < old(
                self,
            ).measure(),
            old(self).failed() ==> final(self).failed(),
            final(self).pending@ == (is_literal(old(self).current.ty) && !final(self).had_error),
            final(self).instrs == old(self).instrs,
            final(self).ilines == old(self).ilines,
            final(self).chunk == old(self).chunk,
            final(self).next_number == old(self).next_number,
            final(self).grows(*old(self)),
            !old(self).had_error ==> final(self).had_error == (old(self).current.ty
                != TokenType::EOF && old(self).ts()[old(self).seen@.len() as int].ty
                == TokenType::Error),
            !old(self).had_error && final(self).had_error ==> final(self).errors@.len() == 1
                && failure_of(final(self).errors@[0]) == scan_failure(
                old(self).ts(),
                old(self).seen@.len() as int,
            ),
            !final(self).had_error ==> final(self).seen@.len() == old(self).seen@.len() + if old(
                self,
            ).current.ty == TokenType::EOF {
                0int
            } else {
                1int
            },
    {
        let ghost was_eof = self.current.ty == TokenType::EOF;
        let ghost seen0 = self.seen@;
        let ghost ts0 = self.ts();
        proof {
            self.lemma_seen_prefix();
        }
        self.previous = self.current;
        let ghost start = self.scanner.position();
        proof {
            self.scanner.lemma_wf();
            self.pending@ = false;
        }
        loop
            invariant_except_break
                self.base_inv(),
                self.shape_inv(),
                !self.had_error ==> self.seen@ == seen0 && self.current == old(self).current
                    && self.values_inv(),
            invariant
                self.previous == old(self).current,
                self.scanner.text() == old(self).scanner.text(),
                self.numbers == old(self).numbers,
                self.scanner.position() >= start,
                old(self).failed() ==> self.failed(),
                self.instrs == old(self).instrs,
                self.ilines == old(self).ilines,
                self.chunk == old(self).chunk,
                self.next_number == old(self).next_number,
                !self.pending@,
                was_eof == (old(self).current.ty == TokenType::EOF),
                seen0 == old(self).seen@,
                was_eof ==> self.scanner.position() == start,
                was_eof ==> self.current.ty == TokenType::EOF,
                self.seen@.len() >= seen0.len(),
                old(self).had_error ==> self.errors@ == old(self).errors@,
                !old(self).had_error && self.had_error ==> !was_eof && self.errors@.len() == 1
                    && failure_of(self.errors@[0]) == scan_failure(ts0, seen0.len() as int)
                    && ts0[seen0.len() as int].ty == TokenType::Error,
                ts0 == old(self).ts(),
            ensures
                self.seen@.len() >= seen0.len(),
                old(self).had_error ==> self.errors@ == old(self).errors@,
                !old(self).had_error && self.had_error ==> !was_eof && self.errors@.len() == 1
                    && failure_of(self.errors@[0]) == scan_failure(ts0, seen0.len() as int)
                    && ts0[seen0.len() as int].ty == TokenType::Error,
                self.base_inv(),
                self.shape_inv(),
                self.previous == old(self).current,
                self.scanner.text() == old(self).scanner.text(),
                self.numbers == old(self).numbers,
                self.current.ty != TokenType::Error,
                self.current.ty == TokenType::EOF || self.scanner.position() > start,
                old(self).failed() ==> self.failed(),
                self.instrs == old(self).instrs,
                self.ilines == old(self).ilines,
                self.chunk == old(self).chunk,
                self.next_number == old(self).next_number,
                !self.pending@,
                !self.had_error && was_eof ==> self.seen@ == seen0,
                !self.had_error && !was_eof ==> self.seen@ == seen0.push(self.current@),
                !self.had_error ==> forall|i: int|
                    0 <= i < seen0.len() ==> #[trigger] seen0[i].ty != TokenType::Error,
                !self.had_error ==> self.chunk.constant_seq() == literal_values(
                    consumed(seen0),
                    self.numbers@,
                ),
                !self.had_error ==> self.next_number == number_texts(consumed(seen0)).len(),
            decreases self.scanner.text().len() - self.scanner.position(),
        {
            let ghost text = self.scanner.text();
            let ghost pos = self.scanner.position();
            let ghost line = self.scanner.line();
            proof {
                self.scanner.lemma_wf();
                lemma_scan(text, pos, line);
            }
            let ghost before = self.current;
            self.current = self.scanner.scan_token();
            proof {
                self.scanner.lemma_wf();
                if before.ty == TokenType::EOF {
                    assert(self.current@ == before@);
                } else {
                    let seen1 = self.seen@;
                    let t = self.current@;
                    let rest = tokens_from(text, self.scanner.position(), self.scanner.line());
                    self.seen@ = seen1.push(t);

                    if self.current.ty == TokenType::EOF {
                        assert(tokens_from(text, pos, line) == seq![t]);
                        assert(seen1 + seq![t] =~= seen1.push(t));
                    } else {
                        assert(tokens_from(text, pos, line) == seq![t] + rest);
                        assert(seen1 + (seq![t] + rest) =~= seen1.push(t) + rest);
                    }
                }
            }
            if self.current.ty != TokenType::Error {
                break;
            }
            proof {
                if !self.had_error {
                    self.lemma_seen_prefix();
                    assert(self.current@ == ts0[seen0.len() as int]);
                }
            }
            let message = self.current.lexeme;
            self.error_at_current(message);
        }
        proof {
            self.scanner.lemma_wf();
            if !was_eof && !self.had_error {
                self.pending@ = is_literal(self.previous.ty);
                if seen0.len() > 0 {
                    assert(seen0 =~= consumed(seen0).push(self.previous@));
                    lemma_literals_push(consumed(seen0), self.previous@, self.numbers@);
                    let lv0 = literal_values(consumed(seen0), self.numbers@);
                    if self.previous.ty == TokenType::Number {
                        assert(lv0.push(
                            ValueModel::Number(self.numbers@[number_texts(consumed(seen0)).len() as int]),
                        ).drop_last() =~= lv0);
                    } else if self.previous.ty == TokenType::String {
                        assert(lv0.push(
                            ValueModel::Str(string_contents(self.previous@.lexeme)),
                        ).drop_last() =~= lv0);
                    }
                }
                assert(consumed(self.seen@) =~= seen0);
                assert forall|i: int| 0 <= i < self.seen@.len() implies #[trigger] self.seen@[i].ty
                    != TokenType::Error by {
                    if i < seen0.len() {
                        assert(self.seen@[i] == seen0[i]);
                    }
                }
            }
            assert(self.base_inv());
            assert(self.shape_inv());
            assert(self.values_inv());
        }
    }

    /// The value of the literal just consumed is the next of the literal
    /// values of the source.
    proof fn lemma_pending(&self)
        requires
            self.inv(),
            self.pending@,
            !self.had_error,
        ensures
            self.previous.ty == TokenType::Number ==> literal_values(
                consumed(self.seen@),
                self.numbers@,
            ).last() == ValueModel::Number(self.numbers@[self.next_number as int]),
            self.previous.ty == TokenType::String ==> literal_values(
                consumed(self.seen@),
                self.numbers@,
            ).last() == ValueModel::Str(string_contents(self.previous@.lexeme)),
    {
        let c = consumed(self.seen@);
        assert(c =~= c.drop_last().push(self.previous@));
        lemma_literals_push(c.drop_last(), self.previous@, self.numbers@);
    }

    fn consume(&mut self, ty: TokenType, message: &'a str)
        requires
            old(self).inv(),
            old(self).settled(),
            old(self).started(),
            !is_literal(ty),
        ensures
            final(self).inv(),
            final(self).settled(),
            final(self).same_source(*old(self)),
            !final(self).failed() ==> final(self).previous.ty == ty,
            final(self).measure() <= old(self).measure(),
            old(self).failed() ==> final(self).failed(),
            old(self).current.ty != ty ==> final(self).failed(),
            final(self).instrs == old(self).instrs,
            final(self).ilines == old(self).ilines,
            final(self).chunk == old(self).chunk,
            old(self).current.ty == ty ==> final(self).previous == old(self).current,
            final(self).grows(*old(self)),
            !old(self).had_error && old(self).current.ty != ty ==> final(self).errors@.len() == 1
                && failure_of(final(self).errors@[0]) == failure(old(self).current@, message@),
            !old(self).had_error && old(self).current.ty == ty ==> final(self).had_error
                == next_is_error(old(self).ts(), old(self).seen@.len() - 1),
            !old(self).had_error && old(self).current.ty == ty && final(self).had_error
                ==> final(self).errors@.len() == 1 && failure_of(final(self).errors@[0])
                == scan_failure(old(self).ts(), old(self).seen@.len() as int),
            !final(self).had_error ==> final(self).seen@.len() == old(self).seen@.len() + if ty
                == TokenType::EOF {
                0int
            } else {
                1int
            },
    {
        proof {
            self.lemma_seen_prefix();
        }
        if self.current.ty == ty {
            self.advance();
        } else {
            self.error_at_current(message);
        }
    }

    /// Writes an instruction without operand, on the line of the token just
    /// consumed.
    fn emit_op(&mut self, op: OpCode)
        requires
            old(self).inv(),
            op != OpCode::Constant,
            op != OpCode::Return,
        ensures
            final(self).inv(),
            final(self).same_source(*old(self)),
            final(self).pending == old(self).pending,
            final(self).measure() == old(self).measure(),
            final(self).failed() == old(self).failed(),
            final(self).current == old(self).current,
            final(self).previous == old(self).previous,
            final(self).instrs@ == old(self).instrs@.push(Instruction::Simple(op)),
            final(self).ilines@ == old(self).ilines@.push(old(self).previous.line),
            final(self).seen == old(self).seen,
            final(self).numbers == old(self).numbers,
            final(self).grows(*old(self)),
    {
        let line = self.previous.line;
        self.chunk.write(op.to_byte(), line);
        proof {
            let before = self.instrs@;
            lemma_push_instruction(before, Instruction::Simple(op));
            assert(self.chunk.code_seq() =~= encode_all(before) + encode(Instruction::Simple(op)));
            let lb = self.ilines@;
            lemma_lines_push(before, lb, Instruction::Simple(op), line);
            assert(Seq::new(encode(Instruction::Simple(op)).len(), |b: int| line) =~= seq![line]);
            assert(self.chunk.line_seq() =~= encode_lines(before, lb) + seq![line]);
            self.ilines@ = lb.push(line);
            self.instrs@ = before.push(Instruction::Simple(op));
            assert forall|i: int| 0 <= i < self.instrs@.len() implies well_formed_instruction(
                #[trigger] self.instrs@[i],
            ) by {
                if i < before.len() {
                    assert(self.instrs@[i] == before[i]);
                }
            }
            assert forall|i: int| 0 <= i < self.instrs@.len() implies #[trigger] self.instrs@[i]
                != Instruction::Simple(OpCode::Return) by {
                if i < before.len() {
                    assert(self.instrs@[i] == before[i]);
                }
            }
        }
    }

    /// Writes `first` then `second`.
    fn emit_ops(&mut self, first: OpCode, second: OpCode)
        requires
            old(self).inv(),
            first != OpCode::Constant,
            first != OpCode::Return,
            second != OpCode::Constant,
            second != OpCode::Return,
        ensures
            final(self).inv(),
            final(self).same_source(*old(self)),
            final(self).pending == old(self).pending,
            final(self).measure() == old(self).measure(),
            final(self).failed() == old(self).failed(),
            final(self).current == old(self).current,
            final(self).previous == old(self).previous,
            final(self).instrs@ == old(self).instrs@.push(Instruction::Simple(first)).push(
                Instruction::Simple(second),
            ),
            final(self).ilines@ == old(self).ilines@.push(old(self).previous.line).push(
                old(self).previous.line,
            ),
            final(self).seen == old(self).seen,
            final(self).numbers == old(self).numbers,
            final(self).grows(*old(self)),
    {
        self.emit_op(first);
        self.emit_op(second);
    }

    /// Adds a constant to the chunk; records an error when the chunk is full.
    fn make_constant(&mut self, value: Value) -> (r: Option<u8>)
        requires
            old(self).inv(),
        ensures
            final(self).measure() == old(self).measure(),
            old(self).failed() ==> final(self).failed(),
            final(self).current == old(self).current,
            final(self).previous == old(self).previous,
            final(self).scanner == old(self).scanner,
            final(self).instrs == old(self).instrs,
            final(self).ilines == old(self).ilines,
            final(self).errors == old(self).errors || final(self).failed(),
            final(self).had_error == old(self).had_error || r is None,
            final(self).panic_mode == final(self).had_error,
            final(self).had_error == (final(self).errors@.len() > 0),
            final(self).chunk.wf(),
            final(self).chunk.code_seq() == old(self).chunk.code_seq(),
            final(self).chunk.line_seq() == old(self).chunk.line_seq(),
            final(self).numbers == old(self).numbers,
            final(self).next_number == old(self).next_number,
            final(self).seen == old(self).seen,
            final(self).pending == old(self).pending,
            r is Some ==> r->0 == old(self).chunk.constant_seq().len(),
            r is Some ==> final(self).chunk.constant_seq() == old(self).chunk.constant_seq().push(
                value@,
            ),
            r is None ==> final(self).failed(),
            r is None ==> old(self).chunk.constant_seq().len() >= MAX_CONSTANTS,
            r is None ==> final(self).chunk.constant_seq() == old(self).chunk.constant_seq(),
            r is None ==> final(self).inv(),
            r is Some ==> old(self).chunk.constant_seq().len() < MAX_CONSTANTS,
            r is Some ==> final(self).errors@ == old(self).errors@,
            old(self).had_error ==> final(self).errors@ == old(self).errors@,
            r is None && !old(self).had_error ==> final(self).errors@.len() == 1 && failure_of(
                final(self).errors@[0],
            ) == failure(old(self).previous@, too_many_constants()),
    {
        let ghost n = self.chunk.constant_seq().len();
        match self.chunk.add_constant(value) {
            Some(i) => {
                assert(n < 256);
                assert(i == n);
                assert(self.chunk.constant_seq() == old(self).chunk.constant_seq().push(value@));
                Some(i)
            },
            None => {
                self.error("Too many constants in one chunk.");
                None
            },
        }
    }

    /// Adds a constant and writes the instruction that loads it.
    fn emit_constant(&mut self, value: Value)
        requires
            old(self).inv(),
            old(self).pending@ || old(self).had_error,
            is_literal(old(self).previous.ty),
            old(self).previous.ty == TokenType::Number ==> old(self).next_number < old(
                self,
            ).numbers@.len(),
            !old(self).had_error ==> value@ == literal_values(
                consumed(old(self).seen@),
                old(self).numbers@,
            ).last(),
        ensures
            final(self).inv(),
            final(self).settled(),
            final(self).same_source(*old(self)),
            final(self).grows(*old(self)),
            final(self).seen == old(self).seen,
            !final(self).had_error ==> final(self).instrs@.len() == old(self).instrs@.len() + 1
                && shape(final(self).instrs@.last()) == Emit::Literal && final(self).ilines@.last()
                == old(self).previous.line,
            final(self).instrs@.len() <= old(self).instrs@.len() + 1,
            !old(self).had_error ==> (final(self).had_error <==> literal_values(
                consumed(old(self).seen@),
                old(self).numbers@,
            ).len() > MAX_CONSTANTS),
            !old(self).had_error && final(self).had_error ==> final(self).errors@.len() == 1
                && failure_of(final(self).errors@[0]) == failure(
                old(self).previous@,
                too_many_constants(),
            ),
            final(self).measure() == old(self).measure(),
            old(self).failed() ==> final(self).failed(),
            final(self).current == old(self).current,
            final(self).previous == old(self).previous,
    {
        let ghost n = self.chunk.constant_seq().len();
        let ghost lv0 = literal_values(consumed(self.seen@), self.numbers@);
        let ghost clean = !self.had_error;
        match self.make_constant(value) {
            Some(i) => {
                let line = self.previous.line;
                self.chunk.write(OpCode::Constant.to_byte(), line);
                self.chunk.write(i, line);
                proof {
                    let ins = Instruction::Constant(i);
                    let before = self.instrs@;
                    lemma_push_instruction(before, ins);
                    assert(encode(ins) =~= seq![0u8, i]);
                    assert(self.chunk.code_seq() =~= encode_all(before) + encode(ins));
                    let lb = self.ilines@;
                    lemma_lines_push(before, lb, ins, line);
                    assert(Seq::new(encode(ins).len(), |b: int| line) =~= seq![line, line]);
                    assert(self.chunk.line_seq() =~= encode_lines(before, lb) + seq![line, line]);
                    self.ilines@ = lb.push(line);
                    self.instrs@ = before.push(ins);
                    assert forall|k: int| 0 <= k < self.instrs@.len() implies well_formed_instruction(
                        #[trigger] self.instrs@[k],
                    ) by {
                        if k < before.len() {
                            assert(self.instrs@[k] == before[k]);
                        }
                    }
                    assert forall|k: int| 0 <= k < self.instrs@.len() implies #[trigger] self.instrs@[k]
                        != Instruction::Simple(OpCode::Return) by {
                        if k < before.len() {
                            assert(self.instrs@[k] == before[k]);
                        }
                    }
                    assert(first_indices(n).push(n as u8) =~= first_indices(n + 1));
                }
            },
            None => {
                proof {
                    if clean {
                        assert(lv0.len() > MAX_CONSTANTS);
                    }
                }
            },
        }
        if self.previous.ty == TokenType::Number && self.next_number < self.numbers.len() {
            self.next_number = self.next_number + 1;
        }
        proof {
            if !self.had_error {
                let lv = literal_values(consumed(self.seen@), self.numbers@);
                assert(lv =~= lv.drop_last().push(lv.last()));
            }
            self.pending@ = false;
        }
    }

    /// Compiles the number just consumed: the next of the numbers the
    /// compilation was given.
    fn number(&mut self)
        requires
            old(self).inv(),
            old(self).pending@ || old(self).had_error,
            old(self).previous.ty == TokenType::Number,
        ensures
            final(self).inv(),
            final(self).same_source(*old(self)),
            final(self).settled(),
            final(self).measure() == old(self).measure(),
            old(self).failed() ==> final(self).failed(),
            final(self).grows(*old(self)),
            final(self).outcome(
                *old(self),
                parse_fn_spec(ParseFn::Number, old(self).ts(), old(self).nums(), old(self).seen@.len() - 2),
            ),
    {
        proof {
            self.lemma_seen_prefix();
            if !self.had_error {
                let i = self.seen@.len() - 2;
                assert(consumed(self.seen@) =~= self.ts().take(i + 1));
            }
        }
        let ghost start = *self;
        if self.next_number < self.numbers.len() {
            let bits = self.numbers[self.next_number];
            proof {
                if !self.had_error {
                    self.lemma_pending();
                }
            }
            self.emit_constant(Value::Number(bits));
            proof {
                self.lemma_emitted_small(start);
            }
        } else {
            self.error("Missing value for number literal.");
            proof {
                self.pending@ = false;
            }
        }
    }

    /// Compiles the string literal just consumed: its text between the quotes.
    fn string(&mut self)
        requires
            old(self).inv(),
            old(self).pending@ || old(self).had_error,
            old(self).previous.ty == TokenType::String,
        ensures
            final(self).inv(),
            final(self).same_source(*old(self)),
            final(self).settled(),
            final(self).measure() == old(self).measure(),
            old(self).failed() ==> final(self).failed(),
            final(self).grows(*old(self)),
            final(self).outcome(
                *old(self),
                parse_fn_spec(ParseFn::String, old(self).ts(), old(self).nums(), old(self).seen@.len() - 2),
            ),
    {
        proof {
            self.lemma_seen_prefix();
            if !self.had_error {
                let i = self.seen@.len() - 2;
                assert(consumed(self.seen@) =~= self.ts().take(i + 1));
            }
        }
        let ghost start = *self;
        let lexeme = self.previous.lexeme;
        let n = lexeme.unicode_len();
        let text = lexeme.substring_char(1, n - 1);
        proof {
            if !self.had_error {
                self.lemma_pending();
            }
        }
        self.emit_constant(Value::from_string(String::from_str(text)));
        proof {
            self.lemma_emitted_small(start);
        }
    }

    /// Compiles `true`, `false` or `nil`, just consumed.
    fn literal(&mut self)
        requires
            old(self).inv(),
            rule_of(old(self).previous.ty).prefix == Some(ParseFn::Literal),
            old(self).settled(),
        ensures
            final(self).inv(),
            final(self).same_source(*old(self)),
            final(self).settled(),
            final(self).measure() == old(self).measure(),
            old(self).failed() ==> final(self).failed(),
            final(self).grows(*old(self)),
            final(self).outcome(
                *old(self),
                parse_fn_spec(ParseFn::Literal, old(self).ts(), old(self).nums(), old(self).seen@.len() - 2),
            ),
    {
        proof {
            self.lemma_seen_prefix();
        }
        let ghost start = *self;
        match self.previous.ty {
            TokenType::False => self.emit_op(OpCode::False),
            TokenType::Nil => self.emit_op(OpCode::Nil),
            _ => self.emit_op(OpCode::True),
        }
        proof {
            self.lemma_emitted_small(start);
        }
    }

    /// Compiles an expression: the lowest-binding form, any operator allowed.
    pub fn expression(&mut self)
        requires
            old(self).inv(),
            old(self).settled(),
            old(self).started(),
        ensures
            final(self).same_source(*old(self)),
            final(self).settled(),
            final(self).inv(),
            final(self).measure() <= old(self).measure(),
            old(self).failed() ==> final(self).failed(),
            final(self).grows(*old(self)),
            final(self).outcome(
                *old(self),
                expr_spec(old(self).ts(), old(self).nums(), old(self).position(), Precedence::Assignment),
            ),
        decreases old(self).measure(), 1nat,
    {
        self.parse_precedence(Precedence::Assignment);
    }

    /// Compiles a parenthesized expression whose `(` was just consumed.
    fn grouping(&mut self)
        requires
            old(self).inv(),
            old(self).settled(),
            old(self).previous.ty == TokenType::LeftParen,
        ensures
            final(self).same_source(*old(self)),
            final(self).settled(),
            final(self).inv(),
            final(self).measure() <= old(self).measure(),
            old(self).failed() ==> final(self).failed(),
            final(self).grows(*old(self)),
            final(self).outcome(
                *old(self),
                parse_fn_spec(ParseFn::Grouping, old(self).ts(), old(self).nums(), old(self).seen@.len() - 2),
            ),
        decreases old(self).measure(), 2nat,
    {
        let ghost s0 = *self;
        proof {
            self.lemma_seen_prefix();
        }
        self.expression();
        let ghost s1 = *self;
        proof {
            self.lemma_seen_prefix();
        }
        self.consume(TokenType::RightParen, "Expect ')' after expression.");
        proof {
            self.lemma_emitted_concat(s0, s1);
            s1.lemma_emitted_small(s1);
            self.lemma_emitted_small(s1);
        }
    }

    /// Compiles the operand of the prefix operator just consumed, then the
    /// operator.
    fn unary(&mut self)
        requires
            old(self).inv(),
            rule_of(old(self).previous.ty).prefix == Some(ParseFn::Unary),
            old(self).settled(),
        ensures
            final(self).same_source(*old(self)),
            final(self).settled(),
            final(self).inv(),
            final(self).measure() <= old(self).measure(),
            old(self).failed() ==> final(self).failed(),
            final(self).grows(*old(self)),
            final(self).outcome(
                *old(self),
                parse_fn_spec(ParseFn::Unary, old(self).ts(), old(self).nums(), old(self).seen@.len() - 2),
            ),
        decreases old(self).measure(), 2nat,
    {
        let ghost s0 = *self;
        proof {
            self.lemma_seen_prefix();
        }
        let operator = self.previous.ty;
        self.parse_precedence(Precedence::Unary);
        let ghost s1 = *self;
        match operator {
            TokenType::Bang => self.emit_op(OpCode::Not),
            _ => self.emit_op(OpCode::Negate),
        }
        proof {
            self.lemma_emitted_concat(s0, s1);
            self.lemma_emitted_small(s1);
            let c = s1.emitted(s0);
            let x = (shape(self.instrs@.last()), self.ilines@.last());
            assert(c + seq![x] =~= c.push(x));
            s1.lemma_seen_prefix();
        }
    }

    /// Compiles the right operand of the infix operator just consumed, binding
    /// one level tighter than the operator (so operators of one level group to
    /// the left), then the operator. `!=`, `>=` and `<=` become a comparison
    /// followed by `Not`.
    #[verifier::rlimit(100)]
    fn binary(&mut self)
        requires
            old(self).inv(),
            rule_of(old(self).previous.ty).infix == Some(ParseFn::Binary),
            old(self).settled(),
        ensures
            final(self).same_source(*old(self)),
            final(self).settled(),
            final(self).inv(),
            final(self).measure() <= old(self).measure(),
            old(self).failed() ==> final(self).failed(),
            final(self).grows(*old(self)),
            final(self).outcome(
                *old(self),
                parse_fn_spec(ParseFn::Binary, old(self).ts(), old(self).nums(), old(self).seen@.len() - 2),
            ),
        decreases old(self).measure(), 2nat,
    {
        let ghost s0 = *self;
        proof {
            self.lemma_seen_prefix();
        }
        let operator = self.previous.ty;
        let rule = get_rule(operator);
        self.parse_precedence(rule.precedence.tighter());
        let ghost s1 = *self;
        match operator {
            TokenType::BangEqual => self.emit_ops(OpCode::Equal, OpCode::Not),
            TokenType::EqualEqual => self.emit_op(OpCode::Equal),
            TokenType::Greater => self.emit_op(OpCode::Greater),
            TokenType::GreaterEqual => self.emit_ops(OpCode::Less, OpCode::Not),
            TokenType::Less => self.emit_op(OpCode::Less),
            TokenType::LessEqual => self.emit_ops(OpCode::Greater, OpCode::Not),
            TokenType::Plus => self.emit_op(OpCode::Add),
            TokenType::Minus => self.emit_op(OpCode::Subtract),
            TokenType::Star => self.emit_op(OpCode::Multiply),
            _ => self.emit_op(OpCode::Divide),
        }
        proof {
            self.lemma_emitted_concat(s0, s1);
            let c = self.instrs@;
            let l = self.ilines@;
            let b = s1.instrs@.len() as int;
            let n = c.len() as int;
            s1.lemma_seen_prefix();
            assert(pieces(c.subrange(b, n), l.subrange(b, n)) =~= operator_code(
                operator,
                s1.previous.line,
            ));
        }
    }

    fn invoke_parse_fn(&mut self, parse_fn: ParseFn)
        requires
            old(self).inv(),
            rule_of(old(self).previous.ty).prefix == Some(parse_fn) || rule_of(
                old(self).previous.ty,
            ).infix == Some(parse_fn),
            !old(self).had_error ==> (old(self).pending@ <==> (parse_fn == ParseFn::Number
                || parse_fn == ParseFn::String)),
            old(self).pending@ ==> (parse_fn == ParseFn::Number || parse_fn == ParseFn::String),
        ensures
            final(self).same_source(*old(self)),
            final(self).settled(),
            final(self).inv(),
            final(self).measure() <= old(self).measure(),
            old(self).failed() ==> final(self).failed(),
            final(self).grows(*old(self)),
            final(self).outcome(
                *old(self),
                parse_fn_spec(parse_fn, old(self).ts(), old(self).nums(), old(self).seen@.len() - 2),
            ),
        decreases old(self).measure(), 3nat,
    {
        match parse_fn {
            ParseFn::Grouping => self.grouping(),
            ParseFn::Unary => self.unary(),
            ParseFn::Binary => self.binary(),
            ParseFn::Number => self.number(),
            ParseFn::String => self.string(),
            ParseFn::Literal => self.literal(),
        }
    }

    /// Compiles an expression whose operators bind at least as tightly as
    /// `precedence`: a prefix form, then as long as the next token is an
    /// infix operator that binds tightly enough, that operator and its right
    /// operand.
    #[verifier::rlimit(100)]
    fn parse_precedence(&mut self, precedence: Precedence)
        requires
            old(self).inv(),
            level(precedence) >= 1,
            old(self).settled(),
            old(self).started(),
        ensures
            final(self).same_source(*old(self)),
            final(self).settled(),
            final(self).inv(),
            final(self).measure() <= old(self).measure(),
            old(self).failed() ==> final(self).failed(),
            final(self).grows(*old(self)),
            final(self).outcome(
                *old(self),
                expr_spec(old(self).ts(), old(self).nums(), old(self).seen@.len() - 1, precedence),
            ),
        decreases old(self).measure(), 0nat,
    {
        let ghost entry = self.measure();
        let ghost s0 = *self;
        let ghost ts = self.ts();
        let ghost i0 = self.seen@.len() - 1;
        let ghost nums = self.nums();
        let ghost expect = expr_spec(ts, nums, i0, precedence);
        proof {
            self.lemma_seen_prefix();
        }
        self.advance();
        let ghost s1 = *self;
        proof {
            self.lemma_seen_prefix();
            if !s0.had_error && !self.had_error && s0.current.ty != TokenType::EOF {
                assert(self.previous@ == ts[i0]);
            }
        }
        match get_rule(self.previous.ty).prefix {
            Some(prefix) => self.invoke_parse_fn(prefix),
            None => {
                self.error("Expect expression.");
                return;
            },
        }
        proof {
            self.lemma_emitted_concat(s0, s1);
            s1.lemma_emitted_small(s0);
            self.lemma_seen_prefix();
        }
        while precedence.level() <= get_rule(self.current.ty).precedence.level()
            invariant
                self.inv(),
                self.measure() <= entry,
                entry == old(self).measure(),
                level(precedence) >= 1,
                self.settled(),
                self.same_source(*old(self)),
                old(self).failed() ==> self.failed(),
                self.grows(s0),
                s0 == *old(self),
                ts == self.ts(),
                i0 == s0.seen@.len() - 1,
                nums == self.nums(),
                expect == expr_spec(ts, nums, i0, precedence),
                !s0.had_error && !self.had_error ==> expect == infix_spec(
                    ts,
                    nums,
                    self.seen@.len() - 1,
                    precedence,
                    self.emitted(s0),
                ),
                !s0.had_error && self.had_error ==> expect is Err && self.errors@.len() == 1
                    && failure_of(self.errors@[0]) == expect->Err_0,
                !s0.had_error && !self.had_error ==> self.previous.ty != TokenType::EOF
                    && self.previous.ty != TokenType::Error,
                !self.had_error ==> self.seen@.len() >= 1,
            decreases self.measure(),
        {
            let ghost s2 = *self;
            let ghost j = self.seen@.len() - 1;
            proof {
                self.lemma_seen_prefix();
            }
            assert(self.current.ty != TokenType::EOF);
            self.advance();
            assert(self.measure() < entry);
            let ghost s3 = *self;
            proof {
                self.lemma_seen_prefix();
            }
            match get_rule(self.previous.ty).infix {
                Some(infix) => self.invoke_parse_fn(infix),
                None => {},
            }
            proof {
                self.lemma_emitted_concat(s2, s3);
                s3.lemma_emitted_small(s2);
                self.lemma_emitted_concat(s0, s2);
            }
        }
    }

    /// Finishes the chunk with its `Return`.
    pub fn end(&mut self)
        requires
            old(self).inv(),
        ensures
            final(self).failed() == old(self).failed(),
            final(self).failed() == (final(self).error_count() > 0),
            final(self).finished(),
            final(self).same_tokens(*old(self)),
            final(self).returned(*old(self)),
    {
        let line = self.previous.line;
        self.chunk.write(OpCode::Return.to_byte(), line);
        proof {
            let before = self.instrs@;
            let ins = Instruction::Simple(OpCode::Return);
            lemma_push_instruction(before, ins);
            assert(self.chunk.code_seq() =~= encode_all(before) + encode(ins));
            let lb = self.ilines@;
            lemma_lines_push(before, lb, ins, line);
            assert(Seq::new(encode(ins).len(), |b: int| line) =~= seq![line]);
            assert(self.chunk.line_seq() =~= encode_lines(before, lb) + seq![line]);
            self.ilines@ = lb.push(line);
            self.instrs@ = before.push(ins);
            assert(self.instrs@.last() == ins);
            assert forall|i: int| 0 <= i < self.instrs@.len() implies well_formed_instruction(
                #[trigger] self.instrs@[i],
            ) by {
                if i < before.len() {
                    assert(self.instrs@[i] == before[i]);
                }
            }
            assert forall|i: int| 0 <= i < self.instrs@.len() - 1 implies #[trigger] self.instrs@[i]
                != Instruction::Simple(OpCode::Return) by {
                assert(self.instrs@[i] == before[i]);
            }
        }
    }
}

/// Compiles the source text of one expression into a chunk whose code
/// evaluates it and returns its value.
///
/// `numbers` holds the values of the source's number literals, in the order
/// they appear, as IEEE-754 bit patterns (`number_literals` lists the
/// literals). The chunk is returned exactly when the source is `compilable`:
/// its code is then the postfix code of the expression, and its constants are
/// the literals' values in order. Otherwise the errors are returned, at least
/// one.
#[verifier::rlimit(100)]
pub fn compile<'a>(source: &'a str, numbers: &[u64]) -> (r: Result<Chunk, Vec<CompileError<'a>>>)
    ensures
        r is Ok <==> compilable(source@, numbers@),
        match r {
            Ok(chunk) => {
                &&& is_compiled(chunk)
                &&& code_of_source(chunk, source@, numbers@)
                &&& literals_compiled(source@, numbers@, chunk)
            },
            Err(errors) => errors@.len() == 1 && failure_of(errors@[0]) == first_error(
                source@,
                numbers@,
            ),
        },
        has_error_token(tokens(source@)) ==> r is Err,
        literal_values(tokens(source@), numbers@).len() > MAX_CONSTANTS ==> r is Err,
{
    let ghost ts = tokens(source@);
    let ghost nums = numbers@;
    let mut parser = Parser::new(Scanner::new(source), numbers);
    let ghost s0 = parser;
    proof {
        lemma_tokens_end(source@, 0, 1);
    }
    parser.advance();
    let ghost s1 = parser;
    proof {
        parser.lemma_seen_prefix();
    }
    parser.expression();
    let ghost s2 = parser;
    proof {
        parser.lemma_seen_prefix();
    }
    parser.consume(TokenType::EOF, "Expect end of expression");
    let ghost s3 = parser;
    proof {
        parser.lemma_seen_prefix();
        s3.lemma_emitted_concat(s1, s2);
        if !s1.had_error && !s2.had_error && s3.had_error {
            let j = s2.seen@.len() - 1;
            assert(s2.current@ == ts[j]);
        }
    }
    parser.end();
    if parser.had_error {
        assert(parser.errors@.len() > 0);
        Err(parser.errors)
    } else {
        let ghost instrs = parser.instrs@;
        proof {
            assert(parser.seen@ == ts);
            assert(consumed(ts) == ts.drop_last());
            assert(literal_values(ts, numbers@) == literal_values(ts.drop_last(), numbers@));
            assert(number_texts(ts) == number_texts(ts.drop_last()));
            assert(s1.instrs@.len() == 0);
            assert(s2.instrs@.subrange(0, s2.instrs@.len() as int) =~= s2.instrs@);
            assert(instrs =~= s2.instrs@.push(Instruction::Simple(OpCode::Return)));
            let lines = parser.ilines@;
            let n2 = s2.instrs@.len() as int;
            assert(s2.instrs@.subrange(0, n2) =~= s2.instrs@);
            assert(s2.ilines@.subrange(0, n2) =~= s2.ilines@);
            assert(s2.emitted(s1) == pieces(s2.instrs@, s2.ilines@));
            let j = s2.seen@.len() - 1;
            assert(s2.current@ == ts[j]);
            assert(s3.ilines@ == s2.ilines@);
            assert(lines == s2.ilines@.push(s2.current.line));
            assert(pieces(instrs, lines) =~= pieces(s2.instrs@, s2.ilines@).push(
                (Emit::Op(OpCode::Return), ts[j].line),
            ));
        }
        let chunk = parser.chunk;
        assert(compiled(chunk, instrs));
        assert(is_compiled(chunk));
        assert(literals_compiled(source@, numbers@, chunk));
        assert(code_of_source(chunk, source@, numbers@));
        Ok(chunk)
    }
}

} // verus!
