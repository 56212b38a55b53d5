use rlox::scanner::{number_literals, tokenize, Scanner, Token, TokenType};

fn kinds(source: &str) -> Vec<TokenType> {
    tokenize(source).iter().map(|t| t.ty).collect()
}

#[test]
fn scans_every_operator() {
    assert_eq!(
        kinds("( ) { } , . - + ; / * ! != = == < <= > >="),
        vec![
            TokenType::LeftParen, TokenType::RightParen, TokenType::LeftBrace, TokenType::RightBrace, TokenType::Comma, TokenType::Dot, TokenType::Minus, TokenType::Plus, TokenType::Semicolon,
            TokenType::Slash, TokenType::Star, TokenType::Bang, TokenType::BangEqual, TokenType::Equal, TokenType::EqualEqual, TokenType::Less, TokenType::LessEqual, TokenType::Greater,
            TokenType::GreaterEqual, TokenType::EOF
        ]
    );
}

#[test]
fn scans_keywords_and_identifiers() {
    assert_eq!(
        kinds("and class else false for fun if nil or print return super this true var while"),
        vec![
            TokenType::And, TokenType::Class, TokenType::Else, TokenType::False, TokenType::For, TokenType::Fun, TokenType::If, TokenType::Nil, TokenType::Or, TokenType::Print, TokenType::Return, TokenType::Super, TokenType::This, TokenType::True,
            TokenType::Var, TokenType::While, TokenType::EOF
        ]
    );
    let ts = tokenize("andy _x1 forward");
    assert_eq!(ts[0].ty, TokenType::Identifier);
    assert_eq!(ts[0].lexeme, "andy");
    assert_eq!(ts[1].lexeme, "_x1");
    assert_eq!(ts[2].ty, TokenType::Identifier);
}

#[test]
fn scans_letters_beyond_ascii() {
    let ts = tokenize("été π");
    assert_eq!(ts[0].ty, TokenType::Identifier);
    assert_eq!(ts[0].lexeme, "été");
    assert_eq!(ts[1].ty, TokenType::Identifier);
    assert_eq!(ts[1].lexeme, "π");
    assert_eq!(ts[2].ty, TokenType::EOF);
}

#[test]
fn scans_numbers() {
    let ts = tokenize("12 3.25 7. .5");
    assert_eq!(ts[0].ty, TokenType::Number);
    assert_eq!(ts[0].lexeme, "12");
    assert_eq!(ts[1].lexeme, "3.25");
    assert_eq!(ts[2].lexeme, "7");
    assert_eq!(ts[3].ty, TokenType::Dot);
    assert_eq!(ts[4].ty, TokenType::Dot);
    assert_eq!(ts[5].lexeme, "5");
}

#[test]
fn lists_number_literals() {
    assert_eq!(number_literals("1 + \"2\" * 3.5 // 4"), vec!["1", "3.5"]);
    assert!(number_literals("").is_empty());
}

#[test]
fn scans_strings_across_lines() {
    let ts = tokenize("\"a\nb\" x");
    assert_eq!(ts[0].ty, TokenType::String);
    assert_eq!(ts[0].lexeme, "\"a\nb\"");
    assert_eq!(ts[0].line, 2);
    assert_eq!(ts[1].line, 2);
}

#[test]
fn malformed_input_gives_error_tokens() {
    let ts = tokenize("@ \"open");
    assert_eq!(ts[0].ty, TokenType::Error);
    assert_eq!(ts[0].lexeme, "Unexpected character.");
    assert_eq!(ts[1].ty, TokenType::Error);
    assert_eq!(ts[1].lexeme, "Unterminated string");
    assert_eq!(ts[2].ty, TokenType::EOF);
    assert_eq!(ts.len(), 3);
}

#[test]
fn counts_lines_and_skips_comments() {
    let ts = tokenize("// one\n\n  x // two\r\n\ty");
    assert_eq!(ts[0].lexeme, "x");
    assert_eq!(ts[0].line, 3);
    assert_eq!(ts[1].lexeme, "y");
    assert_eq!(ts[1].line, 4);
    assert_eq!(ts[2].ty, TokenType::EOF);
    assert_eq!(ts[2].line, 4);
}

#[test]
fn slash_alone_is_an_operator() {
    assert_eq!(kinds("1 / 2"), vec![TokenType::Number, TokenType::Slash, TokenType::Number, TokenType::EOF]);
}

#[test]
fn empty_source_is_just_eof() {
    let ts = tokenize("");
    assert_eq!(ts.len(), 1);
    assert_eq!(ts[0].ty, TokenType::EOF);
    assert_eq!(ts[0].lexeme, "");
    assert_eq!(ts[0].line, 1);
}

#[test]
fn scanner_keeps_returning_eof() {
    let mut s = Scanner::new("x");
    assert_eq!(s.scan_token().ty, TokenType::Identifier);
    assert_eq!(s.scan_token().ty, TokenType::EOF);
    assert_eq!(s.scan_token().ty, TokenType::EOF);
}

#[test]
fn token_constructors() {
    let t = Token::new(TokenType::Plus, "+", 4);
    assert_eq!(t.ty, TokenType::Plus);
    assert_eq!(t.lexeme, "+");
    assert_eq!(t.line, 4);
    let e = Token::error("bad", 2);
    assert_eq!(e.ty, TokenType::Error);
    assert_eq!(e.lexeme, "bad");
    assert_eq!(e.line, 2);
    let d = Token::default();
    assert_eq!(d.ty, TokenType::Error);
    assert_eq!(d.lexeme, "");
    assert_eq!(d.line, 0);
}
