use vstd::prelude::*;

verus! {

/// The kinds of token of the language.
#[derive(Clone, Copy, Debug, PartialEq, Eq, Structural)]
pub enum TokenType {
    LeftParen,
    RightParen,
    LeftBrace,
    RightBrace,
    Comma,
    Dot,
    Minus,
    Plus,
    Semicolon,
    Slash,
    Star,
    Bang,
    BangEqual,
    Equal,
    EqualEqual,
    Greater,
    GreaterEqual,
    Less,
    LessEqual,
    Identifier,
    String,
    Number,
    And,
    Class,
    Else,
    False,
    For,
    Fun,
    If,
    Nil,
    Or,
    Print,
    Return,
    Super,
    This,
    True,
    Var,
    While,
    Error,
    EOF,
}

/// A token: its kind, its text (for an error token, the message), and the
/// source line where it ends.
#[derive(Clone, Copy, Debug)]
pub struct Token<'a> {
    pub ty: TokenType,
    pub lexeme: &'a str,
    pub line: u32,
}

/// What a token is, with its text as characters.
pub struct TokenModel {
    pub ty: TokenType,
    pub lexeme: Seq<char>,
    pub line: u32,
}

impl<'a> View for Token<'a> {
    type V = TokenModel;

    open spec fn view(&self) -> TokenModel {
        TokenModel { ty: self.ty, lexeme: self.lexeme@, line: self.line }
    }
}

pub open spec fn token_model(ty: TokenType, lexeme: Seq<char>, line: u32) -> TokenModel {
    TokenModel { ty, lexeme, line }
}

impl<'a> Token<'a> {
    pub fn new(ty: TokenType, lexeme: &'a str, line: u32) -> (r: Token<'a>)
        ensures
            r@ == token_model(ty, lexeme@, line),
    {
        Token { ty, lexeme, line }
    }

    /// An error token, whose text is the message.
    pub fn error(message: &'static str, line: u32) -> (r: Token<'a>)
        ensures
            r@ == token_model(TokenType::Error, message@, line),
    {
        Token { ty: TokenType::Error, lexeme: message, line }
    }
}

/// An error token with no text on line 0: what a parser holds before its first
/// token.
impl<'a> Default for Token<'a> {
    fn default() -> (r: Token<'a>)
        ensures
            r@ == token_model(TokenType::Error, Seq::empty(), 0),
    {
        proof {
            reveal_strlit("");
            assert(""@ =~= Seq::<char>::empty());
        }
        Token { ty: TokenType::Error, lexeme: "", line: 0 }
    }
}

/// Whether a character has the Unicode `Alphabetic` property.
pub uninterp spec fn alphabetic(c: char) -> bool;

/// Relies on `char::is_alphabetic`, which answers from the character alone;
/// among ASCII characters exactly the letters have the `Alphabetic` property.
#[verifier::external_body]
fn char_is_alphabetic(c: char) -> (r: bool)
    ensures
        r == alphabetic(c),
        (c as u32) < 128 ==> (r <==> (('a' <= c && c <= 'z') || ('A' <= c && c <= 'Z'))),
{
    c.is_alphabetic()
}

pub open spec fn digit(c: char) -> bool {
    '0' <= c && c <= '9'
}

/// A letter or `_`: among ASCII characters, `a`-`z`, `A`-`Z` and `_`.
pub open spec fn alpha(c: char) -> bool {
    if (c as u32) < 128 {
        ('a' <= c && c <= 'z') || ('A' <= c && c <= 'Z') || c == '_'
    } else {
        alphabetic(c)
    }
}

/// The line counter after a newline; it stops at the largest line number.
pub open spec fn next_line(line: u32) -> u32 {
    if line < u32::MAX {
        (line + 1) as u32
    } else {
        line
    }
}

/// Skips spaces, tabs, carriage returns, newlines (counting them) and `//`
/// comments from `pos`; gives where the next token starts, and its line.
pub open spec fn skip_blank(cs: Seq<char>, pos: int, line: u32) -> (int, u32)
    decreases cs.len() - pos,
{
    if 0 <= pos < cs.len() {
        let c = cs[pos];
        if c == ' ' || c == '\r' || c == '\t' {
            skip_blank(cs, pos + 1, line)
        } else if c == '\n' {
            skip_blank(cs, pos + 1, next_line(line))
        } else if c == '/' && pos + 1 < cs.len() && cs[pos + 1] == '/' {
            skip_comment(cs, pos + 2, line)
        } else {
            (pos, line)
        }
    } else {
        (pos, line)
    }
}

/// Skips the rest of a comment up to its newline, then goes on as `skip_blank`.
pub open spec fn skip_comment(cs: Seq<char>, pos: int, line: u32) -> (int, u32)
    decreases cs.len() - pos,
{
    if 0 <= pos < cs.len() {
        if cs[pos] == '\n' {
            skip_blank(cs, pos + 1, next_line(line))
        } else {
            skip_comment(cs, pos + 1, line)
        }
    } else {
        (pos, line)
    }
}

/// The end of the run of digits that starts at `pos`.
pub open spec fn digits_end(cs: Seq<char>, pos: int) -> int
    decreases cs.len() - pos,
{
    if 0 <= pos < cs.len() && digit(cs[pos]) {
        digits_end(cs, pos + 1)
    } else {
        pos
    }
}

/// The end of the run of letters, digits and underscores that starts at `pos`.
pub open spec fn word_end(cs: Seq<char>, pos: int) -> int
    decreases cs.len() - pos,
{
    if 0 <= pos < cs.len() && (alpha(cs[pos]) || digit(cs[pos])) {
        word_end(cs, pos + 1)
    } else {
        pos
    }
}

/// The end of a number whose first digit ends at `pos`: more digits, then
/// optionally a `.` with at least one digit after it.
pub open spec fn number_end(cs: Seq<char>, pos: int) -> int {
    let d = digits_end(cs, pos);
    if d + 1 < cs.len() && cs[d] == '.' && digit(cs[d + 1]) {
        digits_end(cs, d + 1)
    } else {
        d
    }
}

/// From `pos`, inside a string literal: the position of the closing quote (or
/// the end of the text), and the line there.
pub open spec fn string_end(cs: Seq<char>, pos: int, line: u32) -> (int, u32)
    decreases cs.len() - pos,
{
    if 0 <= pos < cs.len() && cs[pos] != '"' {
        string_end(cs, pos + 1, if cs[pos] == '\n' { next_line(line) } else { line })
    } else {
        (pos, line)
    }
}

/// The kind of a word: a keyword, or else an identifier.
pub open spec fn keyword(w: Seq<char>) -> TokenType {
    if w == "and"@ {
        TokenType::And
    } else if w == "class"@ {
        TokenType::Class
    } else if w == "else"@ {
        TokenType::Else
    } else if w == "false"@ {
        TokenType::False
    } else if w == "for"@ {
        TokenType::For
    } else if w == "fun"@ {
        TokenType::Fun
    } else if w == "if"@ {
        TokenType::If
    } else if w == "nil"@ {
        TokenType::Nil
    } else if w == "or"@ {
        TokenType::Or
    } else if w == "print"@ {
        TokenType::Print
    } else if w == "return"@ {
        TokenType::Return
    } else if w == "super"@ {
        TokenType::Super
    } else if w == "this"@ {
        TokenType::This
    } else if w == "true"@ {
        TokenType::True
    } else if w == "var"@ {
        TokenType::Var
    } else if w == "while"@ {
        TokenType::While
    } else {
        TokenType::Identifier
    }
}

/// The token of a one-character operator or punctuation mark.
pub open spec fn single_char_kind(c: char) -> Option<TokenType> {
    if c == '(' {
        Some(TokenType::LeftParen)
    } else if c == ')' {
        Some(TokenType::RightParen)
    } else if c == '{' {
        Some(TokenType::LeftBrace)
    } else if c == '}' {
        Some(TokenType::RightBrace)
    } else if c == ';' {
        Some(TokenType::Semicolon)
    } else if c == ',' {
        Some(TokenType::Comma)
    } else if c == '.' {
        Some(TokenType::Dot)
    } else if c == '-' {
        Some(TokenType::Minus)
    } else if c == '+' {
        Some(TokenType::Plus)
    } else if c == '/' {
        Some(TokenType::Slash)
    } else if c == '*' {
        Some(TokenType::Star)
    } else {
        None
    }
}

/// For `!`, `=`, `<`, `>`: the kind alone, and the kind when `=` follows.
pub open spec fn pair_kinds(c: char) -> Option<(TokenType, TokenType)> {
    if c == '!' {
        Some((TokenType::Bang, TokenType::BangEqual))
    } else if c == '=' {
        Some((TokenType::Equal, TokenType::EqualEqual))
    } else if c == '<' {
        Some((TokenType::Less, TokenType::LessEqual))
    } else if c == '>' {
        Some((TokenType::Greater, TokenType::GreaterEqual))
    } else {
        None
    }
}

pub open spec fn unterminated_message() -> Seq<char> {
    "Unterminated string"@
}

pub open spec fn unexpected_message() -> Seq<char> {
    "Unexpected character."@
}

/// One step of scanning `cs` from `pos` on line `line`: the token found, and
/// the position and line where scanning goes on.
pub open spec fn scan(cs: Seq<char>, pos: int, line: u32) -> (TokenModel, int, u32) {
    let (p, l) = skip_blank(cs, pos, line);
    if p >= cs.len() {
        (token_model(TokenType::EOF, Seq::empty(), l), p, l)
    } else {
        let c = cs[p];
        if alpha(c) {
            let e = word_end(cs, p + 1);
            (token_model(keyword(cs.subrange(p, e)), cs.subrange(p, e), l), e, l)
        } else if digit(c) {
            let e = number_end(cs, p + 1);
            (token_model(TokenType::Number, cs.subrange(p, e), l), e, l)
        } else if c == '"' {
            let (q, l2) = string_end(cs, p + 1, l);
            if q >= cs.len() {
                (token_model(TokenType::Error, unterminated_message(), l2), q, l2)
            } else {
                (token_model(TokenType::String, cs.subrange(p, q + 1), l2), q + 1, l2)
            }
        } else if pair_kinds(c) is Some {
            let (one, two) = pair_kinds(c)->0;
            if p + 1 < cs.len() && cs[p + 1] == '=' {
                (token_model(two, cs.subrange(p, p + 2), l), p + 2, l)
            } else {
                (token_model(one, cs.subrange(p, p + 1), l), p + 1, l)
            }
        } else if single_char_kind(c) is Some {
            (token_model(single_char_kind(c)->0, cs.subrange(p, p + 1), l), p + 1, l)
        } else {
            (token_model(TokenType::Error, unexpected_message(), l), p + 1, l)
        }
    }
}

proof fn lemma_skip_blank(cs: Seq<char>, pos: int, line: u32)
    requires
        0 <= pos <= cs.len(),
    ensures
        pos <= skip_blank(cs, pos, line).0 <= cs.len(),
        skip_blank(cs, pos, line).1 >= line,
    decreases cs.len() - pos,
{
    if pos < cs.len() {
        let c = cs[pos];
        if c == ' ' || c == '\r' || c == '\t' {
            lemma_skip_blank(cs, pos + 1, line);
        } else if c == '\n' {
            lemma_skip_blank(cs, pos + 1, next_line(line));
        } else if c == '/' && pos + 1 < cs.len() && cs[pos + 1] == '/' {
            lemma_skip_comment(cs, pos + 2, line);
        }
    }
}

proof fn lemma_skip_comment(cs: Seq<char>, pos: int, line: u32)
    requires
        0 <= pos <= cs.len(),
    ensures
        pos <= skip_comment(cs, pos, line).0 <= cs.len(),
        skip_comment(cs, pos, line).1 >= line,
    decreases cs.len() - pos,
{
    if pos < cs.len() {
        if cs[pos] == '\n' {
            lemma_skip_blank(cs, pos + 1, next_line(line));
        } else {
            lemma_skip_comment(cs, pos + 1, line);
        }
    }
}

proof fn lemma_digits_end(cs: Seq<char>, pos: int)
    requires
        0 <= pos <= cs.len(),
    ensures
        pos <= digits_end(cs, pos) <= cs.len(),
    decreases cs.len() - pos,
{
    if pos < cs.len() && digit(cs[pos]) {
        lemma_digits_end(cs, pos + 1);
    }
}

proof fn lemma_word_end(cs: Seq<char>, pos: int)
    requires
        0 <= pos <= cs.len(),
    ensures
        pos <= word_end(cs, pos) <= cs.len(),
    decreases cs.len() - pos,
{
    if pos < cs.len() && (alpha(cs[pos]) || digit(cs[pos])) {
        lemma_word_end(cs, pos + 1);
    }
}

proof fn lemma_string_end(cs: Seq<char>, pos: int, line: u32)
    requires
        0 <= pos <= cs.len(),
    ensures
        pos <= string_end(cs, pos, line).0 <= cs.len(),
        string_end(cs, pos, line).1 >= line,
    decreases cs.len() - pos,
{
    if pos < cs.len() && cs[pos] != '"' {
        lemma_string_end(cs, pos + 1, if cs[pos] == '\n' { next_line(line) } else { line });
    }
}

/// Scanning never fails. From any position of any text it yields a token and
/// moves forward, unless the token is `EOF`, which it yields only at the end of
/// the text. A malformed piece of text gives an ordinary error token, whose text
/// is one of the two scanner messages; every token has a line of at least the
/// line scanning started on, and a string token keeps both its quotes.
pub proof fn lemma_scan(cs: Seq<char>, pos: int, line: u32)
    requires
        0 <= pos <= cs.len(),
    ensures
        ({
            let (t, p, l) = scan(cs, pos, line);
            &&& pos <= p <= cs.len()
            &&& t.line == l
            &&& l >= line
            &&& t.ty == TokenType::EOF ==> p == cs.len()
            &&& t.ty != TokenType::EOF ==> p > pos
            &&& t.ty == TokenType::Error ==> (t.lexeme == unterminated_message() || t.lexeme
                == unexpected_message())
            &&& t.ty == TokenType::String ==> t.lexeme.len() >= 2
        }),
{
    lemma_skip_blank(cs, pos, line);
    let (p, l) = skip_blank(cs, pos, line);
    if p < cs.len() {
        let c = cs[p];
        if alpha(c) {
            lemma_word_end(cs, p + 1);
        } else if digit(c) {
            lemma_digits_end(cs, p + 1);
            let d = digits_end(cs, p + 1);
            if d + 1 < cs.len() && cs[d] == '.' && digit(cs[d + 1]) {
                lemma_digits_end(cs, d + 1);
            }
        } else if c == '"' {
            lemma_string_end(cs, p + 1, l);
        }
    }
}

/// The tokens of `cs` from `pos` on, up to and including the first `EOF`.
pub open spec fn tokens_from(cs: Seq<char>, pos: int, line: u32) -> Seq<TokenModel>
    decreases cs.len() - pos,
{
    let (t, p, l) = scan(cs, pos, line);
    if t.ty != TokenType::EOF && 0 <= pos < p <= cs.len() {
        seq![t] + tokens_from(cs, p, l)
    } else {
        seq![t]
    }
}

/// The tokens of a source text, from its first line to its `EOF`.
pub open spec fn tokens(cs: Seq<char>) -> Seq<TokenModel> {
    tokens_from(cs, 0, 1)
}

/// The texts of the number tokens among `ts`, in order.
pub open spec fn number_texts(ts: Seq<TokenModel>) -> Seq<Seq<char>>
    decreases ts.len(),
{
    if ts.len() == 0 {
        Seq::empty()
    } else if ts.last().ty == TokenType::Number {
        number_texts(ts.drop_last()).push(ts.last().lexeme)
    } else {
        number_texts(ts.drop_last())
    }
}

proof fn lemma_number_texts_push(ts: Seq<TokenModel>, t: TokenModel)
    ensures
        number_texts(ts.push(t)) == if t.ty == TokenType::Number {
            number_texts(ts).push(t.lexeme)
        } else {
            number_texts(ts)
        },
{
    assert(ts.push(t).drop_last() =~= ts);
}

/// The stream of tokens has an `EOF` at its end and nowhere else.
pub proof fn lemma_tokens_end(cs: Seq<char>, pos: int, line: u32)
    requires
        0 <= pos <= cs.len(),
    ensures
        tokens_from(cs, pos, line).len() > 0,
        tokens_from(cs, pos, line).last().ty == TokenType::EOF,
        forall|i: int|
            0 <= i < tokens_from(cs, pos, line).len() - 1 ==> #[trigger] tokens_from(
                cs,
                pos,
                line,
            )[i].ty != TokenType::EOF,
    decreases cs.len() - pos,
{
    lemma_scan(cs, pos, line);
    let (t, p, l) = scan(cs, pos, line);
    if t.ty != TokenType::EOF {
        lemma_tokens_end(cs, p, l);
        let rest = tokens_from(cs, p, l);
        assert forall|i: int| 0 <= i < tokens_from(cs, pos, line).len() - 1 implies #[trigger] tokens_from(
            cs,
            pos,
            line,
        )[i].ty != TokenType::EOF by {
            if i > 0 {
                assert(tokens_from(cs, pos, line)[i] == rest[i - 1]);
            }
        }
    }
}

/// Turns source text into tokens, one at a time, on demand.
pub struct Scanner<'a> {
    source: &'a str,
    chars: Vec<char>,
    current: usize,
    line: u32,
}

impl<'a> Scanner<'a> {
    /// The characters being scanned.
    pub closed spec fn text(&self) -> Seq<char> {
        self.chars@
    }

    /// Where scanning goes on.
    pub closed spec fn position(&self) -> int {
        self.current as int
    }

    /// The current line.
    pub closed spec fn line(&self) -> u32 {
        self.line
    }

    pub closed spec fn wf(&self) -> bool {
        &&& self.chars@ == self.source@
        &&& self.current <= self.chars@.len()
        &&& self.line >= 1
    }

    /// What a caller may rely on of a well-formed scanner.
    pub proof fn lemma_wf(&self)
        requires
            self.wf(),
        ensures
            0 <= self.position() <= self.text().len(),
            self.line() >= 1,
    {
    }

    pub fn new(source: &'a str) -> (r: Scanner<'a>)
        ensures
            r.wf(),
            r.text() == source@,
            r.position() == 0,
            r.line() == 1,
    {
        let mut chars: Vec<char> = Vec::new();
        for c in it: source.chars()
            invariant
                it.seq() == source@,
                chars@ == it.seq().take(it.index() as int),
        {
            chars.push(c);
        }
        assert(chars@ =~= source@);
        Scanner { source, chars, current: 0, line: 1 }
    }

    fn is_digit(c: char) -> (r: bool)
        ensures
            r == digit(c),
    {
        '0' <= c && c <= '9'
    }

    fn is_alpha(c: char) -> (r: bool)
        ensures
            r == alpha(c),
    {
        char_is_alphabetic(c) || c == '_'
    }

    fn peek(&self) -> (r: Option<char>)
        requires
            self.wf(),
        ensures
            self.position() < self.text().len() ==> r == Some(self.text()[self.position()]),
            self.position() >= self.text().len() ==> r is None,
    {
        if self.current < self.chars.len() {
            Some(self.chars[self.current])
        } else {
            None
        }
    }

    fn peek_next(&self) -> (r: Option<char>)
        requires
            self.wf(),
        ensures
            self.position() + 1 < self.text().len() ==> r == Some(
                self.text()[self.position() + 1],
            ),
            self.position() + 1 >= self.text().len() ==> r is None,
    {
        let n = self.chars.len();
        if n > 0 && self.current < n - 1 {
            Some(self.chars[self.current + 1])
        } else {
            None
        }
    }

    /// Moves past the next character, if any, and returns it.
    fn advance(&mut self) -> (r: Option<char>)
        requires
            old(self).wf(),
        ensures
            final(self).wf(),
            final(self).text() == old(self).text(),
            final(self).line() == old(self).line(),
            final(self).source == old(self).source,
            old(self).position() < old(self).text().len() ==> {
                &&& r == Some(old(self).text()[old(self).position()])
                &&& final(self).position() == old(self).position() + 1
            },
            old(self).position() >= old(self).text().len() ==> {
                &&& r is None
                &&& final(self).position() == old(self).position()
            },
    {
        if self.current < self.chars.len() {
            let c = self.chars[self.current];
            self.current = self.current + 1;
            Some(c)
        } else {
            None
        }
    }

    /// Moves past the next character if it is `expected`.
    fn matches(&mut self, expected: char) -> (r: bool)
        requires
            old(self).wf(),
        ensures
            final(self).wf(),
            final(self).text() == old(self).text(),
            final(self).line() == old(self).line(),
            final(self).source == old(self).source,
            r == (old(self).position() < old(self).text().len() && old(self).text()[old(
                self,
            ).position()] == expected),
            final(self).position() == old(self).position() + if r {
                1int
            } else {
                0int
            },
    {
        match self.peek() {
            Some(c) => if c == expected {
                self.advance();
                true
            } else {
                false
            },
            None => false,
        }
    }

    fn new_line(&mut self)
        requires
            old(self).wf(),
        ensures
            final(self).wf(),
            final(self).text() == old(self).text(),
            final(self).position() == old(self).position(),
            final(self).source == old(self).source,
            final(self).line() == next_line(old(self).line()),
    {
        if self.line < u32::MAX {
            self.line = self.line + 1;
        }
    }

    /// Moves past blanks and comments.
    fn skip_whitespace(&mut self)
        requires
            old(self).wf(),
        ensures
            final(self).wf(),
            final(self).text() == old(self).text(),
            final(self).source == old(self).source,
            (final(self).position(), final(self).line()) == skip_blank(
                old(self).text(),
                old(self).position(),
                old(self).line(),
            ),
    {
        let ghost cs = self.chars@;
        let ghost target = skip_blank(cs, self.current as int, self.line);
        loop
            invariant
                self.wf(),
                self.chars@ == cs,
                self.source == old(self).source,
                skip_blank(cs, self.current as int, self.line) == target,
            ensures
                self.wf(),
                self.chars@ == cs,
                self.source == old(self).source,
                (self.current as int, self.line) == target,
            decreases cs.len() - self.current,
        {
            let ghost before = self.current;
            match self.peek() {
                Some(c) => {
                    if c == ' ' || c == '\r' || c == '\t' {
                        self.advance();
                    } else if c == '\n' {
                        self.new_line();
                        self.advance();
                    } else if c == '/' && self.peek_next() == Some('/') {
                        self.advance();
                        self.advance();
                        while self.current < self.chars.len() && self.chars[self.current] != '\n'
                            invariant
                                self.wf(),
                                self.chars@ == cs,
                                self.source == old(self).source,
                                skip_comment(cs, self.current as int, self.line) == target,
                                self.current > before,
                            decreases cs.len() - self.current,
                        {
                            self.advance();
                        }
                        if self.current >= self.chars.len() {
                            break;
                        }
                    } else {
                        break;
                    }
                },
                None => break,
            }
        }
    }

    fn make_token(&self, ty: TokenType, start: usize) -> (r: Token<'a>)
        requires
            self.wf(),
            start <= self.position(),
        ensures
            r@ == token_model(ty, self.text().subrange(start as int, self.position()), self.line()),
    {
        let source: &'a str = self.source;
        Token::new(ty, source.substring_char(start, self.current), self.line)
    }

    /// Whether the text from `start` to the current position is `word`.
    fn lexeme_is(&self, start: usize, word: &str) -> (r: bool)
        requires
            self.wf(),
            start <= self.position(),
        ensures
            r == (self.text().subrange(start as int, self.position()) == word@),
    {
        let ghost lex = self.chars@.subrange(start as int, self.current as int);
        let n = word.unicode_len();
        if self.current - start != n {
            return false;
        }
        let mut i: usize = 0;
        while i < n
            invariant
                self.wf(),
                lex == self.chars@.subrange(start as int, self.current as int),
                n == word@.len(),
                n == lex.len(),
                start + n == self.current,
                i <= n,
                lex.take(i as int) == word@.take(i as int),
            decreases n - i,
        {
            if self.chars[start + i] != word.get_char(i) {
                assert(lex[i as int] != word@[i as int]);
                return false;
            }
            assert(lex.take(i + 1) == lex.take(i as int).push(lex[i as int]));
            assert(word@.take(i + 1) == word@.take(i as int).push(word@[i as int]));
            i = i + 1;
        }
        assert(lex.take(n as int) == lex);
        assert(word@.take(n as int) == word@);
        true
    }

    /// The kind of the word from `start` to the current position.
    fn identifier_type(&self, start: usize) -> (r: TokenType)
        requires
            self.wf(),
            start <= self.position(),
        ensures
            r == keyword(self.text().subrange(start as int, self.position())),
    {
        if self.lexeme_is(start, "and") {
            TokenType::And
        } else if self.lexeme_is(start, "class") {
            TokenType::Class
        } else if self.lexeme_is(start, "else") {
            TokenType::Else
        } else if self.lexeme_is(start, "false") {
            TokenType::False
        } else if self.lexeme_is(start, "for") {
            TokenType::For
        } else if self.lexeme_is(start, "fun") {
            TokenType::Fun
        } else if self.lexeme_is(start, "if") {
            TokenType::If
        } else if self.lexeme_is(start, "nil") {
            TokenType::Nil
        } else if self.lexeme_is(start, "or") {
            TokenType::Or
        } else if self.lexeme_is(start, "print") {
            TokenType::Print
        } else if self.lexeme_is(start, "return") {
            TokenType::Return
        } else if self.lexeme_is(start, "super") {
            TokenType::Super
        } else if self.lexeme_is(start, "this") {
            TokenType::This
        } else if self.lexeme_is(start, "true") {
            TokenType::True
        } else if self.lexeme_is(start, "var") {
            TokenType::Var
        } else if self.lexeme_is(start, "while") {
            TokenType::While
        } else {
            TokenType::Identifier
        }
    }

    /// Scans the rest of a word whose first character is behind `start`.
    fn identifier(&mut self, start: usize) -> (r: Token<'a>)
        requires
            old(self).wf(),
            start < old(self).position(),
        ensures
            final(self).wf(),
            final(self).text() == old(self).text(),
            final(self).line() == old(self).line(),
            final(self).position() == word_end(old(self).text(), old(self).position()),
            r@ == token_model(
                keyword(old(self).text().subrange(start as int, final(self).position())),
                old(self).text().subrange(start as int, final(self).position()),
                old(self).line(),
            ),
    {
        let ghost cs = self.chars@;
        let ghost target = word_end(cs, self.current as int);
        while self.current < self.chars.len() && (Self::is_alpha(self.chars[self.current])
            || Self::is_digit(self.chars[self.current]))
            invariant
                self.wf(),
                self.chars@ == cs,
                self.source == old(self).source,
                self.line == old(self).line,
                start < self.current,
                word_end(cs, self.current as int) == target,
            decreases cs.len() - self.current,
        {
            self.advance();
        }
        let ty = self.identifier_type(start);
        self.make_token(ty, start)
    }

    fn digit_ahead(&self) -> (r: bool)
        requires
            self.wf(),
        ensures
            r == (self.position() < self.text().len() && digit(self.text()[self.position()])),
    {
        self.current < self.chars.len() && Self::is_digit(self.chars[self.current])
    }

    /// Scans the rest of a number whose first digit is behind `start`.
    fn number(&mut self, start: usize) -> (r: Token<'a>)
        requires
            old(self).wf(),
            start < old(self).position(),
        ensures
            final(self).wf(),
            final(self).text() == old(self).text(),
            final(self).line() == old(self).line(),
            final(self).position() == number_end(old(self).text(), old(self).position()),
            r@ == token_model(
                TokenType::Number,
                old(self).text().subrange(start as int, final(self).position()),
                old(self).line(),
            ),
    {
        let ghost cs = self.chars@;
        let ghost d = digits_end(cs, self.current as int);
        while self.digit_ahead()
            invariant
                self.wf(),
                self.chars@ == cs,
                self.source == old(self).source,
                self.line == old(self).line,
                start < self.current,
                digits_end(cs, self.current as int) == d,
            decreases cs.len() - self.current,
        {
            self.advance();
        }
        let fraction = match (self.peek(), self.peek_next()) {
            (Some('.'), Some(c)) => Self::is_digit(c),
            _ => false,
        };
        if fraction {
            self.advance();
            let ghost e = digits_end(cs, self.current as int);
            while self.digit_ahead()
                invariant
                    self.wf(),
                    self.chars@ == cs,
                    self.source == old(self).source,
                    self.line == old(self).line,
                    start < self.current,
                    digits_end(cs, self.current as int) == e,
                decreases cs.len() - self.current,
            {
                self.advance();
            }
        }
        self.make_token(TokenType::Number, start)
    }

    /// Scans the rest of a string literal whose opening quote is behind `start`.
    fn string(&mut self, start: usize) -> (r: Token<'a>)
        requires
            old(self).wf(),
            start < old(self).position(),
        ensures
            final(self).wf(),
            final(self).text() == old(self).text(),
            ({
                let (q, l) = string_end(old(self).text(), old(self).position(), old(self).line());
                if q >= old(self).text().len() {
                    &&& r@ == token_model(TokenType::Error, unterminated_message(), l)
                    &&& final(self).position() == q
                    &&& final(self).line() == l
                } else {
                    &&& r@ == token_model(
                        TokenType::String,
                        old(self).text().subrange(start as int, q + 1),
                        l,
                    )
                    &&& final(self).position() == q + 1
                    &&& final(self).line() == l
                }
            }),
    {
        let ghost cs = self.chars@;
        let ghost target = string_end(cs, self.current as int, self.line);
        while self.current < self.chars.len() && self.chars[self.current] != '"'
            invariant
                self.wf(),
                self.chars@ == cs,
                self.source == old(self).source,
                start < self.current,
                string_end(cs, self.current as int, self.line) == target,
            decreases cs.len() - self.current,
        {
            if self.chars[self.current] == '\n' {
                self.new_line();
            }
            self.advance();
        }
        if self.current >= self.chars.len() {
            return Token::error("Unterminated string", self.line);
        }
        self.advance();
        self.make_token(TokenType::String, start)
    }

    /// Scans the next token. Malformed input gives an error token; scanning
    /// goes on after it, and past the end every token is `EOF`.
    pub fn scan_token(&mut self) -> (r: Token<'a>)
        requires
            old(self).wf(),
        ensures
            final(self).wf(),
            final(self).text() == old(self).text(),
            (r@, final(self).position(), final(self).line()) == scan(
                old(self).text(),
                old(self).position(),
                old(self).line(),
            ),
    {
        self.skip_whitespace();
        let start = self.current;
        let c = match self.advance() {
            Some(c) => c,
            None => {
                assert(self.chars@.subrange(start as int, start as int) =~= Seq::<char>::empty());
                return self.make_token(TokenType::EOF, start);
            },
        };
        if Self::is_alpha(c) {
            return self.identifier(start);
        }
        if Self::is_digit(c) {
            return self.number(start);
        }
        match c {
            '(' => self.make_token(TokenType::LeftParen, start),
            ')' => self.make_token(TokenType::RightParen, start),
            '{' => self.make_token(TokenType::LeftBrace, start),
            '}' => self.make_token(TokenType::RightBrace, start),
            ';' => self.make_token(TokenType::Semicolon, start),
            ',' => self.make_token(TokenType::Comma, start),
            '.' => self.make_token(TokenType::Dot, start),
            '-' => self.make_token(TokenType::Minus, start),
            '+' => self.make_token(TokenType::Plus, start),
            '/' => self.make_token(TokenType::Slash, start),
            '*' => self.make_token(TokenType::Star, start),
            '!' => {
                let ty = if self.matches('=') {
                    TokenType::BangEqual
                } else {
                    TokenType::Bang
                };
                self.make_token(ty, start)
            },
            '=' => {
                let ty = if self.matches('=') {
                    TokenType::EqualEqual
                } else {
                    TokenType::Equal
                };
                self.make_token(ty, start)
            },
            '<' => {
                let ty = if self.matches('=') {
                    TokenType::LessEqual
                } else {
                    TokenType::Less
                };
                self.make_token(ty, start)
            },
            '>' => {
                let ty = if self.matches('=') {
                    TokenType::GreaterEqual
                } else {
                    TokenType::Greater
                };
                self.make_token(ty, start)
            },
            '"' => self.string(start),
            _ => Token::error("Unexpected character.", self.line),
        }
    }
}

/// All the tokens of a source text, up to and including its `EOF`.
pub fn tokenize<'a>(source: &'a str) -> (r: Vec<Token<'a>>)
    ensures
        r@.map_values(|t: Token<'a>| t@) == tokens(source@),
{
    let mut scanner = Scanner::new(source);
    let mut out: Vec<Token<'a>> = Vec::new();
    let ghost cs = source@;
    loop
        invariant
            scanner.wf(),
            scanner.text() == cs,
            cs == source@,
            0 <= scanner.position() <= cs.len(),
            out@.map_values(|t: Token<'a>| t@) + tokens_from(cs, scanner.position(), scanner.line())
                == tokens(cs),
        decreases cs.len() - scanner.position(),
    {
        proof {
            lemma_scan(cs, scanner.position(), scanner.line());
        }
        let ghost before = out@;
        let ghost (pos, line) = (scanner.position(), scanner.line());
        let t = scanner.scan_token();
        proof {
            scanner.lemma_wf();
        }
        out.push(t);
        assert(out@.map_values(|t: Token<'a>| t@) == before.map_values(|t: Token<'a>| t@).push(t@));
        if t.ty == TokenType::EOF {
            assert(tokens_from(cs, pos, line) == seq![t@]);
            assert(before.map_values(|t: Token<'a>| t@) + seq![t@] =~= out@.map_values(
                |t: Token<'a>| t@,
            ));
            return out;
        }
        assert(tokens_from(cs, pos, line) == seq![t@] + tokens_from(
            cs,
            scanner.position(),
            scanner.line(),
        ));
        assert(before.map_values(|t: Token<'a>| t@) + tokens_from(cs, pos, line) =~= out@.map_values(
            |t: Token<'a>| t@,
        ) + tokens_from(cs, scanner.position(), scanner.line()));
    }
}

/// The texts of a source's number literals, in order: the numbers that
/// `compile` needs the values of.
pub fn number_literals<'a>(source: &'a str) -> (r: Vec<&'a str>)
    ensures
        r@.map_values(|s: &'a str| s@) == number_texts(tokens(source@)),
{
    let ts = tokenize(source);
    let ghost tm = ts@.map_values(|t: Token<'a>| t@);
    let mut out: Vec<&'a str> = Vec::new();
    let mut i: usize = 0;
    while i < ts.len()
        invariant
            i <= ts@.len(),
            tm == ts@.map_values(|t: Token<'a>| t@),
            out@.map_values(|s: &'a str| s@) == number_texts(tm.take(i as int)),
        decreases ts@.len() - i,
    {
        let ghost before = out@;
        proof {
            lemma_number_texts_push(tm.take(i as int), tm[i as int]);
            assert(tm.take(i + 1) =~= tm.take(i as int).push(tm[i as int]));
        }
        if ts[i].ty == TokenType::Number {
            out.push(ts[i].lexeme);
            assert(out@.map_values(|s: &'a str| s@) =~= before.map_values(|s: &'a str| s@).push(
                ts@[i as int].lexeme@,
            ));
        }
        i = i + 1;
    }
    assert(tm.take(ts@.len() as int) =~= tm);
    out
}

} // verus!
