use vstd::prelude::*;
use crate::text::{
    alpha, chars_of, count, decimal, decimal_digits, decimal_text, digit, digit_value, is_alpha,
    is_digit, is_space, is_text, is_word_char, space, word_char,
};

verus! {

/// A lexical token of the language.
#[derive(Debug, PartialEq)]
pub enum Token {
    Number(i32),
    StringLiteral(String),
    Identifier(String),
    LoopVariable(u8),
    Add,
    Sub,
    Mul,
    Div,
    Emit,
    If,
    Dup,
    Swap,
    Drop,
    Else,
    Then,
    Lt,
    Do,
    Loop,
    Gt,
    Lte,
    Gte,
    Eq,
    DoubleEq,
    Colon,
    SemiColon,
    Puts,
    EOF,
    Arrow,
    At,
}

/// The mathematical value of a [`Token`]: text is a sequence of characters.
pub enum TokenView {
    Number(i32),
    StringLiteral(Seq<char>),
    Identifier(Seq<char>),
    LoopVariable(u8),
    Add,
    Sub,
    Mul,
    Div,
    Emit,
    If,
    Dup,
    Swap,
    Drop,
    Else,
    Then,
    Lt,
    Do,
    Loop,
    Gt,
    Lte,
    Gte,
    Eq,
    DoubleEq,
    Colon,
    SemiColon,
    Puts,
    EOF,
    Arrow,
    At,
}

impl View for Token {
    type V = TokenView;

    open spec fn view(&self) -> TokenView {
        match self {
            Token::Number(n) => TokenView::Number(*n),
            Token::StringLiteral(s) => TokenView::StringLiteral(s@),
            Token::Identifier(s) => TokenView::Identifier(s@),
            Token::LoopVariable(d) => TokenView::LoopVariable(*d),
            Token::Add => TokenView::Add,
            Token::Sub => TokenView::Sub,
            Token::Mul => TokenView::Mul,
            Token::Div => TokenView::Div,
            Token::Emit => TokenView::Emit,
            Token::If => TokenView::If,
            Token::Dup => TokenView::Dup,
            Token::Swap => TokenView::Swap,
            Token::Drop => TokenView::Drop,
            Token::Else => TokenView::Else,
            Token::Then => TokenView::Then,
            Token::Lt => TokenView::Lt,
            Token::Do => TokenView::Do,
            Token::Loop => TokenView::Loop,
            Token::Gt => TokenView::Gt,
            Token::Lte => TokenView::Lte,
            Token::Gte => TokenView::Gte,
            Token::Eq => TokenView::Eq,
            Token::DoubleEq => TokenView::DoubleEq,
            Token::Colon => TokenView::Colon,
            Token::SemiColon => TokenView::SemiColon,
            Token::Puts => TokenView::Puts,
            Token::EOF => TokenView::EOF,
            Token::Arrow => TokenView::Arrow,
            Token::At => TokenView::At,
        }
    }
}

impl Clone for Token {
    fn clone(&self) -> (r: Token)
        ensures
            r@ == self@,
    {
        match self {
            Token::Number(n) => Token::Number(*n),
            Token::StringLiteral(s) => Token::StringLiteral(s.clone()),
            Token::Identifier(s) => Token::Identifier(s.clone()),
            Token::LoopVariable(d) => Token::LoopVariable(*d),
            Token::Add => Token::Add,
            Token::Sub => Token::Sub,
            Token::Mul => Token::Mul,
            Token::Div => Token::Div,
            Token::Emit => Token::Emit,
            Token::If => Token::If,
            Token::Dup => Token::Dup,
            Token::Swap => Token::Swap,
            Token::Drop => Token::Drop,
            Token::Else => Token::Else,
            Token::Then => Token::Then,
            Token::Lt => Token::Lt,
            Token::Do => Token::Do,
            Token::Loop => Token::Loop,
            Token::Gt => Token::Gt,
            Token::Lte => Token::Lte,
            Token::Gte => Token::Gte,
            Token::Eq => Token::Eq,
            Token::DoubleEq => Token::DoubleEq,
            Token::Colon => Token::Colon,
            Token::SemiColon => Token::SemiColon,
            Token::Puts => Token::Puts,
            Token::EOF => Token::EOF,
            Token::Arrow => Token::Arrow,
            Token::At => Token::At,
        }
    }
}

/// How a token is written in a program. A string literal stands between
/// double quotes; a loop variable of a depth that has no name is written as
/// the depth.
pub open spec fn spelling(token: TokenView) -> Seq<char> {
    match token {
        TokenView::Number(n) => decimal_text(n as int),
        TokenView::StringLiteral(text) => "\""@ + text + "\""@,
        TokenView::Identifier(name) => name,
        TokenView::LoopVariable(d) => {
            if d == 0 {
                "I"@
            } else if d == 1 {
                "J"@
            } else if d == 2 {
                "K"@
            } else if d == 3 {
                "L"@
            } else if d == 4 {
                "M"@
            } else {
                decimal_text(d as int)
            }
        },
        TokenView::Add => "+"@,
        TokenView::Sub => "-"@,
        TokenView::Mul => "*"@,
        TokenView::Div => "/"@,
        TokenView::Emit => "."@,
        TokenView::If => "IF"@,
        TokenView::Dup => "DUP"@,
        TokenView::Swap => "SWAP"@,
        TokenView::Drop => "DROP"@,
        TokenView::Else => "ELSE"@,
        TokenView::Then => "THEN"@,
        TokenView::Lt => "<"@,
        TokenView::Do => "DO"@,
        TokenView::Loop => "LOOP"@,
        TokenView::Gt => ">"@,
        TokenView::Lte => "<="@,
        TokenView::Gte => ">="@,
        TokenView::Eq => "="@,
        TokenView::DoubleEq => "=="@,
        TokenView::Colon => ":"@,
        TokenView::SemiColon => ";"@,
        TokenView::Puts => "PUTS"@,
        TokenView::EOF => "end of program"@,
        TokenView::Arrow => "->"@,
        TokenView::At => "@"@,
    }
}

impl Token {
    /// How the token is written in a program.
    pub fn spelling(&self) -> (r: String)
        ensures
            r@ == spelling(self@),
    {
        match self {
            Token::Number(n) => decimal(*n),
            Token::StringLiteral(text) => {
                let mut r = String::from_str("\"");
                r.append(text.as_str());
                r.append("\"");
                r
            },
            Token::Identifier(name) => name.clone(),
            Token::LoopVariable(d) => {
                if *d == 0 {
                    String::from_str("I")
                } else if *d == 1 {
                    String::from_str("J")
                } else if *d == 2 {
                    String::from_str("K")
                } else if *d == 3 {
                    String::from_str("L")
                } else if *d == 4 {
                    String::from_str("M")
                } else {
                    decimal(*d as i32)
                }
            },
            Token::Add => String::from_str("+"),
            Token::Sub => String::from_str("-"),
            Token::Mul => String::from_str("*"),
            Token::Div => String::from_str("/"),
            Token::Emit => String::from_str("."),
            Token::If => String::from_str("IF"),
            Token::Dup => String::from_str("DUP"),
            Token::Swap => String::from_str("SWAP"),
            Token::Drop => String::from_str("DROP"),
            Token::Else => String::from_str("ELSE"),
            Token::Then => String::from_str("THEN"),
            Token::Lt => String::from_str("<"),
            Token::Do => String::from_str("DO"),
            Token::Loop => String::from_str("LOOP"),
            Token::Gt => String::from_str(">"),
            Token::Lte => String::from_str("<="),
            Token::Gte => String::from_str(">="),
            Token::Eq => String::from_str("="),
            Token::DoubleEq => String::from_str("=="),
            Token::Colon => String::from_str(":"),
            Token::SemiColon => String::from_str(";"),
            Token::Puts => String::from_str("PUTS"),
            Token::EOF => String::from_str("end of program"),
            Token::Arrow => String::from_str("->"),
            Token::At => String::from_str("@"),
        }
    }
}

/// The views of a sequence of tokens, in order.
pub open spec fn token_views(tokens: Seq<Token>) -> Seq<TokenView> {
    Seq::new(tokens.len(), |i: int| tokens[i]@)
}

/// Why a text is no sequence of tokens. A position counts the characters
/// before the place.
#[derive(Debug, PartialEq, Eq, Clone, Copy)]
pub enum LexFault {
    /// The character at `position` starts no token.
    UnknownCharacter { position: usize },
    /// The identifier that ends at `position` is followed by a character
    /// that is no white space.
    ExpectedWhitespace { position: usize },
    /// The number that starts at `position` has a magnitude that is no
    /// 32-bit number.
    NumberOutOfRange { position: usize },
}

/// The text that tells of a fault of the lexer: what is wrong, and the
/// position in decimal.
pub open spec fn lex_message(fault: LexFault) -> Seq<char> {
    match fault {
        LexFault::UnknownCharacter { position } => "Unknown character at "@ + decimal_digits(
            position as nat,
        ),
        LexFault::ExpectedWhitespace { position } => "Expected whitespace at "@ + decimal_digits(
            position as nat,
        ),
        LexFault::NumberOutOfRange { position } => "Number out of range at "@ + decimal_digits(
            position as nat,
        ),
    }
}

impl LexFault {
    /// A text that tells of the fault.
    pub fn message(&self) -> (r: String)
        ensures
            r@ == lex_message(*self),
    {
        match self {
            LexFault::UnknownCharacter { position } => {
                let mut r = String::from_str("Unknown character at ");
                r.append(count(*position).as_str());
                r
            },
            LexFault::ExpectedWhitespace { position } => {
                let mut r = String::from_str("Expected whitespace at ");
                r.append(count(*position).as_str());
                r
            },
            LexFault::NumberOutOfRange { position } => {
                let mut r = String::from_str("Number out of range at ");
                r.append(count(*position).as_str());
                r
            },
        }
    }
}

/// The first position from `pos` on that holds no white space.
pub open spec fn skip_spaces(s: Seq<char>, pos: int) -> int
    decreases s.len() - pos,
{
    if 0 <= pos < s.len() && is_space(s[pos]) {
        skip_spaces(s, pos + 1)
    } else {
        pos
    }
}

/// The first position from `pos` on that holds no digit.
pub open spec fn digits_end(s: Seq<char>, pos: int) -> int
    decreases s.len() - pos,
{
    if 0 <= pos < s.len() && is_digit(s[pos]) {
        digits_end(s, pos + 1)
    } else {
        pos
    }
}

/// The first position from `pos` on that holds no letter, digit or `_`.
pub open spec fn word_end(s: Seq<char>, pos: int) -> int
    decreases s.len() - pos,
{
    if 0 <= pos < s.len() && is_word_char(s[pos]) {
        word_end(s, pos + 1)
    } else {
        pos
    }
}

/// The first position from `pos` on that holds a double quote, or the end
/// of the text.
pub open spec fn quote_at(s: Seq<char>, pos: int) -> int
    decreases s.len() - pos,
{
    if 0 <= pos < s.len() && s[pos] != '"' {
        quote_at(s, pos + 1)
    } else {
        pos
    }
}

/// The number that the digits from `from` up to `to` stand for.
pub open spec fn number_value(s: Seq<char>, from: int, to: int) -> int
    decreases to - from,
{
    if from >= to {
        0
    } else {
        number_value(s, from, to - 1) * 10 + digit_value(s[to - 1])
    }
}

/// The token that an identifier with the text `name` is: a keyword, a loop
/// variable, or else a free name.
pub open spec fn word_token(name: Seq<char>) -> TokenView {
    if name == "IF"@ {
        TokenView::If
    } else if name == "ELSE"@ {
        TokenView::Else
    } else if name == "THEN"@ {
        TokenView::Then
    } else if name == "DUP"@ {
        TokenView::Dup
    } else if name == "SWAP"@ {
        TokenView::Swap
    } else if name == "DROP"@ {
        TokenView::Drop
    } else if name == "DO"@ {
        TokenView::Do
    } else if name == "LOOP"@ {
        TokenView::Loop
    } else if name == "PUTS"@ {
        TokenView::Puts
    } else if name == "I"@ {
        TokenView::LoopVariable(0)
    } else if name == "J"@ {
        TokenView::LoopVariable(1)
    } else if name == "K"@ {
        TokenView::LoopVariable(2)
    } else if name == "L"@ {
        TokenView::LoopVariable(3)
    } else if name == "M"@ {
        TokenView::LoopVariable(4)
    } else {
        TokenView::Identifier(name)
    }
}

/// What stands at a place in the text.
pub enum Scan {
    /// Nothing but white space up to the end.
    End,
    /// A token, and the position after it.
    Token { token: TokenView, next: int },
    /// A malformed token.
    Fault(LexFault),
}

/// The number whose digits start at `from`; its token starts at `start`.
/// Its magnitude must be a 32-bit number.
pub open spec fn scan_number(s: Seq<char>, start: int, from: int, negative: bool) -> Scan {
    let end = digits_end(s, from);
    let value = number_value(s, from, end);
    if value > i32::MAX {
        Scan::Fault(LexFault::NumberOutOfRange { position: start as usize })
    } else if negative {
        Scan::Token { token: TokenView::Number((-value) as i32), next: end }
    } else {
        Scan::Token { token: TokenView::Number(value as i32), next: end }
    }
}

/// The identifier or keyword that starts at `start`. It must be followed by
/// white space, which belongs to it, or by the end of the text.
pub open spec fn scan_word(s: Seq<char>, start: int) -> Scan {
    let end = word_end(s, start);
    if end < s.len() && !is_space(s[end]) {
        Scan::Fault(LexFault::ExpectedWhitespace { position: end as usize })
    } else {
        Scan::Token {
            token: word_token(s.subrange(start, end)),
            next: if end < s.len() {
                end + 1
            } else {
                end
            },
        }
    }
}

/// The string literal whose opening quote is at `start`: the characters up
/// to the next quote as they stand, or up to the end of the text.
pub open spec fn scan_string(s: Seq<char>, start: int) -> Scan {
    let end = quote_at(s, start + 1);
    Scan::Token {
        token: TokenView::StringLiteral(s.subrange(start + 1, end)),
        next: if end < s.len() {
            end + 1
        } else {
            end
        },
    }
}

/// Whether the character after `start` is `c`.
pub open spec fn followed_by(s: Seq<char>, start: int, c: char) -> bool {
    start + 1 < s.len() && s[start + 1] == c
}

/// One of two tokens that start with the same character: `long` if `=`
/// follows, else `short`.
pub open spec fn scan_pair(s: Seq<char>, start: int, short: TokenView, long: TokenView) -> Scan {
    if followed_by(s, start, '=') {
        Scan::Token { token: long, next: start + 2 }
    } else {
        Scan::Token { token: short, next: start + 1 }
    }
}

/// The token that starts with the `-` at `start`: `->`, a negative number,
/// or the operator `-`.
pub open spec fn scan_minus(s: Seq<char>, start: int) -> Scan {
    if followed_by(s, start, '>') {
        Scan::Token { token: TokenView::Arrow, next: start + 2 }
    } else if start + 1 < s.len() && is_digit(s[start + 1]) {
        scan_number(s, start, start + 1, true)
    } else {
        Scan::Token { token: TokenView::Sub, next: start + 1 }
    }
}

/// The token that is the single character `c`, if there is one.
pub open spec fn single(c: char) -> Option<TokenView> {
    if c == '+' {
        Some(TokenView::Add)
    } else if c == '*' {
        Some(TokenView::Mul)
    } else if c == '/' {
        Some(TokenView::Div)
    } else if c == '.' {
        Some(TokenView::Emit)
    } else if c == ':' {
        Some(TokenView::Colon)
    } else if c == ';' {
        Some(TokenView::SemiColon)
    } else if c == '@' {
        Some(TokenView::At)
    } else {
        None
    }
}

/// What stands in `s` from `pos` on, after white space: the next token.
pub open spec fn scan(s: Seq<char>, pos: int) -> Scan {
    let start = skip_spaces(s, pos);
    if start < 0 || start >= s.len() {
        Scan::End
    } else {
        let c = s[start];
        if is_digit(c) {
            scan_number(s, start, start, false)
        } else if is_alpha(c) {
            scan_word(s, start)
        } else if c == '"' {
            scan_string(s, start)
        } else if c == '>' {
            scan_pair(s, start, TokenView::Gt, TokenView::Gte)
        } else if c == '<' {
            scan_pair(s, start, TokenView::Lt, TokenView::Lte)
        } else if c == '=' {
            scan_pair(s, start, TokenView::Eq, TokenView::DoubleEq)
        } else if c == '-' {
            scan_minus(s, start)
        } else {
            match single(c) {
                Some(token) => Scan::Token { token, next: start + 1 },
                None => Scan::Fault(LexFault::UnknownCharacter { position: start as usize }),
            }
        }
    }
}

/// The runs of characters that the lexer skips or gathers end at or after
/// the place where they start, and within the text.
pub proof fn lemma_runs(s: Seq<char>, pos: int)
    requires
        0 <= pos <= s.len(),
    ensures
        pos <= skip_spaces(s, pos) <= s.len(),
        pos <= digits_end(s, pos) <= s.len(),
        pos <= word_end(s, pos) <= s.len(),
        pos <= quote_at(s, pos) <= s.len(),
    decreases s.len() - pos,
{
    if pos < s.len() {
        lemma_runs(s, pos + 1);
    }
}

/// A token ends after the place where the search for it starts, and within
/// the text.
pub proof fn lemma_scan_advances(s: Seq<char>, pos: int)
    requires
        0 <= pos <= s.len(),
    ensures
        scan(s, pos) matches Scan::Token { token, next } ==> pos < next <= s.len(),
{
    lemma_runs(s, pos);
    let start = skip_spaces(s, pos);
    if start < s.len() {
        lemma_runs(s, start);
        lemma_runs(s, start + 1);
    }
}

/// The tokens of `s` from `pos` on, with the end marker after the last, or
/// the first fault.
pub open spec fn lex_from(s: Seq<char>, pos: int) -> Result<Seq<TokenView>, LexFault>
    decreases s.len() - pos,
{
    if pos < 0 || pos > s.len() {
        Ok(seq![TokenView::EOF])
    } else {
        match scan(s, pos) {
            Scan::End => Ok(seq![TokenView::EOF]),
            Scan::Fault(fault) => Err(fault),
            Scan::Token { token, next } => {
                proof {
                    lemma_scan_advances(s, pos);
                }
                match lex_from(s, next) {
                    Ok(rest) => Ok(seq![token] + rest),
                    Err(fault) => Err(fault),
                }
            },
        }
    }
}

/// The tokens of the text `s`, in the order of the text, with the end marker
/// after the last; or the fault of the first malformed token.
///
/// A character that starts no token is a fault, and so is an identifier
/// that is followed by anything but white space. A string that is not
/// closed runs to the end of the text.
///
/// To work it out for a given text, unfold the definitions as far as the
/// text needs: `reveal_with_fuel(lex_from, n)` for a text of fewer than `n`
/// tokens, and in the same way `skip_spaces`, `digits_end`, `word_end`,
/// `quote_at` and `number_value` for its longest run of characters.
pub open spec fn lex_spec(s: Seq<char>) -> Result<Seq<TokenView>, LexFault> {
    lex_from(s, 0)
}

/// Whether `tokens` end with the end marker and hold no other.
pub open spec fn ends_once(tokens: Seq<TokenView>) -> bool {
    &&& tokens.len() >= 1
    &&& tokens.last() is EOF
    &&& forall|i: int| 0 <= i < tokens.len() - 1 ==> !(#[trigger] tokens[i] is EOF)
}

/// No text holds the end marker: it stands for the end of the text.
pub proof fn lemma_scan_no_end_marker(s: Seq<char>, pos: int)
    ensures
        scan(s, pos) matches Scan::Token { token, next } ==> !(token is EOF),
{
}

/// The tokens of a text end with the end marker, and it occurs nowhere
/// else among them.
pub proof fn law_lex_ends_once(s: Seq<char>, pos: int)
    ensures
        lex_from(s, pos) matches Ok(tokens) ==> ends_once(tokens),
    decreases s.len() - pos,
{
    if 0 <= pos <= s.len() {
        if let Scan::Token { token, next } = scan(s, pos) {
            lemma_scan_advances(s, pos);
            lemma_scan_no_end_marker(s, pos);
            law_lex_ends_once(s, next);
            if let Ok(rest) = lex_from(s, next) {
                let tokens = seq![token] + rest;
                assert(tokens.last() == rest.last());
                assert forall|i: int| 0 <= i < tokens.len() - 1 implies !(
                #[trigger] tokens[i] is EOF) by {
                    if i > 0 {
                        assert(tokens[i] == rest[i - 1]);
                    }
                }
            }
        }
    }
}

/// The result `r` with the tokens `prefix` before it.
pub open spec fn after(prefix: Seq<TokenView>, r: Result<Seq<TokenView>, LexFault>) -> Result<
    Seq<TokenView>,
    LexFault,
> {
    match r {
        Ok(rest) => Ok(prefix + rest),
        Err(fault) => Err(fault),
    }
}

/// Whether a lexer that returned `r` and stopped at `position` found what
/// `expected` says.
pub open spec fn found(r: Result<Token, LexFault>, position: int, expected: Scan) -> bool {
    match expected {
        Scan::Token { token, next } => r matches Ok(t) && t@ == token && position == next,
        Scan::Fault(fault) => r == Err::<Token, LexFault>(fault),
        Scan::End => false,
    }
}

/// The lexer: the characters of a text and a position in it.
pub struct Lexer {
    chars: Vec<char>,
    pos: usize,
}

impl Lexer {
    /// The text that is being read.
    pub closed spec fn text(&self) -> Seq<char> {
        self.chars@
    }

    /// How many characters have been read.
    pub closed spec fn position(&self) -> int {
        self.pos as int
    }

    /// The position lies within the text.
    pub closed spec fn wf(&self) -> bool {
        self.pos <= self.chars.len()
    }

    /// A lexer at the start of the empty text.
    pub fn new() -> (r: Lexer)
        ensures
            r.wf(),
            r.text() == Seq::<char>::empty(),
            r.position() == 0,
    {
        Lexer { chars: Vec::new(), pos: 0 }
    }

    /// Turns `input` into its tokens, in the order of the text, and ends
    /// them with `Token::EOF`. The first malformed token is the fault.
    pub fn lex(&mut self, input: &str) -> (r: Result<Vec<Token>, LexFault>)
        ensures
            final(self).wf(),
            final(self).text() == input@,
            match lex_spec(input@) {
                Ok(tokens) => r matches Ok(v) && token_views(v@) == tokens,
                Err(fault) => r == Err::<Vec<Token>, LexFault>(fault),
            },
            r matches Ok(v) ==> ends_once(token_views(v@)),
    {
        proof {
            law_lex_ends_once(input@, 0);
        }
        self.chars = chars_of(input);
        self.pos = 0;
        let mut tokens: Vec<Token> = Vec::new();
        assert(token_views(tokens@) + seq![TokenView::EOF] =~= seq![TokenView::EOF]);
        assert(lex_from(input@, 0) == after(token_views(tokens@), lex_from(input@, 0))) by {
            match lex_from(input@, 0) {
                Ok(rest) => {
                    assert(token_views(tokens@) + rest =~= rest);
                },
                Err(_) => {},
            }
        }
        loop
            invariant
                self.wf(),
                self.text() == input@,
                lex_from(input@, 0) matches Ok(all) ==> ends_once(all),
                lex_from(input@, 0) == after(
                    token_views(tokens@),
                    lex_from(input@, self.position()),
                ),
            decreases self.chars.len() - self.pos,
        {
            let ghost before = tokens@;
            let ghost pos = self.position();
            proof {
                lemma_scan_advances(input@, pos);
            }
            match self.next_token() {
                Err(fault) => {
                    return Err(fault);
                },
                Ok(None) => {
                    tokens.push(Token::EOF);
                    assert(token_views(tokens@) =~= token_views(before) + seq![TokenView::EOF]);
                    return Ok(tokens);
                },
                Ok(Some(token)) => {
                    tokens.push(token);
                    assert(token_views(tokens@) =~= token_views(before).push(token@));
                    proof {
                        match lex_from(input@, self.position()) {
                            Ok(rest) => {
                                assert(token_views(before) + (seq![token@] + rest) =~= token_views(
                                    tokens@,
                                ) + rest);
                            },
                            Err(_) => {},
                        }
                    }
                },
            }
        }
    }

    /// After an identifier: the next character, if there is one, must be
    /// white space, and is read.
    fn require_whitespace(&mut self) -> (r: Result<(), LexFault>)
        requires
            old(self).wf(),
        ensures
            final(self).wf(),
            final(self).text() == old(self).text(),
            ({
                let s = old(self).text();
                let end = old(self).position();
                if end < s.len() && !is_space(s[end]) {
                    &&& r == Err::<(), LexFault>(LexFault::ExpectedWhitespace { position: end as usize })
                    &&& final(self).position() == end
                } else {
                    &&& r is Ok
                    &&& final(self).position() == if end < s.len() {
                        end + 1
                    } else {
                        end
                    }
                }
            }),
    {
        if self.pos < self.chars.len() {
            if !space(self.chars[self.pos]) {
                return Err(LexFault::ExpectedWhitespace { position: self.pos });
            }
            self.pos = self.pos + 1;
        }
        Ok(())
    }

    /// The next token of the text, or `None` where only white space is left.
    fn next_token(&mut self) -> (r: Result<Option<Token>, LexFault>)
        requires
            old(self).wf(),
        ensures
            final(self).wf(),
            final(self).text() == old(self).text(),
            match scan(old(self).text(), old(self).position()) {
                Scan::End => r matches Ok(None),
                Scan::Token { token, next } => r matches Ok(Some(t)) && t@ == token && final(self).position() == next,
                Scan::Fault(fault) => r == Err::<Option<Token>, LexFault>(fault),
            },
    {
        while self.pos < self.chars.len() && space(self.chars[self.pos])
            invariant
                self.wf(),
                self.chars == old(self).chars,
                skip_spaces(self.chars@, old(self).pos as int) == skip_spaces(
                    self.chars@,
                    self.pos as int,
                ),
            decreases self.chars.len() - self.pos,
        {
            self.pos = self.pos + 1;
        }
        if self.pos >= self.chars.len() {
            return Ok(None);
        }
        let c = self.chars[self.pos];
        let found = if digit(c) {
            self.number(false)
        } else if alpha(c) {
            self.identifier()
        } else if c == '"' {
            self.string()
        } else if c == '>' {
            self.greater_than()
        } else if c == '<' {
            self.less_than()
        } else if c == '=' {
            self.equal()
        } else if c == '-' {
            self.sub()
        } else {
            let token = if c == '+' {
                Token::Add
            } else if c == '*' {
                Token::Mul
            } else if c == '/' {
                Token::Div
            } else if c == '.' {
                Token::Emit
            } else if c == ':' {
                Token::Colon
            } else if c == ';' {
                Token::SemiColon
            } else if c == '@' {
                Token::At
            } else {
                return Err(LexFault::UnknownCharacter { position: self.pos });
            };
            self.pos = self.pos + 1;
            Ok(token)
        };
        match found {
            Ok(token) => Ok(Some(token)),
            Err(fault) => Err(fault),
        }
    }

    /// Reads the digits of a number. Where `is_negative`, the `-` before
    /// them has just been read.
    fn number(&mut self, is_negative: bool) -> (r: Result<Token, LexFault>)
        requires
            old(self).wf(),
            is_negative ==> old(self).position() >= 1,
        ensures
            final(self).wf(),
            final(self).text() == old(self).text(),
            found(
                r,
                final(self).position(),
                scan_number(
                    old(self).text(),
                    if is_negative {
                        old(self).position() - 1
                    } else {
                        old(self).position()
                    },
                    old(self).position(),
                    is_negative,
                ),
            ),
    {
        let from = self.pos;
        let start = if is_negative {
            from - 1
        } else {
            from
        };
        let mut value: u64 = 0;
        let mut fits = true;
        while self.pos < self.chars.len() && digit(self.chars[self.pos])
            invariant
                self.wf(),
                from <= self.pos,
                self.chars == old(self).chars,
                digits_end(self.chars@, from as int) == digits_end(self.chars@, self.pos as int),
                fits ==> value == number_value(self.chars@, from as int, self.pos as int) && value
                    <= i32::MAX,
                !fits ==> number_value(self.chars@, from as int, self.pos as int) > i32::MAX,
                0 <= number_value(self.chars@, from as int, self.pos as int),
            decreases self.chars.len() - self.pos,
        {
            let d = (self.chars[self.pos] as u32 - 0x30) as u64;
            if fits {
                let next = value * 10 + d;
                if next > 0x7fff_ffff {
                    fits = false;
                } else {
                    value = next;
                }
            }
            self.pos = self.pos + 1;
        }
        if !fits {
            Err(LexFault::NumberOutOfRange { position: start })
        } else if is_negative {
            Ok(Token::Number(-(value as i32)))
        } else {
            Ok(Token::Number(value as i32))
        }
    }

    /// Reads a string literal, whose opening quote comes next.
    fn string(&mut self) -> (r: Result<Token, LexFault>)
        requires
            old(self).wf(),
            old(self).position() < old(self).text().len(),
        ensures
            final(self).wf(),
            final(self).text() == old(self).text(),
            found(r, final(self).position(), scan_string(old(self).text(), old(self).position())),
    {
        self.pos = self.pos + 1;
        let from = self.pos;
        let mut string = String::new();
        while self.pos < self.chars.len() && self.chars[self.pos] != '"'
            invariant
                self.wf(),
                from <= self.pos,
                self.chars == old(self).chars,
                quote_at(self.chars@, from as int) == quote_at(self.chars@, self.pos as int),
                string@ == self.chars@.subrange(from as int, self.pos as int),
            decreases self.chars.len() - self.pos,
        {
            string.push(self.chars[self.pos]);
            self.pos = self.pos + 1;
            assert(string@ =~= self.chars@.subrange(from as int, self.pos as int));
        }
        if self.pos < self.chars.len() {
            self.pos = self.pos + 1;
        }
        Ok(Token::StringLiteral(string))
    }

    /// Reads an identifier and the white space after it, and tells keywords
    /// and loop variables from free names.
    fn identifier(&mut self) -> (r: Result<Token, LexFault>)
        requires
            old(self).wf(),
        ensures
            final(self).wf(),
            final(self).text() == old(self).text(),
            found(r, final(self).position(), scan_word(old(self).text(), old(self).position())),
    {
        let from = self.pos;
        let mut identifier = String::new();
        while self.pos < self.chars.len() && word_char(self.chars[self.pos])
            invariant
                self.wf(),
                from <= self.pos,
                self.chars == old(self).chars,
                word_end(self.chars@, from as int) == word_end(self.chars@, self.pos as int),
                identifier@ == self.chars@.subrange(from as int, self.pos as int),
            decreases self.chars.len() - self.pos,
        {
            identifier.push(self.chars[self.pos]);
            self.pos = self.pos + 1;
            assert(identifier@ =~= self.chars@.subrange(from as int, self.pos as int));
        }
        match self.require_whitespace() {
            Ok(()) => {},
            Err(fault) => {
                return Err(fault);
            },
        }
        let token = if is_text(&identifier, "IF") {
            Token::If
        } else if is_text(&identifier, "ELSE") {
            Token::Else
        } else if is_text(&identifier, "THEN") {
            Token::Then
        } else if is_text(&identifier, "DUP") {
            Token::Dup
        } else if is_text(&identifier, "SWAP") {
            Token::Swap
        } else if is_text(&identifier, "DROP") {
            Token::Drop
        } else if is_text(&identifier, "DO") {
            Token::Do
        } else if is_text(&identifier, "LOOP") {
            Token::Loop
        } else if is_text(&identifier, "PUTS") {
            Token::Puts
        } else if is_text(&identifier, "I") {
            Token::LoopVariable(0)
        } else if is_text(&identifier, "J") {
            Token::LoopVariable(1)
        } else if is_text(&identifier, "K") {
            Token::LoopVariable(2)
        } else if is_text(&identifier, "L") {
            Token::LoopVariable(3)
        } else if is_text(&identifier, "M") {
            Token::LoopVariable(4)
        } else {
            Token::Identifier(identifier)
        };
        Ok(token)
    }

    /// Reads one of two tokens that start with the same character: `long`
    /// where `=` follows, else `short`.
    fn pair(&mut self, short: Token, long: Token) -> (r: Result<Token, LexFault>)
        requires
            old(self).wf(),
            old(self).position() < old(self).text().len(),
        ensures
            final(self).wf(),
            final(self).text() == old(self).text(),
            found(
                r,
                final(self).position(),
                scan_pair(old(self).text(), old(self).position(), short@, long@),
            ),
    {
        self.pos = self.pos + 1;
        if self.pos < self.chars.len() && self.chars[self.pos] == '=' {
            self.pos = self.pos + 1;
            Ok(long)
        } else {
            Ok(short)
        }
    }

    /// Reads `>` or `>=`.
    fn greater_than(&mut self) -> (r: Result<Token, LexFault>)
        requires
            old(self).wf(),
            old(self).position() < old(self).text().len(),
        ensures
            final(self).wf(),
            final(self).text() == old(self).text(),
            found(
                r,
                final(self).position(),
                scan_pair(old(self).text(), old(self).position(), TokenView::Gt, TokenView::Gte),
            ),
    {
        self.pair(Token::Gt, Token::Gte)
    }

    /// Reads `<` or `<=`.
    fn less_than(&mut self) -> (r: Result<Token, LexFault>)
        requires
            old(self).wf(),
            old(self).position() < old(self).text().len(),
        ensures
            final(self).wf(),
            final(self).text() == old(self).text(),
            found(
                r,
                final(self).position(),
                scan_pair(old(self).text(), old(self).position(), TokenView::Lt, TokenView::Lte),
            ),
    {
        self.pair(Token::Lt, Token::Lte)
    }

    /// Reads `=` or `==`.
    fn equal(&mut self) -> (r: Result<Token, LexFault>)
        requires
            old(self).wf(),
            old(self).position() < old(self).text().len(),
        ensures
            final(self).wf(),
            final(self).text() == old(self).text(),
            found(
                r,
                final(self).position(),
                scan_pair(
                    old(self).text(),
                    old(self).position(),
                    TokenView::Eq,
                    TokenView::DoubleEq,
                ),
            ),
    {
        self.pair(Token::Eq, Token::DoubleEq)
    }

    /// Reads what starts with `-`: `->`, a negative number, or `-` alone.
    fn sub(&mut self) -> (r: Result<Token, LexFault>)
        requires
            old(self).wf(),
            old(self).position() < old(self).text().len(),
        ensures
            final(self).wf(),
            final(self).text() == old(self).text(),
            found(r, final(self).position(), scan_minus(old(self).text(), old(self).position())),
    {
        self.pos = self.pos + 1;
        if self.pos < self.chars.len() {
            let c = self.chars[self.pos];
            if c == '>' {
                self.pos = self.pos + 1;
                return Ok(Token::Arrow);
            } else if digit(c) {
                return self.number(true);
            }
        }
        Ok(Token::Sub)
    }
}

} // verus!
