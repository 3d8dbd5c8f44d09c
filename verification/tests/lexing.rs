use stacky::lexer::{LexFault, Lexer, Token};

fn lex(input: &str) -> Result<Vec<Token>, LexFault> {
    Lexer::new().lex(input)
}

fn name(text: &str) -> Token {
    Token::Identifier(text.to_string())
}

#[test]
fn lex_empty_text() {
    assert_eq!(lex(""), Ok(vec![Token::EOF]));
    assert_eq!(lex("  \t\n "), Ok(vec![Token::EOF]));
}

#[test]
fn lex_simple_program() {
    assert_eq!(
        lex("1 2 + ."),
        Ok(vec![Token::Number(1), Token::Number(2), Token::Add, Token::Emit, Token::EOF])
    );
}

#[test]
fn lex_every_token() {
    let input = ": sq DUP * ; 3 sq . \"hi\" PUTS 1 2 < IF 1 ELSE 0 THEN 10 0 DO I . LOOP -> x @ x - -5 / > >= <= = == SWAP DROP";
    let expected = vec![
        Token::Colon,
        name("sq"),
        Token::Dup,
        Token::Mul,
        Token::SemiColon,
        Token::Number(3),
        name("sq"),
        Token::Emit,
        Token::StringLiteral("hi".to_string()),
        Token::Puts,
        Token::Number(1),
        Token::Number(2),
        Token::Lt,
        Token::If,
        Token::Number(1),
        Token::Else,
        Token::Number(0),
        Token::Then,
        Token::Number(10),
        Token::Number(0),
        Token::Do,
        Token::LoopVariable(0),
        Token::Emit,
        Token::Loop,
        Token::Arrow,
        name("x"),
        Token::At,
        name("x"),
        Token::Sub,
        Token::Number(-5),
        Token::Div,
        Token::Gt,
        Token::Gte,
        Token::Lte,
        Token::Eq,
        Token::DoubleEq,
        Token::Swap,
        Token::Drop,
        Token::EOF,
    ];
    assert_eq!(lex(input), Ok(expected));
}

#[test]
fn lex_loop_variables() {
    assert_eq!(
        lex("I J K L M N"),
        Ok(vec![
            Token::LoopVariable(0),
            Token::LoopVariable(1),
            Token::LoopVariable(2),
            Token::LoopVariable(3),
            Token::LoopVariable(4),
            name("N"),
            Token::EOF,
        ])
    );
}

#[test]
fn lex_keywords_are_case_sensitive() {
    assert_eq!(lex("if If IF"), Ok(vec![name("if"), name("If"), Token::If, Token::EOF]));
    assert_eq!(lex("IFS x_1y"), Ok(vec![name("IFS"), name("x_1y"), Token::EOF]));
}

#[test]
fn lex_minus() {
    assert_eq!(lex("-"), Ok(vec![Token::Sub, Token::EOF]));
    assert_eq!(lex("->"), Ok(vec![Token::Arrow, Token::EOF]));
    assert_eq!(lex("-1"), Ok(vec![Token::Number(-1), Token::EOF]));
    assert_eq!(lex("- 1"), Ok(vec![Token::Sub, Token::Number(1), Token::EOF]));
    assert_eq!(lex("1-2"), Ok(vec![Token::Number(1), Token::Number(-2), Token::EOF]));
    assert_eq!(lex("-x"), Ok(vec![Token::Sub, name("x"), Token::EOF]));
}

#[test]
fn lex_comparisons_look_one_ahead() {
    assert_eq!(lex(">"), Ok(vec![Token::Gt, Token::EOF]));
    assert_eq!(lex(">="), Ok(vec![Token::Gte, Token::EOF]));
    assert_eq!(lex("> ="), Ok(vec![Token::Gt, Token::Eq, Token::EOF]));
    assert_eq!(lex("<<="), Ok(vec![Token::Lt, Token::Lte, Token::EOF]));
    assert_eq!(lex("==="), Ok(vec![Token::DoubleEq, Token::Eq, Token::EOF]));
}

#[test]
fn lex_single_characters() {
    assert_eq!(
        lex("+*/.:;@"),
        Ok(vec![
            Token::Add,
            Token::Mul,
            Token::Div,
            Token::Emit,
            Token::Colon,
            Token::SemiColon,
            Token::At,
            Token::EOF,
        ])
    );
}

#[test]
fn lex_numbers() {
    assert_eq!(lex("007"), Ok(vec![Token::Number(7), Token::EOF]));
    assert_eq!(lex("000000000000000000000000000001"), Ok(vec![Token::Number(1), Token::EOF]));
    assert_eq!(lex("2147483647"), Ok(vec![Token::Number(2147483647), Token::EOF]));
    assert_eq!(lex("-2147483647"), Ok(vec![Token::Number(-2147483647), Token::EOF]));
    assert_eq!(lex("1x"), Ok(vec![Token::Number(1), name("x"), Token::EOF]));
}

#[test]
fn lex_number_out_of_range() {
    assert_eq!(lex("2147483648"), Err(LexFault::NumberOutOfRange { position: 0 }));
    assert_eq!(lex("1 -2147483648"), Err(LexFault::NumberOutOfRange { position: 2 }));
    assert_eq!(
        lex("99999999999999999999999999999999"),
        Err(LexFault::NumberOutOfRange { position: 0 })
    );
}

#[test]
fn lex_strings() {
    assert_eq!(
        lex("\"a b\"\"c\""),
        Ok(vec![
            Token::StringLiteral("a b".to_string()),
            Token::StringLiteral("c".to_string()),
            Token::EOF,
        ])
    );
    assert_eq!(lex("\"\""), Ok(vec![Token::StringLiteral(String::new()), Token::EOF]));
    assert_eq!(
        lex("\"back\\slash 1 +\""),
        Ok(vec![Token::StringLiteral("back\\slash 1 +".to_string()), Token::EOF])
    );
    assert_eq!(
        lex("\"gr\u{fc}\u{df}e\""),
        Ok(vec![Token::StringLiteral("gr\u{fc}\u{df}e".to_string()), Token::EOF])
    );
}

#[test]
fn lex_unterminated_string_runs_to_the_end() {
    assert_eq!(lex("\"abc 1 2"), Ok(vec![Token::StringLiteral("abc 1 2".to_string()), Token::EOF]));
    assert_eq!(lex("\""), Ok(vec![Token::StringLiteral(String::new()), Token::EOF]));
}

#[test]
fn lex_identifier_needs_white_space_after_it() {
    assert_eq!(lex("DUP+"), Err(LexFault::ExpectedWhitespace { position: 3 }));
    assert_eq!(lex("1 Test;"), Err(LexFault::ExpectedWhitespace { position: 6 }));
    assert_eq!(lex(":Test 1"), Ok(vec![Token::Colon, name("Test"), Token::Number(1), Token::EOF]));
    assert_eq!(lex("Test"), Ok(vec![name("Test"), Token::EOF]));
}

#[test]
fn lex_unknown_character() {
    assert_eq!(lex("1 $ 2"), Err(LexFault::UnknownCharacter { position: 2 }));
    assert_eq!(lex("_x"), Err(LexFault::UnknownCharacter { position: 0 }));
    assert_eq!(lex("\u{e9}"), Err(LexFault::UnknownCharacter { position: 0 }));
    assert_eq!(lex("1 \u{b2}"), Err(LexFault::UnknownCharacter { position: 2 }));
}

#[test]
fn lex_skips_unicode_white_space() {
    assert_eq!(
        lex("\u{a0}1\u{2003}2\u{3000}+\u{85}"),
        Ok(vec![Token::Number(1), Token::Number(2), Token::Add, Token::EOF])
    );
    assert_eq!(lex("x\u{2028}y"), Ok(vec![name("x"), name("y"), Token::EOF]));
}

#[test]
fn lex_positions_count_characters() {
    assert_eq!(lex("\"\u{e9}\u{e9}\" $"), Err(LexFault::UnknownCharacter { position: 5 }));
}

#[test]
fn lex_twice_with_one_lexer() {
    let mut lexer = Lexer::new();
    assert_eq!(lexer.lex("1 2"), Ok(vec![Token::Number(1), Token::Number(2), Token::EOF]));
    assert_eq!(lexer.lex("+"), Ok(vec![Token::Add, Token::EOF]));
}

#[test]
fn lex_reads_back_what_is_spelled() {
    let tokens = vec![
        Token::Colon,
        name("square_2"),
        Token::Dup,
        Token::Mul,
        Token::SemiColon,
        Token::Number(-2147483647),
        Token::Number(0),
        Token::StringLiteral("a - b: c".to_string()),
        Token::StringLiteral(String::new()),
        Token::Puts,
        Token::If,
        Token::Else,
        Token::Then,
        Token::Do,
        Token::LoopVariable(0),
        Token::LoopVariable(4),
        Token::Loop,
        Token::Arrow,
        name("x"),
        Token::At,
        name("x"),
        Token::Add,
        Token::Sub,
        Token::Div,
        Token::Emit,
        Token::Lt,
        Token::Gt,
        Token::Lte,
        Token::Gte,
        Token::Eq,
        Token::DoubleEq,
        Token::Swap,
        Token::Drop,
    ];
    let mut text = String::new();
    for token in &tokens {
        text.push_str(&token.spelling());
        text.push(' ');
    }
    let mut expected = tokens;
    expected.push(Token::EOF);
    assert_eq!(lex(&text), Ok(expected));
}
