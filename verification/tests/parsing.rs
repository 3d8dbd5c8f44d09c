use stacky::lexer::{Lexer, Token};
use stacky::parser::{is_keyword, Ast, ParseFault, Parser};

fn parse(tokens: &[Token]) -> Result<Ast, ParseFault> {
    Parser::new().parse(tokens)
}

fn parse_text(input: &str) -> Result<Ast, ParseFault> {
    let tokens = Lexer::new().lex(input).unwrap();
    Parser::new().parse(&tokens)
}

fn name(text: &str) -> Token {
    Token::Identifier(text.to_string())
}

fn op(token: Token) -> Ast {
    Ast::Operation(token)
}

#[test]
fn parse_empty_program() {
    assert_eq!(parse(&[Token::EOF]), Ok(Ast::Expressions(vec![])));
}

#[test]
fn parse_flat_program() {
    assert_eq!(
        parse_text("1 \"a\" + Test K"),
        Ok(Ast::Expressions(vec![
            Ast::Number(1),
            Ast::StringLiteral("a".to_string()),
            op(Token::Add),
            Ast::FunctionCall("Test".to_string()),
            Ast::LoopVariable(2),
        ]))
    );
}

#[test]
fn parse_every_operation() {
    let operations = vec![
        Token::Add,
        Token::Sub,
        Token::Mul,
        Token::Div,
        Token::Emit,
        Token::Dup,
        Token::Swap,
        Token::Drop,
        Token::Puts,
        Token::Lt,
        Token::Gt,
        Token::Lte,
        Token::Gte,
        Token::Eq,
        Token::DoubleEq,
    ];
    let mut tokens = operations.clone();
    tokens.push(Token::EOF);
    let expected: Vec<Ast> = operations.into_iter().map(Ast::Operation).collect();
    assert_eq!(parse(&tokens), Ok(Ast::Expressions(expected)));
}

#[test]
fn parse_word_definition() {
    assert_eq!(
        parse_text(": Test 1 2 + . ; Test"),
        Ok(Ast::Expressions(vec![
            Ast::WordDefinition {
                name: "Test".to_string(),
                body: vec![Ast::Number(1), Ast::Number(2), op(Token::Add), op(Token::Emit)],
            },
            Ast::FunctionCall("Test".to_string()),
        ]))
    );
}

#[test]
fn parse_conditional_with_else() {
    assert_eq!(
        parse_text("IF 1 . ELSE 2 THEN 3"),
        Ok(Ast::Expressions(vec![
            Ast::If {
                if_body: vec![Ast::Number(1), op(Token::Emit)],
                else_body: vec![Ast::Number(2)],
            },
            Ast::Number(3),
        ]))
    );
}

#[test]
fn parse_conditional_without_else() {
    assert_eq!(
        parse_text("IF 1 THEN"),
        Ok(Ast::Expressions(vec![Ast::If { if_body: vec![Ast::Number(1)], else_body: vec![] }]))
    );
    assert_eq!(
        parse_text("IF THEN"),
        Ok(Ast::Expressions(vec![Ast::If { if_body: vec![], else_body: vec![] }]))
    );
}

#[test]
fn parse_loop() {
    assert_eq!(
        parse_text("10 0 DO I . LOOP"),
        Ok(Ast::Expressions(vec![
            Ast::Number(10),
            Ast::Number(0),
            Ast::Loop { body: vec![Ast::LoopVariable(0), op(Token::Emit)] },
        ]))
    );
}

#[test]
fn parse_variables() {
    assert_eq!(
        parse_text("5 -> x @ x"),
        Ok(Ast::Expressions(vec![
            Ast::Number(5),
            Ast::SetVariable("x".to_string()),
            Ast::GetVariable("x".to_string()),
        ]))
    );
}

#[test]
fn parse_nested_structures() {
    assert_eq!(
        parse_text(": f DO IF : g 1 ; ELSE DO LOOP THEN LOOP ;"),
        Ok(Ast::Expressions(vec![Ast::WordDefinition {
            name: "f".to_string(),
            body: vec![Ast::Loop {
                body: vec![Ast::If {
                    if_body: vec![Ast::WordDefinition {
                        name: "g".to_string(),
                        body: vec![Ast::Number(1)],
                    }],
                    else_body: vec![Ast::Loop { body: vec![] }],
                }],
            }],
        }]))
    );
}

#[test]
fn parse_ignores_what_follows_the_end_marker() {
    assert_eq!(
        parse(&[Token::Number(1), Token::EOF, Token::SemiColon]),
        Ok(Ast::Expressions(vec![Ast::Number(1)]))
    );
}

#[test]
fn parse_missing_identifier_after_colon() {
    assert_eq!(parse_text(": 1 2 + ;"), Err(ParseFault::ExpectedIdentifier { position: 1 }));
    assert_eq!(parse_text("1 : IF"), Err(ParseFault::ExpectedIdentifier { position: 2 }));
    assert_eq!(parse(&[Token::Colon]), Err(ParseFault::ExpectedIdentifier { position: 1 }));
}

#[test]
fn parse_reserved_word_as_name() {
    assert_eq!(
        parse(&[Token::Colon, name("IF"), Token::SemiColon, Token::EOF]),
        Err(ParseFault::ReservedWord { position: 1 })
    );
    assert_eq!(
        parse(&[Token::Number(1), Token::Colon, name("J"), Token::SemiColon, Token::EOF]),
        Err(ParseFault::ReservedWord { position: 2 })
    );
    assert_eq!(
        parse(&[Token::Colon, name("IFS"), Token::SemiColon, Token::EOF]),
        Ok(Ast::Expressions(vec![Ast::WordDefinition { name: "IFS".to_string(), body: vec![] }]))
    );
}

#[test]
fn keywords_are_reserved() {
    for word in ["IF", "ELSE", "THEN", "DUP", "SWAP", "DROP", "DO", "LOOP", "PUTS"] {
        assert!(is_keyword(&word.to_string()));
    }
    for word in ["I", "J", "K", "L", "M"] {
        assert!(is_keyword(&word.to_string()));
    }
    for word in ["", "N", "if", "IFF", "Test", "LOOPS"] {
        assert!(!is_keyword(&word.to_string()));
    }
}

#[test]
fn parse_missing_identifier_after_arrow_or_at() {
    assert_eq!(parse_text("1 -> 2"), Err(ParseFault::ExpectedIdentifier { position: 2 }));
    assert_eq!(parse_text("@ DUP"), Err(ParseFault::ExpectedIdentifier { position: 1 }));
    assert_eq!(parse_text("->"), Err(ParseFault::ExpectedIdentifier { position: 1 }));
    assert_eq!(parse(&[Token::At]), Err(ParseFault::ExpectedIdentifier { position: 1 }));
}

#[test]
fn parse_stray_delimiters() {
    assert_eq!(parse_text(";"), Err(ParseFault::UnexpectedToken { position: 0 }));
    assert_eq!(parse_text("1 ELSE"), Err(ParseFault::UnexpectedToken { position: 1 }));
    assert_eq!(parse_text("1 2 THEN"), Err(ParseFault::UnexpectedToken { position: 2 }));
    assert_eq!(parse_text("LOOP"), Err(ParseFault::UnexpectedToken { position: 0 }));
    assert_eq!(parse_text("IF ELSE ELSE THEN"), Err(ParseFault::UnexpectedToken { position: 2 }));
    assert_eq!(parse_text("DO ; LOOP"), Err(ParseFault::UnexpectedToken { position: 1 }));
    assert_eq!(parse_text(": f THEN ;"), Err(ParseFault::UnexpectedToken { position: 2 }));
}

#[test]
fn parse_unclosed_structures() {
    assert_eq!(parse_text(": f 1"), Err(ParseFault::UnexpectedEnd { position: 3 }));
    assert_eq!(parse_text("IF 1 ELSE 2"), Err(ParseFault::UnexpectedEnd { position: 4 }));
    assert_eq!(parse_text("DO"), Err(ParseFault::UnexpectedEnd { position: 1 }));
}

#[test]
fn parse_without_end_marker() {
    assert_eq!(parse(&[]), Err(ParseFault::UnexpectedEnd { position: 0 }));
    assert_eq!(parse(&[Token::Number(1)]), Err(ParseFault::UnexpectedEnd { position: 1 }));
    assert_eq!(
        parse(&[Token::If, Token::Then]),
        Err(ParseFault::UnexpectedEnd { position: 2 })
    );
}

#[test]
fn parse_twice_with_one_parser() {
    let first = [Token::Number(1), Token::Number(2), Token::EOF];
    let second = [Token::Add, Token::EOF];
    let mut parser = Parser::new();
    assert_eq!(parser.parse(&first), Ok(Ast::Expressions(vec![Ast::Number(1), Ast::Number(2)])));
    assert_eq!(parser.parse(&second), Ok(Ast::Expressions(vec![op(Token::Add)])));
}

#[test]
fn comparisons_are_conditional() {
    let mut parser = Parser::new();
    for token in [Token::Gt, Token::Gte, Token::Lt, Token::Lte, Token::Eq] {
        assert!(parser._is_conditional(token));
    }
    for token in [Token::DoubleEq, Token::Add, Token::If, Token::Number(1)] {
        assert!(!parser._is_conditional(token));
    }
}

#[test]
fn copy_of_a_tree_is_equal() {
    let tree = parse_text(": f DO IF \"a\" ELSE -> x THEN LOOP ; f @ x I +").unwrap();
    assert_eq!(tree.clone(), tree);
}
