use stacky::interpreter::{Interpreter, DEFAULT_CALL_DEPTH};
use stacky::lexer::{LexFault, Lexer, Token};
use stacky::parser::{Ast, ParseFault, Parser};
use stacky::stack_machine::RuntimeFault;
use stacky::stacky::{Fault, Stacky};

fn run(input: &str) -> (Result<(), Fault>, String) {
    let mut stacky = Stacky::new();
    let mut output: Vec<u8> = Vec::new();
    let r = stacky.evaluate(input, &mut output);
    (r, String::from_utf8(output).unwrap())
}

fn writes(input: &str) -> String {
    let (r, output) = run(input);
    assert_eq!(r, Ok(()));
    output
}

fn fault(input: &str) -> RuntimeFault {
    match run(input).0 {
        Err(Fault::Runtime(f)) => f,
        other => panic!("no runtime fault: {:?}", other),
    }
}

fn word(name: &str) -> String {
    name.to_string()
}

#[test]
fn addition_of_any_two_numbers() {
    assert_eq!(writes("0 0 + ."), "0");
    assert_eq!(writes("-5 3 + ."), "-2");
    assert_eq!(writes("2147483646 1 + ."), "2147483647");
    assert_eq!(writes("-2147483647 -1 + ."), "-2147483648");
    assert_eq!(writes("123456 654321 + ."), "777777");
}

#[test]
fn subtraction_is_first_minus_second() {
    assert_eq!(writes("10 3 - ."), "7");
    assert_eq!(writes("3 10 - ."), "-7");
    assert_eq!(writes("-2147483647 1 - ."), "-2147483648");
}

#[test]
fn multiplication_and_division() {
    assert_eq!(writes("-4 5 * ."), "-20");
    assert_eq!(writes("46340 46340 * ."), "2147395600");
    assert_eq!(writes("-7 2 / ."), "-3");
    assert_eq!(writes("7 -2 / ."), "-3");
    assert_eq!(writes("1 2 / ."), "0");
}

#[test]
fn division_by_zero_aborts_the_run() {
    assert_eq!(run("1 0 / ."), (Err(Fault::Runtime(RuntimeFault::DivisionByZero)), String::new()));
    assert_eq!(fault("0 0 /"), RuntimeFault::DivisionByZero);
}

#[test]
fn overflow_aborts_the_run() {
    assert_eq!(fault("2147483647 1 + ."), RuntimeFault::Overflow(Token::Add));
    assert_eq!(fault("-2147483647 2 - ."), RuntimeFault::Overflow(Token::Sub));
    assert_eq!(fault("65536 65536 * ."), RuntimeFault::Overflow(Token::Mul));
    assert_eq!(fault("-2147483647 1 - -1 / ."), RuntimeFault::Overflow(Token::Div));
}

#[test]
fn comparisons_of_any_two_numbers() {
    assert_eq!(writes("-1 0 < ."), "1");
    assert_eq!(writes("0 -1 < ."), "0");
    assert_eq!(writes("-2147483647 2147483647 < ."), "1");
    assert_eq!(writes("2147483647 -2147483647 < ."), "0");
    assert_eq!(writes("-7 -7 <= ."), "1");
    assert_eq!(writes("-7 -7 >= ."), "1");
    assert_eq!(writes("5 5 = ."), "1");
    assert_eq!(writes("5 6 == ."), "0");
}

#[test]
fn swap_exchanges_the_top_two() {
    assert_eq!(writes("1 2 . ."), "21");
    assert_eq!(writes("1 2 SWAP . ."), "12");
    assert_eq!(writes("1 2 SWAP SWAP . ."), "21");
    assert_eq!(writes("7 3 SWAP - ."), "-4");
}

#[test]
fn variables() {
    assert_eq!(writes("5 -> x @ x ."), "5");
    assert_eq!(writes("5 -> x x x + ."), "10");
    assert_eq!(writes("5 -> x 6 -> x @ x ."), "6");
    assert_eq!(writes("1 -> a 2 -> b @ a @ b - ."), "-1");
}

#[test]
fn variable_faults() {
    assert_eq!(fault("@ y"), RuntimeFault::UndefinedWord(word("y")));
    assert_eq!(fault(": f 1 ; @ f"), RuntimeFault::NotAVariable(word("f")));
    assert_eq!(fault("-> x"), RuntimeFault::MissingValue(word("x")));
}

#[test]
fn words() {
    assert_eq!(writes(": sq DUP * ; 7 sq ."), "49");
    assert_eq!(writes(": f 1 . ; : g f f ; g g"), "1111");
    assert_eq!(writes(": f 1 . ; : f 2 . ; f"), "2");
    assert_eq!(writes(": f 1 . ; 5 -> f f ."), "5");
    assert_eq!(writes(": f : g 3 . ; ; f g"), "3");
}

#[test]
fn definitions_are_not_hoisted() {
    assert_eq!(fault("Test : Test 1 . ;"), RuntimeFault::UndefinedWord(word("Test")));
    assert_eq!(fault(": f : g 3 . ; ; g"), RuntimeFault::UndefinedWord(word("g")));
}

#[test]
fn a_word_sees_the_definitions_at_the_time_of_the_call() {
    assert_eq!(writes(": f g ; : g 1 . ; f"), "1");
    assert_eq!(writes(": g 1 . ; : f g ; : g 2 . ; f"), "2");
}

#[test]
fn conditionals() {
    assert_eq!(writes("1 IF 1 . ELSE 0 . THEN"), "1");
    assert_eq!(writes("0 IF 1 . ELSE 0 . THEN"), "0");
    assert_eq!(writes("2 IF 1 . ELSE 0 . THEN"), "0");
    assert_eq!(writes("-1 IF 1 . ELSE 0 . THEN"), "0");
    assert_eq!(writes("0 IF 1 . THEN 5 ."), "5");
    assert_eq!(writes("1 1 IF IF 7 . THEN THEN"), "7");
    assert_eq!(writes("3 4 < IF 3 ELSE 4 THEN ."), "3");
}

#[test]
fn conditional_faults() {
    assert_eq!(fault("IF 1 THEN"), RuntimeFault::BadCondition);
    let mut interpreter = Interpreter::new();
    let mut output: Vec<u8> = Vec::new();
    let program = Ast::Expressions(vec![
        Ast::Number(1),
        Ast::Number(2),
        Ast::Operation(Token::Dup),
        Ast::If { if_body: vec![], else_body: vec![] },
        Ast::Operation(Token::Emit),
    ]);
    assert_eq!(interpreter.run(&program, &mut output), Ok(()));
    assert_eq!(output, b"2");
}

#[test]
fn loops_count_from_start_below_limit() {
    assert_eq!(writes("3 0 DO I . LOOP"), "012");
    assert_eq!(writes("1 -2 DO I . LOOP"), "-2-10");
    assert_eq!(writes("5 5 DO I . LOOP"), "");
    assert_eq!(writes("0 5 DO I . LOOP"), "");
    assert_eq!(writes("2147483647 2147483645 DO I . LOOP"), "21474836452147483646");
    assert_eq!(writes("9 3 0 DO LOOP ."), "9");
}

#[test]
fn nested_loops() {
    assert_eq!(writes("2 0 DO 2 0 DO J . I . LOOP LOOP"), "00011011");
    assert_eq!(writes("2 1 DO 3 2 DO 4 3 DO 5 4 DO 6 5 DO M . L . K . J . I . LOOP LOOP LOOP LOOP LOOP"), "12345");
    assert_eq!(writes(": inner 2 0 DO J . LOOP ; 2 0 DO inner LOOP"), "0011");
    assert_eq!(writes("2 0 DO I . LOOP 2 0 DO I . LOOP"), "0101");
}

#[test]
fn loop_faults() {
    assert_eq!(fault("DO LOOP"), RuntimeFault::BadLoopBounds);
    assert_eq!(fault("1 DO LOOP"), RuntimeFault::BadLoopBounds);
    assert_eq!(fault("I"), RuntimeFault::NoLoopCounter(0));
    assert_eq!(fault("1 0 DO J LOOP"), RuntimeFault::NoLoopCounter(1));
    assert_eq!(fault("1 0 DO LOOP I"), RuntimeFault::NoLoopCounter(0));
    assert_eq!(
        fault("1 0 DO 1 0 DO 1 0 DO 1 0 DO 1 0 DO 1 0 DO LOOP LOOP LOOP LOOP LOOP LOOP"),
        RuntimeFault::LoopNestingTooDeep
    );
    assert_eq!(
        writes("1 0 DO 1 0 DO 1 0 DO 1 0 DO 1 0 DO 8 . LOOP LOOP LOOP LOOP LOOP"),
        "8"
    );
}

#[test]
fn loop_variable_of_a_depth_that_has_no_name() {
    let mut interpreter = Interpreter::new();
    let mut output: Vec<u8> = Vec::new();
    let program = Ast::Expressions(vec![Ast::LoopVariable(200)]);
    assert_eq!(interpreter.run(&program, &mut output), Err(RuntimeFault::NoLoopCounter(200)));
}

#[test]
fn string_literals_push_codes_and_length() {
    assert_eq!(writes("\"AB\" . . ."), "26665");
    assert_eq!(writes("\"\" ."), "0");
    assert_eq!(writes("\"Hello, world\" PUTS"), "Hello, world");
    assert_eq!(writes("\"ab\" DROP \"c\" DROP + \"\" DROP ."), "197");
    assert_eq!(writes("\"gr\u{fc}n\" PUTS"), "gr\u{fc}n");
    assert_eq!(writes("\"\u{20ac}\" DROP ."), "8364");
}

#[test]
fn calls_nest_to_a_depth() {
    assert_eq!(fault(": F F ; F"), RuntimeFault::CallDepthExceeded);
    assert_eq!(fault(": F G ; : G F ; 1 . F"), RuntimeFault::CallDepthExceeded);
    assert_eq!(DEFAULT_CALL_DEPTH, 1024);
}

#[test]
fn words_may_call_themselves() {
    let program = ": down DUP . 1 - DUP 0 > IF down THEN ; 5 down";
    assert_eq!(writes(program), "54321");
    let deep = ": down 1 - DUP 0 > IF down THEN ; 1000 down .";
    assert_eq!(writes(deep), "0");
    let too_deep = ": down 1 - DUP 0 > IF down THEN ; 1025 down .";
    assert_eq!(fault(too_deep), RuntimeFault::CallDepthExceeded);
}

#[test]
fn call_depth_can_be_chosen() {
    let tokens = Lexer::new().lex(": f 1 . ; : g f ; g").unwrap();
    let program = Parser::new().parse(&tokens).unwrap();
    let mut output: Vec<u8> = Vec::new();
    let mut shallow = Interpreter::new().with_call_depth(1);
    assert_eq!(shallow.run(&program, &mut output), Err(RuntimeFault::CallDepthExceeded));
    assert!(output.is_empty());
    let mut deeper = Interpreter::new().with_call_depth(2);
    assert_eq!(deeper.run(&program, &mut output), Ok(()));
    assert_eq!(output, b"1");
    let mut none = Interpreter::new().with_call_depth(0);
    assert_eq!(none.run(&Ast::Expressions(vec![Ast::Number(1)]), &mut output), Ok(()));
}

#[test]
fn output_before_a_fault_remains() {
    assert_eq!(
        run("1 . 2 . +"),
        (Err(Fault::Runtime(RuntimeFault::StackUnderflow(Token::Add))), "12".to_string())
    );
    assert_eq!(
        run("3 0 DO I . I 1 = IF nothing THEN LOOP"),
        (Err(Fault::Runtime(RuntimeFault::UndefinedWord(word("nothing")))), "01".to_string())
    );
}

#[test]
fn output_is_appended() {
    let mut stacky = Stacky::new();
    let mut output: Vec<u8> = b"> ".to_vec();
    assert_eq!(stacky.evaluate("1 .", &mut output), Ok(()));
    assert_eq!(stacky.evaluate("\"xy\" PUTS", &mut output), Ok(()));
    assert_eq!(output, b"> 1xy");
}

#[test]
fn the_stack_outlives_a_run_and_the_definitions_do_not() {
    let mut stacky = Stacky::new();
    let mut output: Vec<u8> = Vec::new();
    assert_eq!(stacky.evaluate(": f 1 . ; 7 -> x 8", &mut output), Ok(()));
    assert_eq!(stacky.evaluate(".", &mut output), Ok(()));
    assert_eq!(output, b"8");
    assert_eq!(
        stacky.evaluate("f", &mut output),
        Err(Fault::Runtime(RuntimeFault::UndefinedWord(word("f"))))
    );
    assert_eq!(
        stacky.evaluate("@ x", &mut output),
        Err(Fault::Runtime(RuntimeFault::UndefinedWord(word("x"))))
    );
}

#[test]
fn operations_that_the_machine_does_not_have() {
    let mut interpreter = Interpreter::new();
    let mut output: Vec<u8> = Vec::new();
    let program = Ast::Expressions(vec![Ast::Number(1), Ast::Operation(Token::If)]);
    assert_eq!(
        interpreter.run(&program, &mut output),
        Err(RuntimeFault::NotExecutable(Token::If))
    );
}

#[test]
fn nodes_other_than_a_list_can_be_run() {
    let mut interpreter = Interpreter::new();
    let mut output: Vec<u8> = Vec::new();
    assert_eq!(interpreter.run(&Ast::Number(41), &mut output), Ok(()));
    assert_eq!(interpreter.run(&Ast::Number(1), &mut output), Ok(()));
    assert_eq!(interpreter.run(&Ast::Operation(Token::Add), &mut output), Ok(()));
    assert_eq!(interpreter.run(&Ast::Operation(Token::Emit), &mut output), Ok(()));
    assert_eq!(output, b"42");
}

#[test]
fn evaluate_reports_each_kind_of_fault() {
    assert_eq!(run("1 $").0, Err(Fault::Lex(LexFault::UnknownCharacter { position: 2 })));
    assert_eq!(run("1 . ;"), (Err(Fault::Parse(ParseFault::UnexpectedToken { position: 2 })), String::new()));
    assert_eq!(run("1 . +"), (Err(Fault::Runtime(RuntimeFault::StackUnderflow(Token::Add))), "1".to_string()));
    assert_eq!(run(""), (Ok(()), String::new()));
}

#[test]
fn a_longer_program() {
    let program = ": fizz 3 0 DO I 3 * . LOOP ; : twice DUP + ; fizz 21 twice . \"!\" PUTS";
    assert_eq!(writes(program), "03642!");
}
