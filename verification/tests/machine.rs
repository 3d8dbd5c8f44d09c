use stacky::lexer::Token;
use stacky::parser::Ast;
use stacky::stack_machine::{Entity, LoopFrame, RuntimeFault, StackMachine, MAX_LOOP_DEPTH};

fn machine(values: Vec<Entity>) -> StackMachine {
    let mut m = StackMachine::new();
    for v in values {
        m.push(v);
    }
    m
}

fn numbers(values: &[i32]) -> StackMachine {
    machine(values.iter().map(|n| Entity::Number(*n)).collect())
}

fn text(s: &str) -> Entity {
    Entity::String(s.to_string())
}

fn drain(m: &mut StackMachine) -> Vec<Entity> {
    let mut values = Vec::new();
    while let Some(v) = m.pop() {
        values.push(v);
    }
    values.reverse();
    values
}

fn apply(values: &[i32], op: Token) -> (Result<(), RuntimeFault>, Vec<Entity>, String) {
    let mut m = numbers(values);
    let mut output: Vec<u8> = Vec::new();
    let r = m.execute(&op, &mut output);
    (r, drain(&mut m), String::from_utf8(output).unwrap())
}

fn result_of(a: i32, b: i32, op: Token) -> i32 {
    let (r, stack, output) = apply(&[a, b], op);
    assert_eq!(r, Ok(()));
    assert_eq!(output, "");
    assert_eq!(stack.len(), 1);
    match &stack[0] {
        Entity::Number(n) => *n,
        other => panic!("no number: {:?}", other),
    }
}

#[test]
fn machine_push_and_pop() {
    let mut m = StackMachine::new();
    assert_eq!(m.len(), 0);
    assert_eq!(m.pop(), None);
    m.push(Entity::Number(1));
    m.push(text("a"));
    assert_eq!(m.len(), 2);
    assert_eq!(m.pop(), Some(text("a")));
    assert_eq!(m.pop(), Some(Entity::Number(1)));
    assert_eq!(m.pop(), None);
}

#[test]
fn machine_get_counts_from_the_bottom() {
    let mut m = numbers(&[10, 20, 30]);
    assert_eq!(m._get(0), Some(Entity::Number(10)));
    assert_eq!(m._get(2), Some(Entity::Number(30)));
    assert_eq!(m._get(3), None);
    assert_eq!(m.len(), 3);
}

#[test]
fn machine_number_at_counts_from_the_top() {
    let m = machine(vec![Entity::Number(10), text("a"), Entity::Number(30)]);
    assert_eq!(m.number_at(0), Some(30));
    assert_eq!(m.number_at(1), None);
    assert_eq!(m.number_at(2), Some(10));
    assert_eq!(m.number_at(3), None);
}

#[test]
fn arithmetic_takes_the_first_pushed_as_left_operand() {
    assert_eq!(result_of(1, 2, Token::Add), 3);
    assert_eq!(result_of(1, 2, Token::Sub), -1);
    assert_eq!(result_of(3, 2, Token::Mul), 6);
    assert_eq!(result_of(4, 2, Token::Div), 2);
    assert_eq!(result_of(2, 4, Token::Div), 0);
}

#[test]
fn division_rounds_toward_zero() {
    assert_eq!(result_of(7, 2, Token::Div), 3);
    assert_eq!(result_of(-7, 2, Token::Div), -3);
    assert_eq!(result_of(7, -2, Token::Div), -3);
    assert_eq!(result_of(-7, -2, Token::Div), 3);
    assert_eq!(result_of(i32::MIN, 1, Token::Div), i32::MIN);
    assert_eq!(result_of(i32::MIN, i32::MAX, Token::Div), -1);
    assert_eq!(result_of(0, -5, Token::Div), 0);
}

#[test]
fn division_by_zero_is_a_fault() {
    let (r, stack, output) = apply(&[1, 0], Token::Div);
    assert_eq!(r, Err(RuntimeFault::DivisionByZero));
    assert_eq!(stack, vec![Entity::Number(1), Entity::Number(0)]);
    assert_eq!(output, "");
    assert_eq!(apply(&[0, 0], Token::Div).0, Err(RuntimeFault::DivisionByZero));
    assert_eq!(result_of(0, 1, Token::Div), 0);
}

#[test]
fn arithmetic_at_the_limits() {
    assert_eq!(result_of(i32::MAX, 0, Token::Add), i32::MAX);
    assert_eq!(result_of(i32::MAX, i32::MIN, Token::Add), -1);
    assert_eq!(result_of(-1, i32::MAX, Token::Sub), i32::MIN);
    assert_eq!(result_of(i32::MIN, 1, Token::Mul), i32::MIN);
    assert_eq!(result_of(-46341, 46340, Token::Mul), -2147441940);
}

#[test]
fn overflow_is_a_fault() {
    let (r, stack, _) = apply(&[i32::MAX, 1], Token::Add);
    assert_eq!(r, Err(RuntimeFault::Overflow(Token::Add)));
    assert_eq!(stack, vec![Entity::Number(i32::MAX), Entity::Number(1)]);
    assert_eq!(apply(&[i32::MIN, 1], Token::Sub).0, Err(RuntimeFault::Overflow(Token::Sub)));
    assert_eq!(apply(&[65536, 32768], Token::Mul).0, Err(RuntimeFault::Overflow(Token::Mul)));
    assert_eq!(apply(&[i32::MIN, -1], Token::Mul).0, Err(RuntimeFault::Overflow(Token::Mul)));
    assert_eq!(apply(&[i32::MIN, -1], Token::Div).0, Err(RuntimeFault::Overflow(Token::Div)));
}

#[test]
fn orderings_give_one_or_zero() {
    assert_eq!(result_of(1, 2, Token::Lt), 1);
    assert_eq!(result_of(2, 1, Token::Lt), 0);
    assert_eq!(result_of(2, 2, Token::Lt), 0);
    assert_eq!(result_of(2, 2, Token::Lte), 1);
    assert_eq!(result_of(3, 2, Token::Lte), 0);
    assert_eq!(result_of(3, 2, Token::Gt), 1);
    assert_eq!(result_of(2, 3, Token::Gt), 0);
    assert_eq!(result_of(2, 2, Token::Gte), 1);
    assert_eq!(result_of(-3, 2, Token::Gte), 0);
    assert_eq!(result_of(i32::MIN, i32::MAX, Token::Lt), 1);
}

#[test]
fn binary_operations_need_two_operands() {
    for op in [
        Token::Add,
        Token::Sub,
        Token::Mul,
        Token::Div,
        Token::Lt,
        Token::Gt,
        Token::Lte,
        Token::Gte,
        Token::Swap,
    ] {
        let (r, stack, _) = apply(&[5], op.clone());
        assert_eq!(r, Err(RuntimeFault::StackUnderflow(op.clone())));
        assert_eq!(stack, vec![Entity::Number(5)]);
        assert_eq!(apply(&[], op.clone()).0, Err(RuntimeFault::StackUnderflow(op)));
    }
}

#[test]
fn binary_operations_leave_the_rest_of_the_stack() {
    let (r, stack, _) = apply(&[9, 8, 1, 2], Token::Add);
    assert_eq!(r, Ok(()));
    assert_eq!(stack, vec![Entity::Number(9), Entity::Number(8), Entity::Number(3)]);
}

#[test]
fn strings_are_joined_in_the_order_pushed() {
    let mut m = machine(vec![text("ab"), text("cd")]);
    let mut output: Vec<u8> = Vec::new();
    assert_eq!(m.execute(&Token::Add, &mut output), Ok(()));
    assert_eq!(drain(&mut m), vec![text("abcd")]);
    assert!(output.is_empty());
}

#[test]
fn operands_of_the_wrong_kind_are_a_fault() {
    let mut output: Vec<u8> = Vec::new();
    let mut m = machine(vec![Entity::Number(1), text("a")]);
    assert_eq!(
        m.execute(&Token::Add, &mut output),
        Err(RuntimeFault::TypeMismatch(Token::Add))
    );
    assert_eq!(drain(&mut m), vec![Entity::Number(1), text("a")]);
    let mut m = machine(vec![text("a"), text("b")]);
    assert_eq!(
        m.execute(&Token::Sub, &mut output),
        Err(RuntimeFault::TypeMismatch(Token::Sub))
    );
    assert_eq!(m.execute(&Token::Lt, &mut output), Err(RuntimeFault::TypeMismatch(Token::Lt)));
    let mut m = machine(vec![Entity::Pointer(1), Entity::Number(0)]);
    assert_eq!(
        m.execute(&Token::Div, &mut output),
        Err(RuntimeFault::TypeMismatch(Token::Div))
    );
    assert_eq!(m.len(), 2);
}

fn equal(a: Entity, b: Entity, op: Token) -> Entity {
    let mut m = machine(vec![a, b]);
    let mut output: Vec<u8> = Vec::new();
    assert_eq!(m.execute(&op, &mut output), Ok(()));
    assert_eq!(m.len(), 1);
    m.pop().unwrap()
}

#[test]
fn equality_of_values() {
    let one = Entity::Number(1);
    let zero = Entity::Number(0);
    for op in [Token::Eq, Token::DoubleEq] {
        assert_eq!(equal(Entity::Number(4), Entity::Number(4), op.clone()), one);
        assert_eq!(equal(Entity::Number(4), Entity::Number(5), op.clone()), zero);
        assert_eq!(equal(text("a"), text("a"), op.clone()), one);
        assert_eq!(equal(text("a"), text("b"), op.clone()), zero);
        assert_eq!(equal(Entity::Number(5), Entity::Pointer(5), op.clone()), one);
        assert_eq!(equal(Entity::Pointer(5), Entity::Number(5), op.clone()), one);
        assert_eq!(equal(Entity::Pointer(5), Entity::Number(6), op.clone()), zero);
        assert_eq!(equal(Entity::Number(-1), Entity::Pointer(u32::MAX), op.clone()), zero);
        assert_eq!(equal(Entity::Pointer(u32::MAX), Entity::Number(-1), op.clone()), zero);
        assert_eq!(equal(Entity::Pointer(5), Entity::Pointer(5), op.clone()), zero);
        assert_eq!(equal(text("1"), Entity::Number(1), op.clone()), zero);
        assert_eq!(
            equal(Entity::Function(Ast::Number(1)), Entity::Function(Ast::Number(1)), op.clone()),
            zero
        );
    }
}

#[test]
fn equality_with_missing_operands() {
    let (r, stack, _) = apply(&[], Token::Eq);
    assert_eq!(r, Ok(()));
    assert_eq!(stack, vec![Entity::Number(0)]);
    let (r, stack, _) = apply(&[7], Token::Eq);
    assert_eq!(r, Err(RuntimeFault::StackUnderflow(Token::Eq)));
    assert_eq!(stack, vec![Entity::Number(7)]);
    assert_eq!(apply(&[7], Token::DoubleEq).0, Err(RuntimeFault::StackUnderflow(Token::DoubleEq)));
}

fn emit(value: Entity) -> String {
    let mut m = machine(vec![Entity::Number(99), value]);
    let mut output: Vec<u8> = vec![b'>'];
    assert_eq!(m.execute(&Token::Emit, &mut output), Ok(()));
    assert_eq!(drain(&mut m), vec![Entity::Number(99)]);
    String::from_utf8(output).unwrap()
}

#[test]
fn emit_writes_numbers_in_decimal() {
    assert_eq!(emit(Entity::Number(0)), ">0");
    assert_eq!(emit(Entity::Number(7)), ">7");
    assert_eq!(emit(Entity::Number(10)), ">10");
    assert_eq!(emit(Entity::Number(-12)), ">-12");
    assert_eq!(emit(Entity::Number(1000000)), ">1000000");
    assert_eq!(emit(Entity::Number(i32::MAX)), ">2147483647");
    assert_eq!(emit(Entity::Number(i32::MIN)), ">-2147483648");
}

#[test]
fn emit_writes_text_as_it_is() {
    assert_eq!(emit(text("")), ">");
    assert_eq!(emit(text("a \"b\"")), ">a \"b\"");
    assert_eq!(emit(text("gr\u{fc}\u{df}e \u{20ac}")), ">gr\u{fc}\u{df}e \u{20ac}");
}

#[test]
fn emit_writes_addresses_in_upper_case_hexadecimal() {
    assert_eq!(emit(Entity::Pointer(0)), ">#0");
    assert_eq!(emit(Entity::Pointer(9)), ">#9");
    assert_eq!(emit(Entity::Pointer(10)), ">#A");
    assert_eq!(emit(Entity::Pointer(255)), ">#FF");
    assert_eq!(emit(Entity::Pointer(0x1000)), ">#1000");
    assert_eq!(emit(Entity::Pointer(0xdead_beef)), ">#DEADBEEF");
    assert_eq!(emit(Entity::Pointer(u32::MAX)), ">#FFFFFFFF");
}

#[test]
fn emit_writes_the_name_of_a_word() {
    let word = Ast::WordDefinition { name: "square".to_string(), body: vec![Ast::Number(1)] };
    assert_eq!(emit(Entity::Function(word)), ">FUNC: square");
}

#[test]
fn emit_faults() {
    let mut output: Vec<u8> = Vec::new();
    let mut m = StackMachine::new();
    assert_eq!(
        m.execute(&Token::Emit, &mut output),
        Err(RuntimeFault::StackUnderflow(Token::Emit))
    );
    let mut m = machine(vec![Entity::Function(Ast::Number(1))]);
    assert_eq!(m.execute(&Token::Emit, &mut output), Err(RuntimeFault::Unprintable));
    assert_eq!(m.len(), 1);
    assert!(output.is_empty());
}

#[test]
fn puts_writes_codes_in_the_order_pushed() {
    let (r, stack, output) = apply(&[5, 72, 105, 33, 3], Token::Puts);
    assert_eq!(r, Ok(()));
    assert_eq!(stack, vec![Entity::Number(5)]);
    assert_eq!(output, "Hi!");
}

#[test]
fn puts_of_nothing() {
    let (r, stack, output) = apply(&[5, 0], Token::Puts);
    assert_eq!((r, output.as_str()), (Ok(()), ""));
    assert_eq!(stack, vec![Entity::Number(5)]);
    let (r, stack, output) = apply(&[5, -3], Token::Puts);
    assert_eq!((r, output.as_str()), (Ok(()), ""));
    assert_eq!(stack, vec![Entity::Number(5)]);
}

#[test]
fn puts_takes_codes_modulo_256() {
    assert_eq!(apply(&[233, 1], Token::Puts).2, "\u{e9}");
    assert_eq!(apply(&[321, 1], Token::Puts).2, "A");
    assert_eq!(apply(&[-1, 1], Token::Puts).2, "\u{ff}");
    assert_eq!(apply(&[0x20ac, 1], Token::Puts).2, "\u{ac}");
}

#[test]
fn puts_faults() {
    assert_eq!(apply(&[], Token::Puts).0, Err(RuntimeFault::StackUnderflow(Token::Puts)));
    let (r, stack, output) = apply(&[65, 66, 3], Token::Puts);
    assert_eq!(r, Err(RuntimeFault::StackUnderflow(Token::Puts)));
    assert_eq!(stack, vec![Entity::Number(65), Entity::Number(66), Entity::Number(3)]);
    assert_eq!(output, "");
    assert_eq!(apply(&[i32::MAX], Token::Puts).0, Err(RuntimeFault::StackUnderflow(Token::Puts)));
    let mut output: Vec<u8> = Vec::new();
    let mut m = machine(vec![text("a"), Entity::Number(66), Entity::Number(2)]);
    assert_eq!(
        m.execute(&Token::Puts, &mut output),
        Err(RuntimeFault::TypeMismatch(Token::Puts))
    );
    assert_eq!(m.len(), 3);
    let mut m = machine(vec![Entity::Number(66), text("1")]);
    assert_eq!(
        m.execute(&Token::Puts, &mut output),
        Err(RuntimeFault::TypeMismatch(Token::Puts))
    );
    assert!(output.is_empty());
}

#[test]
fn dup_swap_drop() {
    assert_eq!(apply(&[1, 2], Token::Dup).1, vec![
        Entity::Number(1),
        Entity::Number(2),
        Entity::Number(2)
    ]);
    assert_eq!(apply(&[0, 1, 2], Token::Swap).1, vec![
        Entity::Number(0),
        Entity::Number(2),
        Entity::Number(1)
    ]);
    assert_eq!(apply(&[1, 2], Token::Drop).1, vec![Entity::Number(1)]);
    assert_eq!(apply(&[], Token::Dup).0, Err(RuntimeFault::StackUnderflow(Token::Dup)));
    assert_eq!(apply(&[], Token::Drop).0, Err(RuntimeFault::StackUnderflow(Token::Drop)));
}

#[test]
fn dup_copies_any_value() {
    let word = Ast::WordDefinition { name: "f".to_string(), body: vec![Ast::Loop { body: vec![] }] };
    let mut m = machine(vec![Entity::Function(word.clone())]);
    let mut output: Vec<u8> = Vec::new();
    assert_eq!(m.execute(&Token::Dup, &mut output), Ok(()));
    assert_eq!(drain(&mut m), vec![Entity::Function(word.clone()), Entity::Function(word)]);
}

#[test]
fn tokens_that_are_no_operation() {
    for token in [
        Token::If,
        Token::Else,
        Token::Then,
        Token::Do,
        Token::Loop,
        Token::Colon,
        Token::SemiColon,
        Token::Arrow,
        Token::At,
        Token::EOF,
        Token::Number(1),
        Token::LoopVariable(0),
        Token::Identifier("x".to_string()),
        Token::StringLiteral("x".to_string()),
    ] {
        let (r, stack, output) = apply(&[1, 2], token.clone());
        assert_eq!(r, Err(RuntimeFault::NotExecutable(token)));
        assert_eq!(stack.len(), 2);
        assert_eq!(output, "");
    }
}

#[test]
fn loop_stack() {
    let mut m = StackMachine::new();
    assert_eq!(m.get_loop(0), None);
    assert_eq!(m.pop_loop(), None);
    assert_eq!(m.push_loop(10, 0), Ok(()));
    assert_eq!(m.push_loop(7, 3), Ok(()));
    assert_eq!(m.get_loop(0), Some(3));
    assert_eq!(m.get_loop(1), Some(7));
    assert_eq!(m.get_loop(2), Some(0));
    assert_eq!(m.get_loop(3), Some(10));
    assert_eq!(m.get_loop(4), None);
    m.set_loop_index(4);
    assert_eq!(m.get_loop(0), Some(4));
    assert_eq!(m.get_loop(1), Some(7));
    assert_eq!(m.get_loop(2), Some(0));
    assert_eq!(m.pop_loop(), Some(LoopFrame { limit: 7, index: 4 }));
    assert_eq!(m.pop_loop(), Some(LoopFrame { limit: 10, index: 0 }));
    assert_eq!(m.pop_loop(), None);
    m.set_loop_index(1);
    assert_eq!(m.get_loop(0), None);
    assert_eq!(m.len(), 0);
}

#[test]
fn loop_stack_is_bounded() {
    let mut m = StackMachine::new();
    for i in 0..MAX_LOOP_DEPTH {
        assert_eq!(m.push_loop(1, i as i32), Ok(()));
    }
    assert_eq!(MAX_LOOP_DEPTH, 5);
    assert_eq!(m.push_loop(1, 0), Err(RuntimeFault::LoopNestingTooDeep));
    assert_eq!(m.get_loop(0), Some(4));
    assert_eq!(m.get_loop(8), Some(0));
    assert_eq!(m.get_loop(10), None);
}

#[test]
fn copy_of_a_value_is_equal() {
    for value in [
        Entity::Number(-3),
        text("abc"),
        Entity::Pointer(7),
        Entity::Function(Ast::If { if_body: vec![Ast::Number(1)], else_body: vec![] }),
    ] {
        assert_eq!(value.clone(), value);
    }
}
