use stacky::context::{Context, Variable};
use stacky::parser::Ast;
use stacky::stack_machine::{Entity, RuntimeFault};

fn number(n: i32) -> Variable {
    Variable::Variable(Entity::Number(n))
}

fn word(n: i32) -> Variable {
    Variable::Function { body: vec![Ast::Number(n)] }
}

#[test]
fn context_lookup_of_a_missing_name() {
    let c = Context::new(None);
    assert_eq!(c.get("x".to_string()), Err(RuntimeFault::UndefinedWord("x".to_string())));
}

#[test]
fn context_set_then_get() {
    let mut c = Context::new(None);
    c.set("x".to_string(), number(1));
    c.set("f".to_string(), word(2));
    assert_eq!(c.get("x".to_string()), Ok(number(1)));
    assert_eq!(c.get("f".to_string()), Ok(word(2)));
    assert_eq!(c.get("X".to_string()), Err(RuntimeFault::UndefinedWord("X".to_string())));
    assert_eq!(c.get("".to_string()), Err(RuntimeFault::UndefinedWord("".to_string())));
}

#[test]
fn context_set_overwrites() {
    let mut c = Context::new(None);
    c.set("x".to_string(), number(1));
    c.set("y".to_string(), number(2));
    c.set("x".to_string(), word(3));
    assert_eq!(c.get("x".to_string()), Ok(word(3)));
    assert_eq!(c.get("y".to_string()), Ok(number(2)));
    c.set("y".to_string(), number(4));
    assert_eq!(c.get("x".to_string()), Ok(word(3)));
    assert_eq!(c.get("y".to_string()), Ok(number(4)));
}

#[test]
fn context_looks_outward() {
    let mut root = Context::new(None);
    root.set("x".to_string(), number(1));
    root.set("y".to_string(), number(2));
    let mut middle = Context::new(Some(Box::new(root)));
    middle.set("y".to_string(), number(20));
    middle.set("z".to_string(), number(30));
    let mut inner = Context::new(Some(Box::new(middle)));
    inner.set("z".to_string(), number(300));
    assert_eq!(inner.get("x".to_string()), Ok(number(1)));
    assert_eq!(inner.get("y".to_string()), Ok(number(20)));
    assert_eq!(inner.get("z".to_string()), Ok(number(300)));
    assert_eq!(inner.get("w".to_string()), Err(RuntimeFault::UndefinedWord("w".to_string())));
}

#[test]
fn context_copy_is_independent() {
    let mut root = Context::new(None);
    root.set("x".to_string(), number(1));
    let mut first = Context::new(Some(Box::new(root)));
    first.set("y".to_string(), word(2));
    let mut second = first.clone();
    second.set("y".to_string(), number(3));
    second.set("x".to_string(), number(4));
    assert_eq!(first.get("x".to_string()), Ok(number(1)));
    assert_eq!(first.get("y".to_string()), Ok(word(2)));
    assert_eq!(second.get("x".to_string()), Ok(number(4)));
    assert_eq!(second.get("y".to_string()), Ok(number(3)));
}
