use vstd::prelude::*;
use vstd::utf8::encode_utf8;
use crate::lexer::{spelling, Token, TokenView};
use crate::parser::{Ast, Node};
use crate::text::{decimal, decimal_text, latin, latin_char, pointer, pointer_text};

verus! {

/// A value on the data stack.
#[derive(Debug, PartialEq)]
pub enum Entity {
    Number(i32),
    String(String),
    Pointer(u32),
    Function(Ast),
}

/// The mathematical value of an [`Entity`].
pub enum Value {
    Number(i32),
    String(Seq<char>),
    Pointer(u32),
    Function(Node),
}

impl View for Entity {
    type V = Value;

    open spec fn view(&self) -> Value {
        match self {
            Entity::Number(n) => Value::Number(*n),
            Entity::String(s) => Value::String(s@),
            Entity::Pointer(p) => Value::Pointer(*p),
            Entity::Function(ast) => Value::Function(ast@),
        }
    }
}

impl Clone for Entity {
    fn clone(&self) -> (r: Entity)
        ensures
            r@ == self@,
    {
        match self {
            Entity::Number(n) => Entity::Number(*n),
            Entity::String(s) => Entity::String(s.clone()),
            Entity::Pointer(p) => Entity::Pointer(*p),
            Entity::Function(ast) => Entity::Function(ast.clone()),
        }
    }
}

/// The values of a sequence of entities, in order.
pub open spec fn values_of(entities: Seq<Entity>) -> Seq<Value> {
    Seq::new(entities.len(), |i: int| entities[i]@)
}

/// One active counted loop: where it ends and where it stands.
#[derive(Debug, PartialEq, Eq, Clone, Copy)]
pub struct LoopFrame {
    pub limit: i32,
    pub index: i32,
}

/// The most counted loops that may be active at once, one for each of the
/// names `I`, `J`, `K`, `L` and `M`.
pub const MAX_LOOP_DEPTH: usize = 5;

/// Why a run was aborted.
#[derive(Debug, PartialEq)]
pub enum RuntimeFault {
    /// The operation found too few values on the stack.
    StackUnderflow(Token),
    /// The operation does not accept operands of these kinds.
    TypeMismatch(Token),
    /// The divisor was zero.
    DivisionByZero,
    /// The result of the operation is not a 32-bit number.
    Overflow(Token),
    /// The token is no operation of the stack machine.
    NotExecutable(Token),
    /// A function value that is no word definition cannot be written.
    Unprintable,
    /// No word or variable has this name.
    UndefinedWord(String),
    /// The name is bound to a word, whose body cannot be read as a value.
    NotAVariable(String),
    /// Nothing on the stack to store in the variable of this name.
    MissingValue(String),
    /// The condition of an `IF` is missing or is no number.
    BadCondition,
    /// The start or the limit of a loop is missing or is no number.
    BadLoopBounds,
    /// No loop of this depth is active.
    NoLoopCounter(u8),
    /// More than [`MAX_LOOP_DEPTH`] loops would be active at once.
    LoopNestingTooDeep,
    /// Word calls nest deeper than the interpreter allows.
    CallDepthExceeded,
    /// A string literal has more characters than a number can count.
    LiteralTooLong,
}

/// The mathematical value of a [`RuntimeFault`].
pub enum RuntimeFaultView {
    StackUnderflow(TokenView),
    TypeMismatch(TokenView),
    DivisionByZero,
    Overflow(TokenView),
    NotExecutable(TokenView),
    Unprintable,
    UndefinedWord(Seq<char>),
    NotAVariable(Seq<char>),
    MissingValue(Seq<char>),
    BadCondition,
    BadLoopBounds,
    NoLoopCounter(u8),
    LoopNestingTooDeep,
    CallDepthExceeded,
    LiteralTooLong,
}

impl View for RuntimeFault {
    type V = RuntimeFaultView;

    open spec fn view(&self) -> RuntimeFaultView {
        match self {
            RuntimeFault::StackUnderflow(t) => RuntimeFaultView::StackUnderflow(t@),
            RuntimeFault::TypeMismatch(t) => RuntimeFaultView::TypeMismatch(t@),
            RuntimeFault::DivisionByZero => RuntimeFaultView::DivisionByZero,
            RuntimeFault::Overflow(t) => RuntimeFaultView::Overflow(t@),
            RuntimeFault::NotExecutable(t) => RuntimeFaultView::NotExecutable(t@),
            RuntimeFault::Unprintable => RuntimeFaultView::Unprintable,
            RuntimeFault::UndefinedWord(s) => RuntimeFaultView::UndefinedWord(s@),
            RuntimeFault::NotAVariable(s) => RuntimeFaultView::NotAVariable(s@),
            RuntimeFault::MissingValue(s) => RuntimeFaultView::MissingValue(s@),
            RuntimeFault::BadCondition => RuntimeFaultView::BadCondition,
            RuntimeFault::BadLoopBounds => RuntimeFaultView::BadLoopBounds,
            RuntimeFault::NoLoopCounter(d) => RuntimeFaultView::NoLoopCounter(*d),
            RuntimeFault::LoopNestingTooDeep => RuntimeFaultView::LoopNestingTooDeep,
            RuntimeFault::CallDepthExceeded => RuntimeFaultView::CallDepthExceeded,
            RuntimeFault::LiteralTooLong => RuntimeFaultView::LiteralTooLong,
        }
    }
}

/// The text that tells of a fault of a run: what is wrong, and the
/// operation or the name that it is about.
pub open spec fn runtime_message(fault: RuntimeFaultView) -> Seq<char> {
    match fault {
        RuntimeFaultView::StackUnderflow(op) => "Not enough items on stack for "@ + spelling(op),
        RuntimeFaultView::TypeMismatch(op) => "Values of the wrong kind for "@ + spelling(op),
        RuntimeFaultView::DivisionByZero => "Cannot divide by zero"@,
        RuntimeFaultView::Overflow(op) => "Result out of range for "@ + spelling(op),
        RuntimeFaultView::NotExecutable(token) => "Cannot execute token: "@ + spelling(token),
        RuntimeFaultView::Unprintable => "Cannot emit a function that is no word"@,
        RuntimeFaultView::UndefinedWord(name) => "Word not found: "@ + name,
        RuntimeFaultView::NotAVariable(name) => "Cannot get the content of a function: "@ + name,
        RuntimeFaultView::MissingValue(name) =>
            "Not enough items on the stack for variable assignment: "@ + name,
        RuntimeFaultView::BadCondition => "No number as condition for IF"@,
        RuntimeFaultView::BadLoopBounds => "No numbers as index and limit for loop"@,
        RuntimeFaultView::NoLoopCounter(d) => "No loop-counter "@ + decimal_text(d as int),
        RuntimeFaultView::LoopNestingTooDeep => "Loops are nested too deep"@,
        RuntimeFaultView::CallDepthExceeded => "Word calls are nested too deep"@,
        RuntimeFaultView::LiteralTooLong => "String literal is too long"@,
    }
}

impl RuntimeFault {
    /// A text that tells of the fault.
    pub fn message(&self) -> (r: String)
        ensures
            r@ == runtime_message(self@),
    {
        match self {
            RuntimeFault::StackUnderflow(op) => {
                let mut r = String::from_str("Not enough items on stack for ");
                r.append(op.spelling().as_str());
                r
            },
            RuntimeFault::TypeMismatch(op) => {
                let mut r = String::from_str("Values of the wrong kind for ");
                r.append(op.spelling().as_str());
                r
            },
            RuntimeFault::DivisionByZero => String::from_str("Cannot divide by zero"),
            RuntimeFault::Overflow(op) => {
                let mut r = String::from_str("Result out of range for ");
                r.append(op.spelling().as_str());
                r
            },
            RuntimeFault::NotExecutable(token) => {
                let mut r = String::from_str("Cannot execute token: ");
                r.append(token.spelling().as_str());
                r
            },
            RuntimeFault::Unprintable => String::from_str("Cannot emit a function that is no word"),
            RuntimeFault::UndefinedWord(name) => {
                let mut r = String::from_str("Word not found: ");
                r.append(name.as_str());
                r
            },
            RuntimeFault::NotAVariable(name) => {
                let mut r = String::from_str("Cannot get the content of a function: ");
                r.append(name.as_str());
                r
            },
            RuntimeFault::MissingValue(name) => {
                let mut r = String::from_str(
                    "Not enough items on the stack for variable assignment: ",
                );
                r.append(name.as_str());
                r
            },
            RuntimeFault::BadCondition => String::from_str("No number as condition for IF"),
            RuntimeFault::BadLoopBounds => String::from_str(
                "No numbers as index and limit for loop",
            ),
            RuntimeFault::NoLoopCounter(d) => {
                let mut r = String::from_str("No loop-counter ");
                r.append(decimal(*d as i32).as_str());
                r
            },
            RuntimeFault::LoopNestingTooDeep => String::from_str("Loops are nested too deep"),
            RuntimeFault::CallDepthExceeded => String::from_str("Word calls are nested too deep"),
            RuntimeFault::LiteralTooLong => String::from_str("String literal is too long"),
        }
    }
}

/// Whether `n` is a 32-bit number.
pub open spec fn fits(n: int) -> bool {
    i32::MIN <= n <= i32::MAX
}

/// `x` divided by `y`, rounded toward zero.
pub open spec fn quotient(x: int, y: int) -> int
    recommends
        y != 0,
{
    if x >= 0 {
        if y > 0 {
            x / y
        } else {
            -(x / (-y))
        }
    } else {
        if y > 0 {
            -((-x) / y)
        } else {
            (-x) / (-y)
        }
    }
}

/// The number that stands for a truth value: 1 for true, 0 for false.
pub open spec fn truth(b: bool) -> i32 {
    if b {
        1
    } else {
        0
    }
}

/// Whether `op` is one of `+ - * /`.
pub open spec fn is_arithmetic(op: TokenView) -> bool {
    op is Add || op is Sub || op is Mul || op is Div
}

/// Whether `op` is one of `< > <= >=`.
pub open spec fn is_ordering(op: TokenView) -> bool {
    op is Lt || op is Gt || op is Lte || op is Gte
}

/// What the arithmetic operation `op` makes of `a` and `b`, where `a` was
/// pushed first.
pub open spec fn arithmetic(op: TokenView, a: int, b: int) -> int
    recommends
        is_arithmetic(op),
{
    match op {
        TokenView::Add => a + b,
        TokenView::Sub => a - b,
        TokenView::Mul => a * b,
        _ => quotient(a, b),
    }
}

/// Whether the relation `op` holds between `a` and `b`, where `a` was pushed
/// first.
pub open spec fn holds(op: TokenView, a: int, b: int) -> bool
    recommends
        is_ordering(op),
{
    match op {
        TokenView::Lt => a < b,
        TokenView::Gt => a > b,
        TokenView::Lte => a <= b,
        _ => a >= b,
    }
}

/// What `op`, arithmetic or an ordering, makes of the operands `x` and `y`,
/// where `x` was pushed first.
pub open spec fn binary(op: TokenView, x: Value, y: Value) -> Result<Value, RuntimeFaultView>
    recommends
        is_arithmetic(op) || is_ordering(op),
{
    match (x, y) {
        (Value::Number(a), Value::Number(b)) => {
            if is_ordering(op) {
                Ok(Value::Number(truth(holds(op, a as int, b as int))))
            } else if op is Div && b == 0 {
                Err(RuntimeFaultView::DivisionByZero)
            } else if !fits(arithmetic(op, a as int, b as int)) {
                Err(RuntimeFaultView::Overflow(op))
            } else {
                Ok(Value::Number(arithmetic(op, a as int, b as int) as i32))
            }
        },
        (Value::String(a), Value::String(b)) => {
            if op is Add {
                Ok(Value::String(a + b))
            } else {
                Err(RuntimeFaultView::TypeMismatch(op))
            }
        },
        _ => Err(RuntimeFaultView::TypeMismatch(op)),
    }
}

/// Whether two values are equal: two numbers, two strings, or a number and
/// an address that are the same integer. Values of any other two kinds are
/// unequal.
pub open spec fn same(x: Value, y: Value) -> bool {
    match (x, y) {
        (Value::Number(a), Value::Number(b)) => a == b,
        (Value::String(a), Value::String(b)) => a == b,
        (Value::Number(a), Value::Pointer(b)) => a as int == b as int,
        (Value::Pointer(a), Value::Number(b)) => a as int == b as int,
        _ => false,
    }
}

/// The text that precedes the name of a word written as a value.
pub open spec fn function_prefix() -> Seq<char> {
    seq!['F', 'U', 'N', 'C', ':', ' ']
}

/// The text that `.` writes for a value.
pub open spec fn emitted(v: Value) -> Result<Seq<char>, RuntimeFaultView> {
    match v {
        Value::Number(n) => Ok(decimal_text(n as int)),
        Value::String(s) => Ok(s),
        Value::Pointer(p) => Ok(pointer_text(p)),
        Value::Function(node) => match node {
            Node::WordDefinition { name, body } => Ok(function_prefix() + name),
            _ => Err(RuntimeFaultView::Unprintable),
        },
    }
}

/// What an operation does: the stack it leaves and the text it writes.
pub struct Effect {
    pub stack: Seq<Value>,
    pub text: Seq<char>,
}

/// An effect that writes nothing.
pub open spec fn silent(stack: Seq<Value>) -> Result<Effect, RuntimeFaultView> {
    Ok(Effect { stack, text: Seq::empty() })
}

/// What `PUTS` does on a stack whose top is the number `n`: the `n` numbers
/// below it are character codes, written in the order in which they were
/// pushed.
pub open spec fn puts(stack: Seq<Value>, n: i32) -> Result<Effect, RuntimeFaultView>
    recommends
        stack.len() >= 1,
{
    let count = if n > 0 {
        n as int
    } else {
        0
    };
    let base = stack.len() - 1 - count;
    if base < 0 {
        Err(RuntimeFaultView::StackUnderflow(TokenView::Puts))
    } else if exists|i: int| base <= i < stack.len() - 1 && !(stack[i] is Number) {
        Err(RuntimeFaultView::TypeMismatch(TokenView::Puts))
    } else {
        Ok(
            Effect {
                stack: stack.take(base),
                text: Seq::new(count as nat, |i: int| latin_char(stack[base + i]->Number_0)),
            },
        )
    }
}

/// What the operation `op` does on `stack`, whose last item is its top: the
/// new stack and the text written, or the fault that aborts the run.
///
/// An operation on two operands reads `X Y op` as `X op Y`: the operand
/// pushed first stands on the left.
pub open spec fn apply(op: TokenView, stack: Seq<Value>) -> Result<Effect, RuntimeFaultView> {
    let n = stack.len() as int;
    if is_arithmetic(op) || is_ordering(op) {
        if n < 2 {
            Err(RuntimeFaultView::StackUnderflow(op))
        } else {
            match binary(op, stack[n - 2], stack[n - 1]) {
                Ok(v) => silent(stack.take(n - 2).push(v)),
                Err(f) => Err(f),
            }
        }
    } else {
        match op {
            TokenView::Eq | TokenView::DoubleEq => {
                if n == 0 {
                    silent(stack.push(Value::Number(0)))
                } else if n == 1 {
                    Err(RuntimeFaultView::StackUnderflow(op))
                } else {
                    silent(
                        stack.take(n - 2).push(
                            Value::Number(truth(same(stack[n - 2], stack[n - 1]))),
                        ),
                    )
                }
            },
            TokenView::Emit => {
                if n < 1 {
                    Err(RuntimeFaultView::StackUnderflow(op))
                } else {
                    match emitted(stack[n - 1]) {
                        Ok(text) => Ok(Effect { stack: stack.take(n - 1), text }),
                        Err(f) => Err(f),
                    }
                }
            },
            TokenView::Puts => {
                if n < 1 {
                    Err(RuntimeFaultView::StackUnderflow(op))
                } else {
                    match stack[n - 1] {
                        Value::Number(count) => puts(stack, count),
                        _ => Err(RuntimeFaultView::TypeMismatch(op)),
                    }
                }
            },
            TokenView::Dup => {
                if n < 1 {
                    Err(RuntimeFaultView::StackUnderflow(op))
                } else {
                    silent(stack.push(stack[n - 1]))
                }
            },
            TokenView::Swap => {
                if n < 2 {
                    Err(RuntimeFaultView::StackUnderflow(op))
                } else {
                    silent(stack.take(n - 2).push(stack[n - 1]).push(stack[n - 2]))
                }
            },
            TokenView::Drop => {
                if n < 1 {
                    Err(RuntimeFaultView::StackUnderflow(op))
                } else {
                    silent(stack.take(n - 1))
                }
            },
            _ => Err(RuntimeFaultView::NotExecutable(op)),
        }
    }
}

/// Whether the result `r` of an executable function is the result `s` that
/// its specification gives.
pub open spec fn agrees<T: View>(r: Result<T, RuntimeFault>, s: Result<T::V, RuntimeFaultView>) -> bool {
    match (r, s) {
        (Ok(a), Ok(b)) => a@ == b,
        (Err(f), Err(g)) => f@ == g,
        _ => false,
    }
}

/// Appends the UTF-8 encoding of `text` to `output`.
pub fn write_text(output: &mut Vec<u8>, text: &str)
    ensures
        final(output)@ == old(output)@ + encode_utf8(text@),
{
    output.extend_from_slice(text.as_bytes());
    assert(final(output)@ =~= old(output)@ + encode_utf8(text@));
}

/// `a` divided by `b`, rounded toward zero.
fn divide(a: i32, b: i32) -> (q: i64)
    requires
        b != 0,
    ensures
        q == quotient(a as int, b as int),
{
    let x: u64 = if a < 0 {
        (-(a as i64)) as u64
    } else {
        a as u64
    };
    let y: u64 = if b < 0 {
        (-(b as i64)) as u64
    } else {
        b as u64
    };
    let q: u64 = x / y;
    if (a < 0) != (b < 0) {
        -(q as i64)
    } else {
        q as i64
    }
}

/// What `op` makes of the numbers `a` and `b`.
fn number_op(op: &Token, a: i32, b: i32) -> (r: Result<Entity, RuntimeFault>)
    requires
        is_arithmetic(op@) || is_ordering(op@),
    ensures
        agrees(r, binary(op@, Value::Number(a), Value::Number(b))),
{
    let wide: i64 = match op {
        Token::Lt => if a < b { 1 } else { 0 },
        Token::Gt => if a > b { 1 } else { 0 },
        Token::Lte => if a <= b { 1 } else { 0 },
        Token::Gte => if a >= b { 1 } else { 0 },
        Token::Add => a as i64 + b as i64,
        Token::Sub => a as i64 - b as i64,
        Token::Mul => {
            assert(-0x8000_0000 * 0x8000_0000 <= (a as int) * (b as int) <= 0x8000_0000
                * 0x8000_0000) by (nonlinear_arith)
                requires
                    -0x8000_0000 <= a as int <= 0x8000_0000,
                    -0x8000_0000 <= b as int <= 0x8000_0000,
            ;
            (a as i64) * (b as i64)
        },
        _ => {
            if b == 0 {
                return Err(RuntimeFault::DivisionByZero);
            }
            divide(a, b)
        },
    };
    if wide < -0x8000_0000 || wide > 0x7fff_ffff {
        Err(RuntimeFault::Overflow(op.clone()))
    } else {
        Ok(Entity::Number(wide as i32))
    }
}

/// Whether an operation with the effect `effect` took a machine from the
/// stack `stack0` to `stack1` and the output from `out0` to `out1`, with the
/// result `r`. An operation that faults changes neither.
pub open spec fn performed(
    effect: Result<Effect, RuntimeFaultView>,
    stack0: Seq<Value>,
    out0: Seq<u8>,
    stack1: Seq<Value>,
    out1: Seq<u8>,
    r: Result<(), RuntimeFault>,
) -> bool {
    match effect {
        Ok(e) => r is Ok && stack1 == e.stack && out1 == out0 + encode_utf8(e.text),
        Err(f) => r matches Err(g) && g@ == f && stack1 == stack0 && out1 == out0,
    }
}

/// Whether two values are equal.
fn same_entities(x: &Entity, y: &Entity) -> (b: bool)
    ensures
        b == same(x@, y@),
{
    match (x, y) {
        (Entity::Number(a), Entity::Number(b)) => *a == *b,
        (Entity::String(a), Entity::String(b)) => *a == *b,
        (Entity::Number(a), Entity::Pointer(b)) => *a >= 0 && *a as u32 == *b,
        (Entity::Pointer(a), Entity::Number(b)) => *b >= 0 && *a == *b as u32,
        _ => false,
    }
}

/// The stack machine: the data stack and the stack of active loops.
pub struct StackMachine {
    stack: Vec<Entity>,
    loops: Vec<LoopFrame>,
}

/// The value at `offset` from the top of the loop stack, read as a flat
/// stack on which each loop pushed its limit and then its index: offset 0 is
/// the index of the innermost loop, offset 1 its limit, offset 2 the index of
/// the loop around it.
pub open spec fn loop_value(loops: Seq<LoopFrame>, offset: int) -> Option<i32> {
    if 0 <= offset && offset / 2 < loops.len() {
        let frame = loops[loops.len() - 1 - offset / 2];
        if offset % 2 == 0 {
            Some(frame.index)
        } else {
            Some(frame.limit)
        }
    } else {
        None
    }
}

/// The number at `offset` from the top of `stack`, if there is a value and
/// it is a number.
pub open spec fn number_from_top(stack: Seq<Value>, offset: int) -> Option<i32> {
    if 0 <= offset < stack.len() {
        match stack[stack.len() - 1 - offset] {
            Value::Number(n) => Some(n),
            _ => None,
        }
    } else {
        None
    }
}

impl StackMachine {
    /// The data stack; its last item is the top.
    pub closed spec fn stack(&self) -> Seq<Value> {
        values_of(self.stack@)
    }

    /// The active loops; the last is the innermost.
    pub closed spec fn loops(&self) -> Seq<LoopFrame> {
        self.loops@
    }

    /// A machine with both stacks empty.
    pub fn new() -> (m: Self)
        ensures
            m.stack() == Seq::<Value>::empty(),
            m.loops() == Seq::<LoopFrame>::empty(),
    {
        let m = Self { stack: Vec::new(), loops: Vec::new() };
        assert(m.stack() =~= Seq::<Value>::empty());
        m
    }

    /// Pushes `entity` onto the data stack.
    pub fn push(&mut self, entity: Entity)
        ensures
            final(self).stack() == old(self).stack().push(entity@),
            final(self).loops() == old(self).loops(),
    {
        self.stack.push(entity);
        assert(final(self).stack() =~= old(self).stack().push(entity@));
    }

    /// Takes the top of the data stack, if there is one.
    pub fn pop(&mut self) -> (r: Option<Entity>)
        ensures
            final(self).loops() == old(self).loops(),
            match r {
                Some(e) => old(self).stack().len() > 0 && e@ == old(self).stack().last()
                    && final(self).stack() == old(self).stack().drop_last(),
                None => old(self).stack().len() == 0 && final(self).stack() == old(self).stack(),
            },
    {
        let r = self.stack.pop();
        assert(r is Some ==> final(self).stack() =~= old(self).stack().drop_last());
        r
    }

    /// A copy of the value at `pointer`, counted from the bottom of the data
    /// stack.
    pub fn _get(&mut self, pointer: u32) -> (r: Option<Entity>)
        ensures
            final(self).stack() == old(self).stack(),
            final(self).loops() == old(self).loops(),
            match r {
                Some(e) => pointer < old(self).stack().len() && e@ == old(self).stack()[
                    pointer as int],
                None => pointer >= old(self).stack().len(),
            },
    {
        let i = pointer as usize;
        if i < self.stack.len() {
            Some(self.stack[i].clone())
        } else {
            None
        }
    }

    /// The number of values on the data stack.
    pub fn len(&self) -> (n: usize)
        ensures
            n == self.stack().len(),
    {
        self.stack.len()
    }

    /// The number at `offset` from the top of the data stack, if there is a
    /// value and it is a number.
    pub fn number_at(&self, offset: usize) -> (r: Option<i32>)
        ensures
            r == number_from_top(self.stack(), offset as int),
    {
        let n = self.stack.len();
        if offset < n {
            match &self.stack[n - 1 - offset] {
                Entity::Number(x) => Some(*x),
                _ => None,
            }
        } else {
            None
        }
    }

    /// Enters a loop that counts from `index` up to `limit`.
    pub fn push_loop(&mut self, limit: i32, index: i32) -> (r: Result<(), RuntimeFault>)
        ensures
            final(self).stack() == old(self).stack(),
            old(self).loops().len() < MAX_LOOP_DEPTH ==> r is Ok && final(self).loops() == old(
                self,
            ).loops().push(LoopFrame { limit, index }),
            old(self).loops().len() >= MAX_LOOP_DEPTH ==> r == Err::<(), RuntimeFault>(
                RuntimeFault::LoopNestingTooDeep,
            ) && final(self).loops() == old(self).loops(),
    {
        if self.loops.len() >= MAX_LOOP_DEPTH {
            Err(RuntimeFault::LoopNestingTooDeep)
        } else {
            self.loops.push(LoopFrame { limit, index });
            Ok(())
        }
    }

    /// Leaves the innermost loop, if there is one.
    pub fn pop_loop(&mut self) -> (r: Option<LoopFrame>)
        ensures
            final(self).stack() == old(self).stack(),
            match r {
                Some(frame) => old(self).loops().len() > 0 && frame == old(self).loops().last()
                    && final(self).loops() == old(self).loops().drop_last(),
                None => old(self).loops().len() == 0 && final(self).loops() == old(self).loops(),
            },
    {
        self.loops.pop()
    }

    /// The value at `offset` from the top of the loop stack.
    pub fn get_loop(&self, offset: usize) -> (r: Option<i32>)
        ensures
            r == loop_value(self.loops(), offset as int),
    {
        let n = self.loops.len();
        if offset / 2 < n {
            let frame = self.loops[n - 1 - offset / 2];
            if offset % 2 == 0 {
                Some(frame.index)
            } else {
                Some(frame.limit)
            }
        } else {
            None
        }
    }

    /// Sets the index of the innermost loop, if there is one.
    pub fn set_loop_index(&mut self, index: i32)
        ensures
            final(self).stack() == old(self).stack(),
            old(self).loops().len() == 0 ==> final(self).loops() == old(self).loops(),
            old(self).loops().len() > 0 ==> final(self).loops() == old(self).loops().update(
                old(self).loops().len() - 1,
                LoopFrame { limit: old(self).loops().last().limit, index },
            ),
    {
        let n = self.loops.len();
        if n > 0 {
            let limit = self.loops[n - 1].limit;
            self.loops[n - 1] = LoopFrame { limit, index };
        }
    }

    /// Performs arithmetic or an ordering on the top two values.
    fn binary(&mut self, op: &Token) -> (r: Result<(), RuntimeFault>)
        requires
            is_arithmetic(op@) || is_ordering(op@),
        ensures
            final(self).loops() == old(self).loops(),
            match apply(op@, old(self).stack()) {
                Ok(e) => r is Ok && final(self).stack() == e.stack && e.text.len() == 0,
                Err(f) => r matches Err(g) && g@ == f && final(self).stack() == old(self).stack(),
            },
    {
        let n = self.stack.len();
        if n < 2 {
            return Err(RuntimeFault::StackUnderflow(op.clone()));
        }
        let result: Result<Entity, RuntimeFault> = match (&self.stack[n - 2], &self.stack[n - 1]) {
            (Entity::Number(a), Entity::Number(b)) => number_op(op, *a, *b),
            (Entity::String(a), Entity::String(b)) => match op {
                Token::Add => {
                    let mut joined = a.clone();
                    joined.append(b.as_str());
                    Ok(Entity::String(joined))
                },
                _ => Err(RuntimeFault::TypeMismatch(op.clone())),
            },
            _ => Err(RuntimeFault::TypeMismatch(op.clone())),
        };
        match result {
            Ok(entity) => {
                self.stack.truncate(n - 2);
                self.stack.push(entity);
                assert(final(self).stack() =~= old(self).stack().take(n - 2).push(entity@));
                Ok(())
            },
            Err(fault) => Err(fault),
        }
    }

    /// Tests the top two values for equality.
    fn equal(&mut self, op: &Token) -> (r: Result<(), RuntimeFault>)
        requires
            op@ is Eq || op@ is DoubleEq,
        ensures
            final(self).loops() == old(self).loops(),
            match apply(op@, old(self).stack()) {
                Ok(e) => r is Ok && final(self).stack() == e.stack && e.text.len() == 0,
                Err(f) => r matches Err(g) && g@ == f && final(self).stack() == old(self).stack(),
            },
    {
        let n = self.stack.len();
        if n == 0 {
            self.stack.push(Entity::Number(0));
            assert(final(self).stack() =~= old(self).stack().push(Value::Number(0)));
            Ok(())
        } else if n == 1 {
            Err(RuntimeFault::StackUnderflow(op.clone()))
        } else {
            let b = same_entities(&self.stack[n - 2], &self.stack[n - 1]);
            self.stack.truncate(n - 2);
            self.stack.push(Entity::Number(if b { 1 } else { 0 }));
            assert(final(self).stack() =~= old(self).stack().take(n - 2).push(
                Value::Number(truth(b)),
            ));
            Ok(())
        }
    }

    /// Takes the top value and writes it.
    fn emit(&mut self, output: &mut Vec<u8>) -> (r: Result<(), RuntimeFault>)
        ensures
            final(self).loops() == old(self).loops(),
            performed(
                apply(TokenView::Emit, old(self).stack()),
                old(self).stack(),
                old(output)@,
                final(self).stack(),
                final(output)@,
                r,
            ),
    {
        let n = self.stack.len();
        if n < 1 {
            return Err(RuntimeFault::StackUnderflow(Token::Emit));
        }
        let text: String = match &self.stack[n - 1] {
            Entity::Number(x) => decimal(*x),
            Entity::String(s) => s.clone(),
            Entity::Pointer(p) => pointer(*p),
            Entity::Function(ast) => match ast {
                Ast::WordDefinition { name, body: _ } => {
                    let mut t = String::from_str("FUNC: ");
                    t.append(name.as_str());
                    proof {
                        reveal_strlit("FUNC: ");
                        assert("FUNC: "@ =~= function_prefix());
                    }
                    t
                },
                _ => {
                    return Err(RuntimeFault::Unprintable);
                },
            },
        };
        assert(emitted(old(self).stack()[n - 1]) == Ok::<Seq<char>, RuntimeFaultView>(text@));
        self.stack.truncate(n - 1);
        assert(final(self).stack() =~= old(self).stack().take(n - 1));
        write_text(output, text.as_str());
        Ok(())
    }

    /// Takes a count and that many character codes, and writes the
    /// characters.
    fn puts(&mut self, output: &mut Vec<u8>) -> (r: Result<(), RuntimeFault>)
        ensures
            final(self).loops() == old(self).loops(),
            performed(
                apply(TokenView::Puts, old(self).stack()),
                old(self).stack(),
                old(output)@,
                final(self).stack(),
                final(output)@,
                r,
            ),
    {
        let n = self.stack.len();
        if n < 1 {
            return Err(RuntimeFault::StackUnderflow(Token::Puts));
        }
        let wanted: i32 = match &self.stack[n - 1] {
            Entity::Number(c) => *c,
            _ => {
                return Err(RuntimeFault::TypeMismatch(Token::Puts));
            },
        };
        let count: usize = if wanted > 0 {
            wanted as usize
        } else {
            0
        };
        if n - 1 < count {
            return Err(RuntimeFault::StackUnderflow(Token::Puts));
        }
        let base = n - 1 - count;
        let ghost stack = self.stack();
        let mut text = String::new();
        let mut i = base;
        while i < n - 1
            invariant
                base <= i <= n - 1,
                n == self.stack.len(),
                stack == self.stack(),
                stack.len() == n,
                stack[n - 1] == Value::Number(wanted),
                base == n - 1 - count,
                count == if wanted > 0 { wanted as int } else { 0 },
                *self == *old(self),
                forall|k: int| base <= k < i ==> stack[k] is Number,
                text@ == Seq::new((i - base) as nat, |k: int| latin_char(stack[base + k]->Number_0)),
            decreases n - 1 - i,
        {
            match &self.stack[i] {
                Entity::Number(c) => {
                    text.push(latin(*c));
                },
                _ => {
                    assert(!(stack[i as int] is Number));
                    return Err(RuntimeFault::TypeMismatch(Token::Puts));
                },
            }
            i = i + 1;
            assert(text@ =~= Seq::new(
                (i - base) as nat,
                |k: int| latin_char(stack[base + k]->Number_0),
            ));
        }
        self.stack.truncate(base);
        assert(final(self).stack() =~= stack.take(base as int));
        write_text(output, text.as_str());
        Ok(())
    }

    /// Performs the operation `op`: its operands come from the data stack,
    /// its result goes back onto it, and what it writes is appended to
    /// `output` in UTF-8. A fault leaves the machine and the output as they
    /// were.
    pub fn execute(&mut self, op: &Token, output: &mut Vec<u8>) -> (r: Result<(), RuntimeFault>)
        ensures
            final(self).loops() == old(self).loops(),
            performed(
                apply(op@, old(self).stack()),
                old(self).stack(),
                old(output)@,
                final(self).stack(),
                final(output)@,
                r,
            ),
    {
        assert(encode_utf8(Seq::<char>::empty()) =~= Seq::<u8>::empty());
        assert(old(output)@ + Seq::<u8>::empty() =~= old(output)@);
        let n = self.stack.len();
        match op {
            Token::Add | Token::Sub | Token::Mul | Token::Div | Token::Lt | Token::Gt | Token::Lte
            | Token::Gte => {
                let r = self.binary(op);
                assert(apply(op@, old(self).stack()) matches Ok(e) ==> e.text =~= Seq::<char>::empty());
                r
            },
            Token::Eq | Token::DoubleEq => {
                let r = self.equal(op);
                assert(apply(op@, old(self).stack()) matches Ok(e) ==> e.text =~= Seq::<char>::empty());
                r
            },
            Token::Emit => self.emit(output),
            Token::Puts => self.puts(output),
            Token::Dup => {
                if n < 1 {
                    Err(RuntimeFault::StackUnderflow(Token::Dup))
                } else {
                    let top = self.stack[n - 1].clone();
                    self.stack.push(top);
                    assert(final(self).stack() =~= old(self).stack().push(old(self).stack()[n - 1]));
                    Ok(())
                }
            },
            Token::Swap => {
                if n < 2 {
                    Err(RuntimeFault::StackUnderflow(Token::Swap))
                } else {
                    let a = self.stack.pop().unwrap();
                    let b = self.stack.pop().unwrap();
                    self.stack.push(a);
                    self.stack.push(b);
                    assert(final(self).stack() =~= old(self).stack().take(n - 2).push(
                        old(self).stack()[n - 1],
                    ).push(old(self).stack()[n - 2]));
                    Ok(())
                }
            },
            Token::Drop => {
                if n < 1 {
                    Err(RuntimeFault::StackUnderflow(Token::Drop))
                } else {
                    self.stack.pop();
                    assert(final(self).stack() =~= old(self).stack().take(n - 1));
                    Ok(())
                }
            },
            _ => Err(RuntimeFault::NotExecutable(op.clone())),
        }
    }
}

} // verus!
