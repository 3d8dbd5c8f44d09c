use vstd::prelude::*;
use vstd::utf8::encode_utf8;
use crate::context::{bind, resolve, Binding};
use crate::interpreter::{advanced, done, eval, eval_from, eval_loop, failed, left, State};
use crate::lexer::{
    digits_end, lex_from, lex_spec, number_value, scan, skip_spaces, Scan, TokenView,
};
use crate::parser::{
    parse_list, parse_node, parse_spec, Node, ParseFault, ParsedList, ParsedNode, Stop,
};
use crate::stack_machine::{
    apply, arithmetic, binary, fits, holds, is_arithmetic, is_ordering, quotient, silent, Effect,
    LoopFrame, RuntimeFaultView, Value, MAX_LOOP_DEPTH,
};
use crate::stacky::{run_text, Ending, FaultView};
use crate::text::{decimal_digits, decimal_text, digit_char, digit_value, is_digit, is_space};

verus! {

/// The decimal digits of a number are digits, and there is at least one.
pub proof fn lemma_decimal_digits(n: nat)
    ensures
        decimal_digits(n).len() >= 1,
        forall|i: int| 0 <= i < decimal_digits(n).len() ==> is_digit(#[trigger] decimal_digits(n)[i]),
    decreases n,
{
    if n >= 10 {
        lemma_decimal_digits(n / 10);
    }
}

/// A run of digits ends where the first character stands that is no digit.
pub proof fn lemma_digits_end(s: Seq<char>, from: int, to: int)
    requires
        0 <= from <= to <= s.len(),
        forall|i: int| from <= i < to ==> is_digit(#[trigger] s[i]),
        to == s.len() || !is_digit(s[to]),
    ensures
        digits_end(s, from) == to,
    decreases to - from,
{
    if from < to {
        lemma_digits_end(s, from + 1, to);
    }
}

/// Read back, the decimal digits of a number stand for that number.
pub proof fn lemma_number_value(s: Seq<char>, from: int, n: nat)
    requires
        0 <= from,
        from + decimal_digits(n).len() <= s.len(),
        s.subrange(from, from + decimal_digits(n).len()) == decimal_digits(n),
    ensures
        number_value(s, from, from + decimal_digits(n).len()) == n,
    decreases n,
{
    let text = decimal_digits(n);
    let to = from + text.len();
    if n < 10 {
        assert(s[from] == s.subrange(from, to)[0]);
        assert(number_value(s, from, from) == 0);
        assert(digit_value(digit_char(n as int)) == n);
    } else {
        let head = decimal_digits(n / 10);
        assert(text == head.push(digit_char((n % 10) as int)));
        assert(s.subrange(from, to - 1) =~= head) by {
            assert forall|i: int| 0 <= i < head.len() implies s.subrange(from, to - 1)[i]
                == head[i] by {
                assert(s.subrange(from, to)[i] == text[i]);
            }
        }
        lemma_number_value(s, from, n / 10);
        assert(s[to - 1] == s.subrange(from, to)[to - 1 - from]);
        assert(digit_value(digit_char((n % 10) as int)) == n % 10);
    }
}

/// Whether `n` can be written as a number literal: its magnitude is a
/// 32-bit number.
pub open spec fn is_literal(n: int) -> bool {
    -i32::MAX <= n <= i32::MAX
}

/// Where the decimal text of `n` stands at `p` and no digit follows it, the
/// token there is the number `n`.
pub proof fn lemma_scan_literal(s: Seq<char>, p: int, n: int)
    requires
        0 <= p,
        is_literal(n),
        p + decimal_text(n).len() <= s.len(),
        s.subrange(p, p + decimal_text(n).len()) == decimal_text(n),
        p + decimal_text(n).len() == s.len() || !is_digit(s[p + decimal_text(n).len()]),
    ensures
        scan(s, p) == (Scan::Token {
            token: TokenView::Number(n as i32),
            next: p + decimal_text(n).len(),
        }),
{
    let text = decimal_text(n);
    let to = p + text.len();
    let magnitude = if n < 0 {
        (-n) as nat
    } else {
        n as nat
    };
    let from = if n < 0 {
        p + 1
    } else {
        p
    };
    lemma_decimal_digits(magnitude);
    assert(s[p] == s.subrange(p, to)[0]);
    assert(s.subrange(from, to) =~= decimal_digits(magnitude)) by {
        assert forall|i: int| 0 <= i < to - from implies s.subrange(from, to)[i] == decimal_digits(
            magnitude,
        )[i] by {
            assert(s.subrange(p, to)[i + from - p] == text[i + from - p]);
        }
    }
    assert forall|i: int| from <= i < to implies is_digit(#[trigger] s[i]) by {
        assert(s[i] == s.subrange(from, to)[i - from]);
    }
    lemma_digits_end(s, from, to);
    lemma_number_value(s, from, magnitude);
    assert(!is_space(s[p]));
    assert(skip_spaces(s, p) == p);
    if n < 0 {
        assert(s[p] == '-');
        assert(is_digit(s[p + 1]));
    } else {
        assert(is_digit(s[p]));
    }
}

/// White space before a token does not change the token.
pub proof fn lemma_scan_skips(s: Seq<char>, p: int)
    requires
        0 <= p < s.len(),
        is_space(s[p]),
    ensures
        scan(s, p) == scan(s, p + 1),
{
}

/// How an operation on two operands is written.
pub open spec fn operator_text(op: TokenView) -> Seq<char> {
    match op {
        TokenView::Add => seq!['+'],
        TokenView::Sub => seq!['-'],
        TokenView::Mul => seq!['*'],
        TokenView::Div => seq!['/'],
        TokenView::Lt => seq!['<'],
        TokenView::Gt => seq!['>'],
        TokenView::Lte => seq!['<', '='],
        TokenView::Gte => seq!['>', '='],
        TokenView::Eq => seq!['='],
        _ => seq!['=', '='],
    }
}

/// Whether `op` is an operation on two operands: arithmetic, an ordering,
/// or a test for equality.
pub open spec fn is_binary(op: TokenView) -> bool {
    is_arithmetic(op) || is_ordering(op) || op is Eq || op is DoubleEq
}

/// Where the text of an operation stands at `p` and a blank follows it, the
/// token there is that operation.
pub proof fn lemma_scan_operator(s: Seq<char>, p: int, op: TokenView)
    requires
        is_binary(op),
        0 <= p,
        p + operator_text(op).len() < s.len(),
        s.subrange(p, p + operator_text(op).len()) == operator_text(op),
        s[p + operator_text(op).len()] == ' ',
    ensures
        scan(s, p) == (Scan::Token { token: op, next: p + operator_text(op).len() }),
{
    let text = operator_text(op);
    let to = p + text.len();
    assert(s[p] == s.subrange(p, to)[0]);
    if text.len() == 2 {
        assert(s[p + 1] == s.subrange(p, to)[1]);
    }
    assert(skip_spaces(s, p) == p);
}

/// The text of the program that pushes `a`, pushes `b`, performs `op` and
/// writes the result: the two numbers in decimal, the operation and `.`,
/// with one blank between each two.
pub open spec fn binary_program(a: int, b: int, op: TokenView) -> Seq<char> {
    decimal_text(a) + seq![' '] + decimal_text(b) + seq![' '] + operator_text(op) + seq![' ', '.']
}

/// The tokens of that program.
pub open spec fn binary_tokens(a: int, b: int, op: TokenView) -> Seq<TokenView> {
    seq![
        TokenView::Number(a as i32),
        TokenView::Number(b as i32),
        op,
        TokenView::Emit,
        TokenView::EOF,
    ]
}

/// The tree of that program.
pub open spec fn binary_tree(a: int, b: int, op: TokenView) -> Node {
    Node::Expressions(
        seq![
            Node::Number(a as i32),
            Node::Number(b as i32),
            Node::Operation(op),
            Node::Operation(TokenView::Emit),
        ],
    )
}

/// Where the first number of the text `a b op .` ends.
pub open spec fn first_end(a: int) -> int {
    decimal_text(a).len() as int
}

/// Where the second number of the text `a b op .` ends.
pub open spec fn second_end(a: int, b: int) -> int {
    first_end(a) + 1 + decimal_text(b).len()
}

/// Where the operation of the text `a b op .` ends.
pub open spec fn operator_end(a: int, b: int, op: TokenView) -> int {
    second_end(a, b) + 1 + operator_text(op).len()
}

/// The decimal text of a number starts with a digit or with `-`, and is not
/// empty.
pub proof fn lemma_decimal_text(n: int)
    ensures
        decimal_text(n).len() >= 1,
        n < 0 ==> decimal_text(n).len() >= 2,
{
    lemma_decimal_digits(
        if n < 0 {
            (-n) as nat
        } else {
            n as nat
        },
    );
}

/// What stands where in the text `a b op .`.
pub proof fn lemma_program_layout(a: int, b: int, op: TokenView)
    requires
        is_binary(op),
    ensures
        ({
            let s = binary_program(a, b, op);
            let pa = first_end(a);
            let pb = second_end(a, b);
            let po = operator_end(a, b, op);
            &&& 0 < pa < pb < po
            &&& s.len() == po + 2
            &&& s.subrange(0, pa) == decimal_text(a)
            &&& s[pa] == ' '
            &&& s.subrange(pa + 1, pb) == decimal_text(b)
            &&& s[pb] == ' '
            &&& s.subrange(pb + 1, po) == operator_text(op)
            &&& s[po] == ' '
            &&& s[po + 1] == '.'
        }),
{
    let s = binary_program(a, b, op);
    let pa = first_end(a);
    let pb = second_end(a, b);
    let po = operator_end(a, b, op);
    lemma_decimal_text(a);
    lemma_decimal_text(b);
    assert(s.subrange(0, pa) =~= decimal_text(a));
    assert(s.subrange(pa + 1, pb) =~= decimal_text(b));
    assert(s.subrange(pb + 1, po) =~= operator_text(op));
}

/// The tokens that stand in the text `a b op .`, one after the other.
pub proof fn lemma_program_scans(a: int, b: int, op: TokenView)
    requires
        is_literal(a),
        is_literal(b),
        is_binary(op),
    ensures
        ({
            let s = binary_program(a, b, op);
            let pa = first_end(a);
            let pb = second_end(a, b);
            let po = operator_end(a, b, op);
            &&& 0 < pa < pb < po
            &&& s.len() == po + 2
            &&& scan(s, 0) == (Scan::Token { token: TokenView::Number(a as i32), next: pa })
            &&& scan(s, pa) == (Scan::Token { token: TokenView::Number(b as i32), next: pb })
            &&& scan(s, pb) == (Scan::Token { token: op, next: po })
            &&& scan(s, po) == (Scan::Token { token: TokenView::Emit, next: po + 2 })
            &&& scan(s, po + 2) == Scan::End
        }),
{
    let s = binary_program(a, b, op);
    let pa = first_end(a);
    let pb = second_end(a, b);
    let po = operator_end(a, b, op);
    lemma_program_layout(a, b, op);
    lemma_scan_literal(s, 0, a);
    lemma_scan_skips(s, pa);
    lemma_scan_literal(s, pa + 1, b);
    lemma_scan_skips(s, pb);
    lemma_scan_operator(s, pb + 1, op);
    lemma_scan_skips(s, po);
    assert(scan(s, po + 1) == (Scan::Token { token: TokenView::Emit, next: po + 2 })) by {
        assert(skip_spaces(s, po + 1) == po + 1);
    }
    assert(scan(s, po + 2) == Scan::End) by {
        assert(skip_spaces(s, po + 2) == po + 2);
    }
}

/// The text `a b op .` is lexed into two numbers, the operation, `.` and
/// the end marker.
pub proof fn lemma_lex_binary_program(a: int, b: int, op: TokenView)
    requires
        is_literal(a),
        is_literal(b),
        is_binary(op),
    ensures
        lex_spec(binary_program(a, b, op)) == Ok::<Seq<TokenView>, crate::lexer::LexFault>(
            binary_tokens(a, b, op),
        ),
{
    let s = binary_program(a, b, op);
    let pa = first_end(a);
    let pb = second_end(a, b);
    let po = operator_end(a, b, op);
    lemma_program_scans(a, b, op);
    let t4 = seq![TokenView::EOF];
    let t3 = seq![TokenView::Emit] + t4;
    let t2 = seq![op] + t3;
    let t1 = seq![TokenView::Number(b as i32)] + t2;
    let t0 = seq![TokenView::Number(a as i32)] + t1;
    assert(lex_from(s, po + 2) == Ok::<Seq<TokenView>, crate::lexer::LexFault>(t4));
    assert(lex_from(s, po) == Ok::<Seq<TokenView>, crate::lexer::LexFault>(t3));
    assert(lex_from(s, pb) == Ok::<Seq<TokenView>, crate::lexer::LexFault>(t2));
    assert(lex_from(s, pa) == Ok::<Seq<TokenView>, crate::lexer::LexFault>(t1));
    assert(lex_from(s, 0) == Ok::<Seq<TokenView>, crate::lexer::LexFault>(t0));
    assert(t0 =~= binary_tokens(a, b, op));
}

/// The tokens of `a b op .` are parsed into a list of two numbers and two
/// operations.
pub proof fn lemma_parse_binary_program(a: int, b: int, op: TokenView)
    requires
        is_binary(op),
    ensures
        parse_spec(binary_tokens(a, b, op)) == Ok::<Node, ParseFault>(
            binary_tree(a, b, op),
        ),
{
    let t = binary_tokens(a, b, op);
    let e = Seq::<Node>::empty();
    assert(parse_list(t, 4, Stop::Eof) == Ok::<ParsedList, ParseFault>(
        ParsedList { nodes: e, end: 4 },
    ));
    assert(parse_node(t, 3) == Ok::<ParsedNode, ParseFault>(
        ParsedNode { node: Node::Operation(TokenView::Emit), next: 4 },
    ));
    assert(parse_list(t, 3, Stop::Eof) == Ok::<ParsedList, ParseFault>(
        ParsedList { nodes: seq![Node::Operation(TokenView::Emit)] + e, end: 4 },
    ));
    assert(parse_node(t, 2) == Ok::<ParsedNode, ParseFault>(
        ParsedNode { node: Node::Operation(op), next: 3 },
    ));
    assert(parse_list(t, 2, Stop::Eof) == Ok::<ParsedList, ParseFault>(
        ParsedList {
            nodes: seq![Node::Operation(op)] + (seq![Node::Operation(TokenView::Emit)] + e),
            end: 4,
        },
    ));
    assert(parse_node(t, 1) == Ok::<ParsedNode, ParseFault>(
        ParsedNode { node: Node::Number(b as i32), next: 2 },
    ));
    assert(parse_list(t, 1, Stop::Eof) == Ok::<ParsedList, ParseFault>(
        ParsedList {
            nodes: seq![Node::Number(b as i32)] + (seq![Node::Operation(op)] + (seq![
                Node::Operation(TokenView::Emit),
            ] + e)),
            end: 4,
        },
    ));
    assert(parse_node(t, 0) == Ok::<ParsedNode, ParseFault>(
        ParsedNode { node: Node::Number(a as i32), next: 1 },
    ));
    assert(parse_list(t, 0, Stop::Eof) == Ok::<ParsedList, ParseFault>(
        ParsedList {
            nodes: seq![Node::Number(a as i32)] + (seq![Node::Number(b as i32)] + (seq![
                Node::Operation(op),
            ] + (seq![Node::Operation(TokenView::Emit)] + e))),
            end: 4,
        },
    ));
    assert(seq![Node::Number(a as i32)] + (seq![Node::Number(b as i32)] + (seq![
        Node::Operation(op),
    ] + (seq![Node::Operation(TokenView::Emit)] + e))) =~= seq![
        Node::Number(a as i32),
        Node::Number(b as i32),
        Node::Operation(op),
        Node::Operation(TokenView::Emit),
    ]);
}

/// A run that ended without a fault and changed the state `st` in one
/// thing only: it wrote `text`.
pub open spec fn wrote(st: State, text: Seq<char>) -> Ending {
    Ending { state: State { out: st.out + encode_utf8(text), ..st }, fault: None }
}

/// A run that `fault` aborted when `a` and `b` had been pushed and nothing
/// had been written.
pub open spec fn aborted(st: State, a: i32, b: i32, fault: RuntimeFaultView) -> Ending {
    Ending {
        state: State { stack: st.stack.push(Value::Number(a)).push(Value::Number(b)), ..st },
        fault: Some(FaultView::Runtime(fault)),
    }
}

/// What running the text `a b op .` leads to, for an arithmetic operation
/// or an ordering: the result of the operation is written and nothing else
/// changes; or the operation faults, with its operands on the stack.
pub proof fn lemma_run_binary_program(a: i32, b: i32, op: TokenView, st: State, depth: nat)
    requires
        is_literal(a as int),
        is_literal(b as int),
        is_arithmetic(op) || is_ordering(op),
    ensures
        run_text(binary_program(a as int, b as int, op), st, depth) == match binary(
            op,
            Value::Number(a),
            Value::Number(b),
        ) {
            Ok(v) => wrote(st, decimal_text(v->Number_0 as int)),
            Err(fault) => aborted(st, a, b, fault),
        },
{
    lemma_lex_binary_program(a as int, b as int, op);
    lemma_parse_binary_program(a as int, b as int, op);
    let list = seq![
        Node::Number(a),
        Node::Number(b),
        Node::Operation(op),
        Node::Operation(TokenView::Emit),
    ];
    let st1 = State { stack: st.stack.push(Value::Number(a)), ..st };
    let st2 = State { stack: st1.stack.push(Value::Number(b)), ..st };
    assert(eval(list[0], st, depth).state == st1);
    assert(eval(list[1], st1, depth).state == st2);
    let n = st2.stack.len() as int;
    assert(st2.stack[n - 2] == Value::Number(a));
    assert(st2.stack[n - 1] == Value::Number(b));
    assert(encode_utf8(Seq::<char>::empty()) =~= Seq::<u8>::empty());
    assert(st.out + Seq::<u8>::empty() =~= st.out);
    match binary(op, Value::Number(a), Value::Number(b)) {
        Ok(v) => {
            let text = decimal_text(v->Number_0 as int);
            let st3 = State { stack: st.stack.push(v), ..st };
            assert(st2.stack.take(n - 2) =~= st.stack);
            assert(apply(op, st2.stack) == silent(st.stack.push(v)));
            assert(eval(list[2], st2, depth).state == st3);
            assert(eval(list[2], st2, depth).fault is None);
            assert(st3.stack.take(st3.stack.len() - 1) =~= st.stack);
            assert(apply(TokenView::Emit, st3.stack) == Ok::<Effect, RuntimeFaultView>(
                Effect { stack: st.stack, text },
            ));
            let st4 = State { out: st.out + encode_utf8(text), ..st };
            assert(eval(list[3], st3, depth).state == st4);
            assert(eval_from(list, 4, st4, depth).state == st4);
            assert(eval_from(list, 3, st3, depth) == eval_from(list, 4, st4, depth));
            assert(eval_from(list, 2, st2, depth) == eval_from(list, 3, st3, depth));
            assert(eval_from(list, 1, st1, depth) == eval_from(list, 2, st2, depth));
            assert(eval_from(list, 0, st, depth) == eval_from(list, 1, st1, depth));
        },
        Err(fault) => {
            assert(apply(op, st2.stack) == Err::<Effect, RuntimeFaultView>(fault));
            assert(eval(list[2], st2, depth).fault == Some(fault));
            assert(eval_from(list, 2, st2, depth) == eval(list[2], st2, depth));
            assert(eval_from(list, 1, st1, depth) == eval_from(list, 2, st2, depth));
            assert(eval_from(list, 0, st, depth) == eval_from(list, 1, st1, depth));
        },
    }
}

/// Adding: for all numbers `a` and `b` whose sum is a 32-bit number,
/// running `a b + .` writes the decimal text of `a + b` and changes nothing
/// else.
pub proof fn law_addition(a: i32, b: i32, st: State, depth: nat)
    requires
        is_literal(a as int),
        is_literal(b as int),
        fits(a + b),
    ensures
        run_text(binary_program(a as int, b as int, TokenView::Add), st, depth) == wrote(
            st,
            decimal_text(a + b),
        ),
{
    lemma_run_binary_program(a, b, TokenView::Add, st, depth);
}

/// Subtracting: for all numbers `a` and `b` whose difference is a 32-bit
/// number, running `a b - .` writes the decimal text of `a - b`, the first
/// minus the second.
pub proof fn law_subtraction(a: i32, b: i32, st: State, depth: nat)
    requires
        is_literal(a as int),
        is_literal(b as int),
        fits(a - b),
    ensures
        run_text(binary_program(a as int, b as int, TokenView::Sub), st, depth) == wrote(
            st,
            decimal_text(a - b),
        ),
{
    lemma_run_binary_program(a, b, TokenView::Sub, st, depth);
}

/// Multiplying: for all numbers `a` and `b` whose product is a 32-bit
/// number, running `a b * .` writes the decimal text of `a * b`.
pub proof fn law_multiplication(a: i32, b: i32, st: State, depth: nat)
    requires
        is_literal(a as int),
        is_literal(b as int),
        fits(a * b),
    ensures
        run_text(binary_program(a as int, b as int, TokenView::Mul), st, depth) == wrote(
            st,
            decimal_text(a * b),
        ),
{
    lemma_run_binary_program(a, b, TokenView::Mul, st, depth);
}

/// Dividing: for all numbers `a` and `b` with `b` other than zero, running
/// `a b / .` writes the decimal text of `a` divided by `b`, the first by the
/// second, rounded toward zero.
pub proof fn law_division(a: i32, b: i32, st: State, depth: nat)
    requires
        is_literal(a as int),
        is_literal(b as int),
        b != 0,
    ensures
        run_text(binary_program(a as int, b as int, TokenView::Div), st, depth) == wrote(
            st,
            decimal_text(quotient(a as int, b as int)),
        ),
        a >= 0 && b > 0 ==> quotient(a as int, b as int) == a as int / b as int,
        -quotient(a as int, b as int) == quotient(-a as int, b as int),
        -quotient(a as int, b as int) == quotient(a as int, -b as int),
{
    lemma_quotient_bound(a as int, b as int);
    lemma_run_binary_program(a, b, TokenView::Div, st, depth);
}

/// The quotient is no larger in magnitude than the dividend.
pub proof fn lemma_quotient_bound(a: int, b: int)
    requires
        b != 0,
    ensures
        a >= 0 ==> -a <= quotient(a, b) <= a,
        a <= 0 ==> a <= quotient(a, b) <= -a,
{
    let x = if a >= 0 { a } else { -a };
    let y = if b > 0 { b } else { -b };
    assert(0 <= x / y <= x) by (nonlinear_arith)
        requires
            x >= 0,
            y > 0,
    ;
}

/// Dividing by zero: for every number `a`, running `a 0 / .` is aborted by
/// the fault `DivisionByZero` and writes nothing.
pub proof fn law_division_by_zero(a: i32, st: State, depth: nat)
    requires
        is_literal(a as int),
    ensures
        run_text(binary_program(a as int, 0, TokenView::Div), st, depth) == aborted(
            st,
            a,
            0,
            RuntimeFaultView::DivisionByZero,
        ),
{
    lemma_run_binary_program(a, 0, TokenView::Div, st, depth);
}

/// Comparing: for all numbers `a < b`, running `a b < .` writes `1` and
/// running `b a < .` writes `0`.
pub proof fn law_less_than(a: i32, b: i32, st: State, depth: nat)
    requires
        is_literal(a as int),
        is_literal(b as int),
        a < b,
    ensures
        run_text(binary_program(a as int, b as int, TokenView::Lt), st, depth) == wrote(
            st,
            seq!['1'],
        ),
        run_text(binary_program(b as int, a as int, TokenView::Lt), st, depth) == wrote(
            st,
            seq!['0'],
        ),
{
    lemma_run_binary_program(a, b, TokenView::Lt, st, depth);
    lemma_run_binary_program(b, a, TokenView::Lt, st, depth);
    assert(decimal_text(1) =~= seq!['1']);
    assert(decimal_text(0) =~= seq!['0']);
}

/// Comparing: for all numbers `a` and `b`, running `a b op .` for an
/// ordering `op` writes `1` where `a op b` holds and `0` where it does not.
pub proof fn law_ordering(a: i32, b: i32, op: TokenView, st: State, depth: nat)
    requires
        is_literal(a as int),
        is_literal(b as int),
        is_ordering(op),
    ensures
        run_text(binary_program(a as int, b as int, op), st, depth) == wrote(
            st,
            if holds(op, a as int, b as int) {
                seq!['1']
            } else {
                seq!['0']
            },
        ),
{
    lemma_run_binary_program(a, b, op, st, depth);
    assert(decimal_text(1) =~= seq!['1']);
    assert(decimal_text(0) =~= seq!['0']);
}

/// `<=` and `>=` hold between a number and itself: for every number `a`,
/// running `a a <= .` writes `1`, and so does running `a a >= .`.
pub proof fn law_reflexive(a: i32, st: State, depth: nat)
    requires
        is_literal(a as int),
    ensures
        run_text(binary_program(a as int, a as int, TokenView::Lte), st, depth) == wrote(
            st,
            seq!['1'],
        ),
        run_text(binary_program(a as int, a as int, TokenView::Gte), st, depth) == wrote(
            st,
            seq!['1'],
        ),
{
    law_ordering(a, a, TokenView::Lte, st, depth);
    law_ordering(a, a, TokenView::Gte, st, depth);
}

/// Calling a name that is bound in no scope is aborted by the fault
/// `UndefinedWord`, which holds that name, and changes nothing.
pub proof fn law_undefined_word(name: Seq<char>, st: State, depth: nat)
    requires
        resolve(st.env, name) is None,
    ensures
        eval(Node::FunctionCall(name), st, depth) == failed(
            st,
            RuntimeFaultView::UndefinedWord(name),
        ),
        eval(Node::GetVariable(name), st, depth) == failed(
            st,
            RuntimeFaultView::UndefinedWord(name),
        ),
{
}

/// A loop whose start is not below its limit does nothing but take the two
/// from the stack: its body is not evaluated and nothing is written.
pub proof fn law_empty_loop(body: Seq<Node>, limit: i32, start: i32, st: State, depth: nat)
    requires
        start >= limit,
        st.stack.len() >= 2,
        st.stack[st.stack.len() - 2] == Value::Number(limit),
        st.stack[st.stack.len() - 1] == Value::Number(start),
        st.loops.len() < MAX_LOOP_DEPTH,
    ensures
        eval(Node::Loop { body }, st, depth) == done(
            State { stack: st.stack.take(st.stack.len() - 2), ..st },
        ),
{
    let frame = LoopFrame { limit, index: start };
    let inside = State {
        stack: st.stack.take(st.stack.len() - 2),
        loops: st.loops.push(frame),
        ..st
    };
    assert(left(inside.loops) =~= st.loops);
    assert(eval_loop(body, inside, start as int, limit as int, depth) == done(
        State { loops: left(inside.loops), ..inside },
    ));
}

/// `piece`, `times` times in a row.
pub open spec fn repeated(piece: Seq<u8>, times: nat) -> Seq<u8>
    decreases times,
{
    if times == 0 {
        Seq::empty()
    } else {
        piece + repeated(piece, (times - 1) as nat)
    }
}

/// How often a loop from `start` up to `limit` evaluates its body.
pub open spec fn rounds(limit: int, start: int) -> nat {
    if start < limit {
        (limit - start) as nat
    } else {
        0
    }
}

/// Whether evaluating `body` does nothing but write `piece`, in whatever
/// state.
pub open spec fn only_writes(body: Seq<Node>, piece: Seq<u8>, depth: nat) -> bool {
    forall|s: State| #[trigger]
        eval_from(body, 0, s, depth) == done(State { out: s.out + piece, ..s })
}

/// The rest of a loop whose body only writes `piece` writes it once for
/// each index that is left, and pops the loop's frame.
proof fn lemma_loop_repeats(
    body: Seq<Node>,
    piece: Seq<u8>,
    st: State,
    index: int,
    limit: int,
    depth: nat,
)
    requires
        only_writes(body, piece, depth),
        st.loops.len() > 0,
    ensures
        eval_loop(body, st, index, limit, depth) == done(
            State {
                loops: st.loops.drop_last(),
                out: st.out + repeated(piece, rounds(limit, index)),
                ..st
            },
        ),
    decreases rounds(limit, index),
{
    if index < limit {
        let after = State { out: st.out + piece, ..st };
        assert(eval_from(body, 0, st, depth) == done(after));
        let next = State { loops: advanced(after.loops, (index + 1) as i32), ..after };
        lemma_loop_repeats(body, piece, next, index + 1, limit, depth);
        assert(next.loops.drop_last() =~= st.loops.drop_last());
        assert((st.out + piece) + repeated(piece, rounds(limit, index + 1)) =~= st.out + repeated(
            piece,
            rounds(limit, index),
        ));
    } else {
        assert(st.out + repeated(piece, 0) =~= st.out);
    }
}

/// A counted loop evaluates its body once for each index from its start up
/// to, and without, its limit: where the body does nothing but write
/// `piece`, the loop takes its two bounds from the stack and writes `piece`
/// `limit - start` times, or not at all where the start is not below the
/// limit.
pub proof fn law_loop_repeats(
    body: Seq<Node>,
    piece: Seq<u8>,
    limit: i32,
    start: i32,
    st: State,
    depth: nat,
)
    requires
        only_writes(body, piece, depth),
        st.stack.len() >= 2,
        st.stack[st.stack.len() - 2] == Value::Number(limit),
        st.stack[st.stack.len() - 1] == Value::Number(start),
        st.loops.len() < MAX_LOOP_DEPTH,
    ensures
        eval(Node::Loop { body }, st, depth) == done(
            State {
                stack: st.stack.take(st.stack.len() - 2),
                out: st.out + repeated(piece, rounds(limit as int, start as int)),
                ..st
            },
        ),
{
    let inside = State {
        stack: st.stack.take(st.stack.len() - 2),
        loops: st.loops.push(LoopFrame { limit, index: start }),
        ..st
    };
    lemma_loop_repeats(body, piece, inside, start as int, limit as int, depth);
    assert(inside.loops.drop_last() =~= st.loops);
}

/// The loop body `1 .` does nothing but write `1`.
pub proof fn lemma_one_only_writes(depth: nat)
    ensures
        only_writes(
            seq![Node::Number(1), Node::Operation(TokenView::Emit)],
            encode_utf8(seq!['1']),
            depth,
        ),
{
    let body = seq![Node::Number(1), Node::Operation(TokenView::Emit)];
    assert(decimal_text(1) =~= seq!['1']);
    assert forall|s: State| #[trigger]
        eval_from(body, 0, s, depth) == done(
            State { out: s.out + encode_utf8(seq!['1']), ..s },
        ) by {
        let s1 = State { stack: s.stack.push(Value::Number(1)), ..s };
        let s2 = State { out: s.out + encode_utf8(seq!['1']), ..s };
        assert(eval(body[0], s, depth) == done(s1));
        assert(s1.stack.take(s1.stack.len() - 1) =~= s.stack);
        assert(apply(TokenView::Emit, s1.stack) == Ok::<Effect, RuntimeFaultView>(
            Effect { stack: s.stack, text: seq!['1'] },
        ));
        assert(eval(body[1], s1, depth) == done(s2));
        assert(eval_from(body, 2, s2, depth) == done(s2));
        assert(eval_from(body, 1, s1, depth) == done(s2));
    }
}

/// The loop `DO 1 . LOOP` with the limit and the start on the stack writes
/// `1` once for each index from the start up to below the limit.
pub proof fn law_loop_of_ones(limit: i32, start: i32, st: State, depth: nat)
    requires
        st.stack.len() >= 2,
        st.stack[st.stack.len() - 2] == Value::Number(limit),
        st.stack[st.stack.len() - 1] == Value::Number(start),
        st.loops.len() < MAX_LOOP_DEPTH,
    ensures
        eval(
            Node::Loop { body: seq![Node::Number(1), Node::Operation(TokenView::Emit)] },
            st,
            depth,
        ) == done(
            State {
                stack: st.stack.take(st.stack.len() - 2),
                out: st.out + repeated(
                    encode_utf8(seq!['1']),
                    rounds(limit as int, start as int),
                ),
                ..st
            },
        ),
{
    lemma_one_only_writes(depth);
    law_loop_repeats(
        seq![Node::Number(1), Node::Operation(TokenView::Emit)],
        encode_utf8(seq!['1']),
        limit,
        start,
        st,
        depth,
    );
}

/// Defining a word and calling it evaluates its body: the definition binds
/// the name, and the call evaluates the body in the state with that
/// binding, one call deeper.
pub proof fn law_define_then_call(name: Seq<char>, body: Seq<Node>, st: State, depth: nat)
    requires
        st.env.len() >= 1,
        depth >= 1,
    ensures
        eval_from(
            seq![Node::WordDefinition { name, body }, Node::FunctionCall(name)],
            0,
            st,
            depth,
        ) == eval_from(
            body,
            0,
            State { env: bind(st.env, name, Binding::Function { body }), ..st },
            (depth - 1) as nat,
        ),
{
    let list = seq![Node::WordDefinition { name, body }, Node::FunctionCall(name)];
    let defined = State { env: bind(st.env, name, Binding::Function { body }), ..st };
    assert(eval(list[0], st, depth) == done(defined));
    assert(resolve(defined.env, name) == Some(Binding::Function { body }));
    let o = eval(list[1], defined, depth);
    assert(o == eval_from(body, 0, defined, (depth - 1) as nat));
    assert(eval_from(list, 2, o.state, depth) == done(o.state));
    assert(eval_from(list, 1, defined, depth) == o);
}

/// A conditional takes the number on top of the stack and evaluates its
/// first branch where the number is 1, and its second branch where it is
/// any other number.
pub proof fn law_conditional(
    if_body: Seq<Node>,
    else_body: Seq<Node>,
    condition: i32,
    st: State,
    depth: nat,
)
    requires
        st.stack.len() >= 1,
        st.stack.last() == Value::Number(condition),
    ensures
        eval(Node::If { if_body, else_body }, st, depth) == eval_from(
            if condition == 1 {
                if_body
            } else {
                else_body
            },
            0,
            State { stack: st.stack.drop_last(), ..st },
            depth,
        ),
{
}

/// The operations that shuffle the stack: `DUP` pushes the top once more,
/// `SWAP` exchanges the top two, `DROP` takes the top away. None of them
/// writes.
pub proof fn law_shuffles(stack: Seq<Value>, x: Value, y: Value)
    ensures
        apply(TokenView::Dup, stack.push(x)) == silent(stack.push(x).push(x)),
        apply(TokenView::Swap, stack.push(x).push(y)) == silent(stack.push(y).push(x)),
        apply(TokenView::Drop, stack.push(x)) == silent(stack),
{
    assert(stack.push(x).push(y).take(stack.len() as int) =~= stack);
    assert(stack.push(x).take(stack.len() as int) =~= stack);
}

/// A `:` that no identifier follows is a fault of the parser, which tells
/// where the identifier should stand.
pub proof fn law_missing_identifier(tokens: Seq<TokenView>, pos: int)
    requires
        0 <= pos < tokens.len(),
        tokens[pos] is Colon,
        pos + 1 >= tokens.len() || !(tokens[pos + 1] is Identifier),
    ensures
        parse_node(tokens, pos) == Err::<ParsedNode, ParseFault>(
            ParseFault::ExpectedIdentifier { position: (pos + 1) as usize },
        ),
        pos == 0 ==> parse_spec(tokens) == Err::<Node, ParseFault>(
            ParseFault::ExpectedIdentifier { position: 1 },
        ),
{
}

} // verus!
