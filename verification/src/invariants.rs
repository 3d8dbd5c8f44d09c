use vstd::prelude::*;
use vstd::utf8::encode_utf8;
use crate::context::{bind, resolve, Binding, Scope};
use crate::interpreter::{advanced, eval, eval_from, eval_loop, left, Outcome, State};
use crate::lexer::TokenView;
use crate::parser::{canonical, is_operation, law_parse_well_formed, parse_spec, Node};
use crate::stack_machine::{
    apply, number_from_top, LoopFrame, RuntimeFaultView, MAX_LOOP_DEPTH,
};

verus! {

/// Whether a run may lead from the state `before` to the state `after`:
/// what was written stays and is only added to, and the scopes around the
/// innermost one stay as they are.
pub open spec fn follows(before: State, after: State) -> bool {
    &&& before.out.len() <= after.out.len()
    &&& after.out.take(before.out.len() as int) == before.out
    &&& after.env.len() == before.env.len()
    &&& forall|i: int| 1 <= i < before.env.len() ==> after.env[i] == before.env[i]
}

/// What holds of every evaluation: it only adds to the output, binds names
/// in the innermost scope only, and, where it ends without a fault, leaves
/// the active loops as it found them.
pub open spec fn orderly(before: State, o: Outcome) -> bool {
    &&& follows(before, o.state)
    &&& o.fault is None ==> o.state.loops == before.loops
}

/// What follows a state that follows another follows that one too.
proof fn lemma_follows_chain(a: State, b: State, c: State)
    requires
        follows(a, b),
        follows(b, c),
    ensures
        follows(a, c),
{
    assert(c.out.take(a.out.len() as int) =~= c.out.take(b.out.len() as int).take(
        a.out.len() as int,
    ));
}

/// Every evaluation is orderly: the output only grows, the outer scopes are
/// never changed, and a node that is evaluated to its end leaves the loop
/// stack as it was.
pub proof fn law_eval_orderly(node: Node, st: State, depth: nat)
    requires
        st.env.len() >= 1,
    ensures
        orderly(st, eval(node, st, depth)),
    decreases depth, node, 0nat,
{
    assert(st.out.take(st.out.len() as int) =~= st.out);
    match node {
        Node::Operation(op) => {
            if let Ok(effect) = apply(op, st.stack) {
                let out = st.out + encode_utf8(effect.text);
                assert(out.take(st.out.len() as int) =~= st.out);
            }
        },
        Node::Expressions(list) => {
            lemma_eval_from_orderly(list, 0, st, depth);
        },
        Node::FunctionCall(name) => {
            if let Some(Binding::Function { body }) = resolve(st.env, name) {
                if depth > 0 {
                    lemma_eval_from_orderly(body, 0, st, (depth - 1) as nat);
                }
            }
        },
        Node::If { if_body, else_body } => {
            let popped = State { stack: st.stack.drop_last(), ..st };
            lemma_eval_from_orderly(if_body, 0, popped, depth);
            lemma_eval_from_orderly(else_body, 0, popped, depth);
        },
        Node::Loop { body } => {
            if let (Some(limit), Some(index)) = (
                number_from_top(st.stack, 1),
                number_from_top(st.stack, 0),
            ) {
                if st.loops.len() < MAX_LOOP_DEPTH {
                    let inside = State {
                        stack: st.stack.take(st.stack.len() - 2),
                        loops: st.loops.push(LoopFrame { limit, index }),
                        ..st
                    };
                    lemma_eval_loop_orderly(body, inside, index as int, limit as int, depth);
                    assert(left(inside.loops) =~= st.loops);
                }
            }
        },
        _ => {},
    }
}

/// A list of nodes is evaluated in an orderly way.
pub proof fn lemma_eval_from_orderly(list: Seq<Node>, i: int, st: State, depth: nat)
    requires
        st.env.len() >= 1,
    ensures
        orderly(st, eval_from(list, i, st, depth)),
    decreases depth, list, list.len() - i,
{
    assert(st.out.take(st.out.len() as int) =~= st.out);
    if 0 <= i < list.len() {
        law_eval_orderly(list[i], st, depth);
        let o = eval(list[i], st, depth);
        if o.fault is None {
            lemma_eval_from_orderly(list, i + 1, o.state, depth);
            lemma_follows_chain(st, o.state, eval_from(list, i + 1, o.state, depth).state);
        }
    }
}

/// A loop is evaluated in an orderly way, and at its end its frame is gone.
pub proof fn lemma_eval_loop_orderly(
    body: Seq<Node>,
    st: State,
    index: int,
    limit: int,
    depth: nat,
)
    requires
        st.env.len() >= 1,
        limit <= i32::MAX,
    ensures
        follows(st, eval_loop(body, st, index, limit, depth).state),
        eval_loop(body, st, index, limit, depth).fault is None ==> eval_loop(
            body,
            st,
            index,
            limit,
            depth,
        ).state.loops == left(st.loops),
    decreases depth, body, body.len() + 1 + if index < limit {
        limit - index
    } else {
        0
    },
{
    assert(st.out.take(st.out.len() as int) =~= st.out);
    if index < limit {
        lemma_eval_from_orderly(body, 0, st, depth);
        let o = eval_from(body, 0, st, depth);
        if o.fault is None {
            let next = State { loops: advanced(o.state.loops, (index + 1) as i32), ..o.state };
            lemma_eval_loop_orderly(body, next, index + 1, limit, depth);
            lemma_follows_chain(st, next, eval_loop(body, next, index + 1, limit, depth).state);
            assert(left(next.loops) =~= left(st.loops));
        }
    }
}

/// While the body of a loop is evaluated to its end, the frame of the loop
/// stays as it is: the index that the loop goes on from is the index in its
/// frame.
pub proof fn law_loop_frame(body: Seq<Node>, st: State, depth: nat)
    requires
        st.env.len() >= 1,
        st.loops.len() >= 1,
        eval_from(body, 0, st, depth).fault is None,
    ensures
        eval_from(body, 0, st, depth).state.loops.last() == st.loops.last(),
{
    lemma_eval_from_orderly(body, 0, st, depth);
}

/// Whether every operation in the tree is an operation of the stack
/// machine.
pub open spec fn executable(node: Node) -> bool
    decreases node,
{
    match node {
        Node::Operation(token) => is_operation(token),
        Node::Expressions(list) => forall|i: int|
            0 <= i < list.len() ==> executable(#[trigger] list[i]),
        Node::WordDefinition { name, body } => forall|i: int|
            0 <= i < body.len() ==> executable(#[trigger] body[i]),
        Node::If { if_body, else_body } => (forall|i: int|
            0 <= i < if_body.len() ==> executable(#[trigger] if_body[i])) && (forall|i: int|
            0 <= i < else_body.len() ==> executable(#[trigger] else_body[i])),
        Node::Loop { body } => forall|i: int|
            0 <= i < body.len() ==> executable(#[trigger] body[i]),
        _ => true,
    }
}

/// Whether each tree of the list is executable.
pub open spec fn all_executable(list: Seq<Node>) -> bool {
    forall|i: int| 0 <= i < list.len() ==> executable(#[trigger] list[i])
}

/// Whether the body of each word in the scopes is executable.
pub open spec fn words_executable(env: Seq<Scope>) -> bool {
    forall|i: int, name: Seq<char>|
        0 <= i < env.len() && #[trigger] env[i].contains_key(name) ==> (
        env[i][name] matches Binding::Function { body } ==> all_executable(body))
}

/// A canonical node is executable.
pub proof fn lemma_canonical_executable(node: Node)
    requires
        canonical(node),
    ensures
        executable(node),
    decreases node,
{
    match node {
        Node::WordDefinition { name, body } => {
            assert forall|i: int| 0 <= i < body.len() implies executable(#[trigger] body[i]) by {
                lemma_canonical_executable(body[i]);
            }
        },
        Node::If { if_body, else_body } => {
            assert forall|i: int| 0 <= i < if_body.len() implies executable(
                #[trigger] if_body[i],
            ) by {
                lemma_canonical_executable(if_body[i]);
            }
            assert forall|i: int| 0 <= i < else_body.len() implies executable(
                #[trigger] else_body[i],
            ) by {
                lemma_canonical_executable(else_body[i]);
            }
        },
        Node::Loop { body } => {
            assert forall|i: int| 0 <= i < body.len() implies executable(#[trigger] body[i]) by {
                lemma_canonical_executable(body[i]);
            }
        },
        _ => {},
    }
}

/// The body of a word that is found in executable scopes is executable.
proof fn lemma_resolve_executable(env: Seq<Scope>, name: Seq<char>)
    requires
        words_executable(env),
    ensures
        resolve(env, name) matches Some(Binding::Function { body }) ==> all_executable(body),
    decreases env.len(),
{
    if env.len() > 0 {
        if env[0].contains_key(name) {
        } else {
            let rest = env.drop_first();
            assert forall|i: int, n: Seq<char>|
                0 <= i < rest.len() && #[trigger] rest[i].contains_key(n) implies (
            rest[i][n] matches Binding::Function { body } ==> all_executable(body)) by {
                assert(rest[i] == env[i + 1]);
                assert(env[i + 1].contains_key(n));
            }
            lemma_resolve_executable(rest, name);
        }
    }
}

/// Binding a name to a value, or to a body that is executable, keeps the
/// scopes executable.
proof fn lemma_bind_executable(env: Seq<Scope>, name: Seq<char>, binding: Binding)
    requires
        env.len() >= 1,
        words_executable(env),
        binding matches Binding::Function { body } ==> all_executable(body),
    ensures
        words_executable(bind(env, name, binding)),
{
    let bound = bind(env, name, binding);
    assert forall|i: int, n: Seq<char>|
        0 <= i < bound.len() && #[trigger] bound[i].contains_key(n) implies (
    bound[i][n] matches Binding::Function { body } ==> all_executable(body)) by {
        if i == 0 && n == name {
        } else {
            assert(env[i].contains_key(n));
            assert(bound[i][n] == env[i][n]);
        }
    }
}

/// An executable tree is evaluated without the fault `NotExecutable`,
/// where the words in scope are executable; and they stay so.
pub proof fn lemma_eval_executable(node: Node, st: State, depth: nat)
    requires
        executable(node),
        words_executable(st.env),
        st.env.len() >= 1,
    ensures
        words_executable(eval(node, st, depth).state.env),
        eval(node, st, depth).state.env.len() >= 1,
        !(eval(node, st, depth).fault matches Some(RuntimeFaultView::NotExecutable(_))),
    decreases depth, node, 0nat,
{
    match node {
        Node::Expressions(list) => {
            lemma_eval_from_executable(list, 0, st, depth);
        },
        Node::WordDefinition { name, body } => {
            lemma_bind_executable(st.env, name, Binding::Function { body });
        },
        Node::FunctionCall(name) => {
            lemma_resolve_executable(st.env, name);
            if let Some(Binding::Function { body }) = resolve(st.env, name) {
                if depth > 0 {
                    lemma_eval_from_executable(body, 0, st, (depth - 1) as nat);
                }
            }
        },
        Node::If { if_body, else_body } => {
            let popped = State { stack: st.stack.drop_last(), ..st };
            lemma_eval_from_executable(if_body, 0, popped, depth);
            lemma_eval_from_executable(else_body, 0, popped, depth);
        },
        Node::Loop { body } => {
            if let (Some(limit), Some(index)) = (
                number_from_top(st.stack, 1),
                number_from_top(st.stack, 0),
            ) {
                if st.loops.len() < MAX_LOOP_DEPTH {
                    let inside = State {
                        stack: st.stack.take(st.stack.len() - 2),
                        loops: st.loops.push(LoopFrame { limit, index }),
                        ..st
                    };
                    lemma_eval_loop_executable(body, inside, index as int, limit as int, depth);
                }
            }
        },
        Node::SetVariable(name) => {
            if st.stack.len() > 0 {
                lemma_bind_executable(st.env, name, Binding::Variable(st.stack.last()));
            }
        },
        _ => {},
    }
}

/// A list of executable trees is evaluated without the fault
/// `NotExecutable`.
pub proof fn lemma_eval_from_executable(list: Seq<Node>, i: int, st: State, depth: nat)
    requires
        all_executable(list),
        words_executable(st.env),
        st.env.len() >= 1,
    ensures
        words_executable(eval_from(list, i, st, depth).state.env),
        eval_from(list, i, st, depth).state.env.len() >= 1,
        !(eval_from(list, i, st, depth).fault matches Some(RuntimeFaultView::NotExecutable(_))),
    decreases depth, list, list.len() - i,
{
    if 0 <= i < list.len() {
        lemma_eval_executable(list[i], st, depth);
        let o = eval(list[i], st, depth);
        if o.fault is None {
            lemma_eval_from_executable(list, i + 1, o.state, depth);
        }
    }
}

/// A loop with an executable body is evaluated without the fault
/// `NotExecutable`.
pub proof fn lemma_eval_loop_executable(
    body: Seq<Node>,
    st: State,
    index: int,
    limit: int,
    depth: nat,
)
    requires
        all_executable(body),
        words_executable(st.env),
        st.env.len() >= 1,
    ensures
        words_executable(eval_loop(body, st, index, limit, depth).state.env),
        eval_loop(body, st, index, limit, depth).state.env.len() >= 1,
        !(eval_loop(body, st, index, limit, depth).fault matches Some(
            RuntimeFaultView::NotExecutable(_),
        )),
    decreases depth, body, body.len() + 1 + if index < limit {
        limit - index
    } else {
        0
    },
{
    if index < limit {
        lemma_eval_from_executable(body, 0, st, depth);
        let o = eval_from(body, 0, st, depth);
        if o.fault is None {
            let next = State { loops: advanced(o.state.loops, (index + 1) as i32), ..o.state };
            lemma_eval_loop_executable(body, next, index + 1, limit, depth);
        }
    }
}

/// No run of a parsed program meets a token that is no operation: where
/// the tokens are a program and the words in scope are executable, as they
/// are in an empty scope, evaluating the program is never aborted by the
/// fault `NotExecutable`.
pub proof fn law_parsed_program_executable(tokens: Seq<TokenView>, st: State, depth: nat)
    requires
        words_executable(st.env),
        st.env.len() >= 1,
    ensures
        parse_spec(tokens) matches Ok(node) ==> !(eval(node, st, depth).fault matches Some(
            RuntimeFaultView::NotExecutable(_),
        )),
{
    if let Ok(node) = parse_spec(tokens) {
        law_parse_well_formed(tokens);
        let list = node->Expressions_0;
        assert forall|i: int| 0 <= i < list.len() implies executable(#[trigger] list[i]) by {
            lemma_canonical_executable(list[i]);
        }
        lemma_eval_executable(node, st, depth);
    }
}

} // verus!
