use vstd::prelude::*;
use vstd::utf8::encode_utf8;
use crate::context::{bind, resolve, Binding, Context, Scope, Variable};
use crate::parser::{clone_list, lemma_nodes_of, nodes_of, Ast, Node};
use crate::stack_machine::{
    apply, loop_value, number_from_top, Entity, LoopFrame, RuntimeFault, RuntimeFaultView,
    StackMachine, Value, MAX_LOOP_DEPTH,
};
use crate::text::chars_of;

verus! {

/// How deep word calls may nest in an interpreter made by
/// [`Interpreter::new`].
pub const DEFAULT_CALL_DEPTH: usize = 1024;

/// Everything a run works on.
pub struct State {
    /// The data stack; its last item is the top.
    pub stack: Seq<Value>,
    /// The active loops; the last is the innermost.
    pub loops: Seq<LoopFrame>,
    /// The chain of scopes, innermost first.
    pub env: Seq<Scope>,
    /// The bytes written so far.
    pub out: Seq<u8>,
}

/// How an evaluation ended: the state it reached, and the fault that
/// aborted it there, if one did.
pub struct Outcome {
    pub state: State,
    pub fault: Option<RuntimeFaultView>,
}

/// An evaluation that ran to its end in `state`.
pub open spec fn done(state: State) -> Outcome {
    Outcome { state, fault: None }
}

/// An evaluation that `fault` aborted in `state`.
pub open spec fn failed(state: State, fault: RuntimeFaultView) -> Outcome {
    Outcome { state, fault: Some(fault) }
}

/// `st` with `v` pushed onto the data stack.
pub open spec fn pushed(st: State, v: Value) -> State {
    State { stack: st.stack.push(v), ..st }
}

/// The character codes of `text`, in order.
pub open spec fn codes(text: Seq<char>) -> Seq<Value> {
    Seq::new(text.len(), |i: int| Value::Number(text[i] as i32))
}

/// The loops after the index of the innermost one is set to `index`.
pub open spec fn advanced(loops: Seq<LoopFrame>, index: i32) -> Seq<LoopFrame> {
    if loops.len() > 0 {
        loops.update(loops.len() - 1, LoopFrame { limit: loops.last().limit, index })
    } else {
        loops
    }
}

/// The loops after the innermost one is left.
pub open spec fn left(loops: Seq<LoopFrame>) -> Seq<LoopFrame> {
    if loops.len() > 0 {
        loops.drop_last()
    } else {
        loops
    }
}

/// What evaluating `node` in the state `st` leads to, where word calls may
/// nest `depth` deep.
///
/// A number is pushed. A string literal pushes the code of each of its
/// characters, the first one first, and then their number, as `PUTS` takes
/// them. An operation is performed by the stack machine. A definition binds
/// its name in the innermost scope. A call evaluates the body of a word one
/// call deeper, and pushes the value of a variable. A conditional takes a
/// number from the stack and evaluates its first branch where the number is
/// 1, else its second. A loop takes its start and, below it, its limit from
/// the stack. A loop variable pushes the index of the loop at its depth. A
/// fault leaves the state as it was when the faulting node was reached.
pub open spec fn eval(node: Node, st: State, depth: nat) -> Outcome
    decreases depth, node, 0nat,
{
    match node {
        Node::Number(n) => done(pushed(st, Value::Number(n))),
        Node::StringLiteral(text) => {
            if text.len() > i32::MAX {
                failed(st, RuntimeFaultView::LiteralTooLong)
            } else {
                done(
                    State {
                        stack: (st.stack + codes(text)).push(Value::Number(text.len() as i32)),
                        ..st
                    },
                )
            }
        },
        Node::Operation(op) => match apply(op, st.stack) {
            Ok(effect) => done(
                State { stack: effect.stack, out: st.out + encode_utf8(effect.text), ..st },
            ),
            Err(fault) => failed(st, fault),
        },
        Node::Expressions(list) => eval_from(list, 0, st, depth),
        Node::WordDefinition { name, body } => done(
            State { env: bind(st.env, name, Binding::Function { body }), ..st },
        ),
        Node::FunctionCall(name) => match resolve(st.env, name) {
            None => failed(st, RuntimeFaultView::UndefinedWord(name)),
            Some(Binding::Variable(v)) => done(pushed(st, v)),
            Some(Binding::Function { body }) => {
                if depth == 0 {
                    failed(st, RuntimeFaultView::CallDepthExceeded)
                } else {
                    eval_from(body, 0, st, (depth - 1) as nat)
                }
            },
        },
        Node::If { if_body, else_body } => match number_from_top(st.stack, 0) {
            None => failed(st, RuntimeFaultView::BadCondition),
            Some(condition) => {
                let popped = State { stack: st.stack.drop_last(), ..st };
                if condition == 1 {
                    eval_from(if_body, 0, popped, depth)
                } else {
                    eval_from(else_body, 0, popped, depth)
                }
            },
        },
        Node::Loop { body } => match (number_from_top(st.stack, 1), number_from_top(st.stack, 0)) {
            (Some(limit), Some(index)) => {
                if st.loops.len() >= MAX_LOOP_DEPTH {
                    failed(st, RuntimeFaultView::LoopNestingTooDeep)
                } else {
                    eval_loop(
                        body,
                        State {
                            stack: st.stack.take(st.stack.len() - 2),
                            loops: st.loops.push(LoopFrame { limit, index }),
                            ..st
                        },
                        index as int,
                        limit as int,
                        depth,
                    )
                }
            },
            _ => failed(st, RuntimeFaultView::BadLoopBounds),
        },
        Node::LoopVariable(d) => match loop_value(st.loops, 2 * d) {
            Some(index) => done(pushed(st, Value::Number(index))),
            None => failed(st, RuntimeFaultView::NoLoopCounter(d)),
        },
        Node::SetVariable(name) => {
            if st.stack.len() == 0 {
                failed(st, RuntimeFaultView::MissingValue(name))
            } else {
                done(
                    State {
                        stack: st.stack.drop_last(),
                        env: bind(st.env, name, Binding::Variable(st.stack.last())),
                        ..st
                    },
                )
            }
        },
        Node::GetVariable(name) => match resolve(st.env, name) {
            None => failed(st, RuntimeFaultView::UndefinedWord(name)),
            Some(Binding::Function { body }) => failed(st, RuntimeFaultView::NotAVariable(name)),
            Some(Binding::Variable(v)) => done(pushed(st, v)),
        },
    }
}

/// What evaluating the nodes of `list` from the `i`-th on, in order, leads
/// to. The first fault ends it.
pub open spec fn eval_from(list: Seq<Node>, i: int, st: State, depth: nat) -> Outcome
    decreases depth, list, list.len() - i,
{
    if i < 0 || i >= list.len() {
        done(st)
    } else {
        let o = eval(list[i], st, depth);
        if o.fault is Some {
            o
        } else {
            eval_from(list, i + 1, o.state, depth)
        }
    }
}

/// What the rest of a counted loop leads to, whose innermost frame in `st`
/// stands at `index`: while `index` is below `limit`, `body` is evaluated
/// and the index of the innermost loop becomes `index + 1`; then the loop's
/// frame is popped.
pub open spec fn eval_loop(body: Seq<Node>, st: State, index: int, limit: int, depth: nat) -> Outcome
    recommends
        limit <= i32::MAX,
    decreases depth, body, body.len() + 1 + if index < limit { limit - index } else { 0 },
{
    if index >= limit {
        done(State { loops: left(st.loops), ..st })
    } else {
        let o = eval_from(body, 0, st, depth);
        if o.fault is Some {
            o
        } else {
            eval_loop(
                body,
                State { loops: advanced(o.state.loops, (index + 1) as i32), ..o.state },
                index + 1,
                limit,
                depth,
            )
        }
    }
}

/// Whether the result `r` of a run tells of the fault `fault`, or of none.
pub open spec fn reports(r: Result<(), RuntimeFault>, fault: Option<RuntimeFaultView>) -> bool {
    match fault {
        None => r is Ok,
        Some(f) => r matches Err(g) && g@ == f,
    }
}

/// The interpreter: a stack machine and the environment that each run
/// starts from.
pub struct Interpreter {
    stack_machine: StackMachine,
    context: Context,
    call_depth: usize,
}

impl Interpreter {
    /// The data stack; its last item is the top.
    pub closed spec fn stack(&self) -> Seq<Value> {
        self.stack_machine.stack()
    }

    /// The active loops; the last is the innermost.
    pub closed spec fn loops(&self) -> Seq<LoopFrame> {
        self.stack_machine.loops()
    }

    /// The scopes that each run starts from, innermost first.
    pub closed spec fn env(&self) -> Seq<Scope> {
        self.context@
    }

    /// How deep word calls may nest.
    pub closed spec fn call_depth(&self) -> nat {
        self.call_depth as nat
    }

    /// The state in which a run starts that writes after `out`.
    pub open spec fn state(&self, out: Seq<u8>) -> State {
        State { stack: self.stack(), loops: self.loops(), env: self.env(), out }
    }

    /// An interpreter with empty stacks and one empty scope, in which word
    /// calls may nest [`DEFAULT_CALL_DEPTH`] deep.
    pub fn new() -> (r: Self)
        ensures
            r.stack() == Seq::<Value>::empty(),
            r.loops() == Seq::<LoopFrame>::empty(),
            r.env() == seq![Map::<Seq<char>, Binding>::empty()],
            r.call_depth() == DEFAULT_CALL_DEPTH,
    {
        let r = Self {
            stack_machine: StackMachine::new(),
            context: Context::new(None),
            call_depth: DEFAULT_CALL_DEPTH,
        };
        assert(r.env() =~= seq![Map::<Seq<char>, Binding>::empty()]);
        r
    }

    /// The same interpreter, in which word calls may nest `depth` deep.
    pub fn with_call_depth(self, depth: usize) -> (r: Self)
        ensures
            r.stack() == self.stack(),
            r.loops() == self.loops(),
            r.env() == self.env(),
            r.call_depth() == depth,
    {
        Self { stack_machine: self.stack_machine, context: self.context, call_depth: depth }
    }

    /// Runs the program `ast`: evaluates it on this interpreter's stacks, in
    /// a copy of its environment, and appends what it writes to `output`.
    /// A fault aborts the run where it occurs; what was written and pushed
    /// before it stays.
    pub fn run(&mut self, ast: &Ast, output: &mut Vec<u8>) -> (r: Result<(), RuntimeFault>)
        ensures
            ({
                let o = eval(ast@, old(self).state(old(output)@), old(self).call_depth());
                &&& reports(r, o.fault)
                &&& final(self).stack() == o.state.stack
                &&& final(self).loops() == o.state.loops
                &&& final(output)@ == o.state.out
                &&& final(self).env() == old(self).env()
                &&& final(self).call_depth() == old(self).call_depth()
            }),
    {
        let mut context = self.context.clone();
        let depth = self.call_depth;
        self.interpret(ast, &mut context, output, depth)
    }

    /// The state that a machine, a context and the bytes written make up.
    pub open spec fn at(&self, context: Context, out: Seq<u8>) -> State {
        State { stack: self.stack(), loops: self.loops(), env: context@, out }
    }

    /// Evaluates `ast` in `context`, where word calls may nest `depth`
    /// deep.
    fn interpret(
        &mut self,
        ast: &Ast,
        context: &mut Context,
        output: &mut Vec<u8>,
        depth: usize,
    ) -> (r: Result<(), RuntimeFault>)
        ensures
            ({
                let o = eval(ast@, old(self).at(*old(context), old(output)@), depth as nat);
                &&& reports(r, o.fault)
                &&& final(self).at(*final(context), final(output)@) == o.state
            }),
            final(self).env() == old(self).env(),
            final(self).call_depth() == old(self).call_depth(),
        decreases depth, ast, 0nat,
    {
        match ast {
            Ast::Number(x) => {
                self.stack_machine.push(Entity::Number(*x));
                Ok(())
            },
            Ast::Operation(op) => self.stack_machine.execute(op, output),
            Ast::Expressions(nodes) => self.interpret_all(nodes, context, output, depth),
            Ast::WordDefinition { name, body } => {
                context.set(name.clone(), Variable::Function { body: clone_list(body) });
                Ok(())
            },
            Ast::FunctionCall(name) => {
                match context.get(name.clone()) {
                    Ok(Variable::Function { body }) => {
                        if depth == 0 {
                            Err(RuntimeFault::CallDepthExceeded)
                        } else {
                            self.interpret_all(&body, context, output, depth - 1)
                        }
                    },
                    Ok(Variable::Variable(x)) => {
                        self.stack_machine.push(x);
                        Ok(())
                    },
                    Err(fault) => Err(fault),
                }
            },
            Ast::StringLiteral(x) => self.push_literal(x),
            Ast::If { if_body, else_body } => {
                match self.stack_machine.number_at(0) {
                    Some(c) => {
                        self.stack_machine.pop();
                        if c == 1 {
                            self.interpret_all(if_body, context, output, depth)
                        } else {
                            self.interpret_all(else_body, context, output, depth)
                        }
                    },
                    None => Err(RuntimeFault::BadCondition),
                }
            },
            Ast::Loop { body } => {
                match self.prepare_loop() {
                    Ok(frame) => self.execute_loop(body, frame, context, output, depth),
                    Err(fault) => Err(fault),
                }
            },
            Ast::LoopVariable(x) => {
                match self.stack_machine.get_loop(2 * (*x as usize)) {
                    Some(v) => {
                        self.stack_machine.push(Entity::Number(v));
                        Ok(())
                    },
                    None => Err(RuntimeFault::NoLoopCounter(*x)),
                }
            },
            Ast::SetVariable(x) => {
                match self.stack_machine.pop() {
                    Some(v) => {
                        context.set(x.clone(), Variable::Variable(v));
                        Ok(())
                    },
                    None => Err(RuntimeFault::MissingValue(x.clone())),
                }
            },
            Ast::GetVariable(x) => {
                match context.get(x.clone()) {
                    Ok(Variable::Function { body: _ }) => Err(RuntimeFault::NotAVariable(x.clone())),
                    Ok(Variable::Variable(v)) => {
                        self.stack_machine.push(v);
                        Ok(())
                    },
                    Err(fault) => Err(fault),
                }
            },
        }
    }

    /// Evaluates `nodes`, one after the other, up to the first fault.
    fn interpret_all(
        &mut self,
        nodes: &Vec<Ast>,
        context: &mut Context,
        output: &mut Vec<u8>,
        depth: usize,
    ) -> (r: Result<(), RuntimeFault>)
        ensures
            ({
                let o = eval_from(
                    nodes_of(nodes@),
                    0,
                    old(self).at(*old(context), old(output)@),
                    depth as nat,
                );
                &&& reports(r, o.fault)
                &&& final(self).at(*final(context), final(output)@) == o.state
            }),
            final(self).env() == old(self).env(),
            final(self).call_depth() == old(self).call_depth(),
        decreases depth, nodes, 0nat,
    {
        let ghost list = nodes_of(nodes@);
        let ghost start = self.at(*context, output@);
        proof {
            lemma_nodes_of(nodes@);
        }
        let mut i: usize = 0;
        while i < nodes.len()
            invariant
                i <= nodes.len(),
                list == nodes_of(nodes@),
                list.len() == nodes.len(),
                start == old(self).at(*old(context), old(output)@),
                forall|k: int| 0 <= k < nodes.len() ==> #[trigger] list[k] == nodes[k]@,
                eval_from(list, 0, start, depth as nat) == eval_from(
                    list,
                    i as int,
                    self.at(*context, output@),
                    depth as nat,
                ),
                self.env() == old(self).env(),
                self.call_depth() == old(self).call_depth(),
            decreases nodes.len() - i,
        {
            match self.interpret(&nodes[i], context, output, depth) {
                Ok(()) => {},
                Err(fault) => {
                    return Err(fault);
                },
            }
            i = i + 1;
        }
        Ok(())
    }

    /// Pushes the character codes of `text`, then their number.
    fn push_literal(&mut self, text: &String) -> (r: Result<(), RuntimeFault>)
        ensures
            final(self).loops() == old(self).loops(),
            final(self).env() == old(self).env(),
            final(self).call_depth() == old(self).call_depth(),
            text@.len() > i32::MAX ==> r == Err::<(), RuntimeFault>(RuntimeFault::LiteralTooLong)
                && final(self).stack() == old(self).stack(),
            text@.len() <= i32::MAX ==> r is Ok && final(self).stack() == (old(self).stack()
                + codes(text@)).push(Value::Number(text@.len() as i32)),
    {
        let chars = chars_of(text.as_str());
        let length = chars.len();
        if length > i32::MAX as usize {
            return Err(RuntimeFault::LiteralTooLong);
        }
        let mut i: usize = 0;
        while i < length
            invariant
                i <= length,
                length == chars.len(),
                chars@ == text@,
                self.loops() == old(self).loops(),
                self.env() == old(self).env(),
                self.call_depth() == old(self).call_depth(),
                self.stack() == old(self).stack() + codes(text@).take(i as int),
            decreases length - i,
        {
            self.stack_machine.push(Entity::Number(chars[i] as i32));
            i = i + 1;
            assert(self.stack() =~= old(self).stack() + codes(text@).take(i as int));
        }
        assert(codes(text@).take(length as int) =~= codes(text@));
        self.stack_machine.push(Entity::Number(length as i32));
        Ok(())
    }

    /// Enters a loop: takes its start and, below it, its limit from the
    /// data stack and pushes them as a frame onto the loop stack.
    fn prepare_loop(&mut self) -> (r: Result<LoopFrame, RuntimeFault>)
        ensures
            final(self).env() == old(self).env(),
            final(self).call_depth() == old(self).call_depth(),
            match (number_from_top(old(self).stack(), 1), number_from_top(old(self).stack(), 0)) {
                (Some(limit), Some(index)) => {
                    if old(self).loops().len() >= MAX_LOOP_DEPTH {
                        &&& r == Err::<LoopFrame, RuntimeFault>(RuntimeFault::LoopNestingTooDeep)
                        &&& final(self).stack() == old(self).stack()
                        &&& final(self).loops() == old(self).loops()
                    } else {
                        &&& r == Ok::<LoopFrame, RuntimeFault>(LoopFrame { limit, index })
                        &&& final(self).stack() == old(self).stack().take(
                            old(self).stack().len() - 2,
                        )
                        &&& final(self).loops() == old(self).loops().push(
                            LoopFrame { limit, index },
                        )
                    }
                },
                _ => {
                    &&& r == Err::<LoopFrame, RuntimeFault>(RuntimeFault::BadLoopBounds)
                    &&& final(self).stack() == old(self).stack()
                    &&& final(self).loops() == old(self).loops()
                },
            },
    {
        let index = self.stack_machine.number_at(0);
        let limit = self.stack_machine.number_at(1);
        match (index, limit) {
            (Some(i), Some(l)) => {
                match self.stack_machine.push_loop(l, i) {
                    Ok(()) => {
                        self.stack_machine.pop();
                        self.stack_machine.pop();
                        assert(final(self).stack() =~= old(self).stack().take(
                            old(self).stack().len() - 2,
                        ));
                        Ok(LoopFrame { limit: l, index: i })
                    },
                    Err(fault) => Err(fault),
                }
            },
            _ => Err(RuntimeFault::BadLoopBounds),
        }
    }

    /// Runs the loop whose frame `frame` was just pushed, and pops it.
    fn execute_loop(
        &mut self,
        body: &Vec<Ast>,
        frame: LoopFrame,
        context: &mut Context,
        output: &mut Vec<u8>,
        depth: usize,
    ) -> (r: Result<(), RuntimeFault>)
        ensures
            ({
                let o = eval_loop(
                    nodes_of(body@),
                    old(self).at(*old(context), old(output)@),
                    frame.index as int,
                    frame.limit as int,
                    depth as nat,
                );
                &&& reports(r, o.fault)
                &&& final(self).at(*final(context), final(output)@) == o.state
            }),
            final(self).env() == old(self).env(),
            final(self).call_depth() == old(self).call_depth(),
        decreases depth, body, 1nat,
    {
        let ghost start = self.at(*context, output@);
        let limit = frame.limit;
        let mut index = frame.index;
        while index < limit
            invariant
                eval_loop(
                    nodes_of(body@),
                    start,
                    frame.index as int,
                    frame.limit as int,
                    depth as nat,
                ) == eval_loop(
                    nodes_of(body@),
                    self.at(*context, output@),
                    index as int,
                    limit as int,
                    depth as nat,
                ),
                limit == frame.limit,
                start == old(self).at(*old(context), old(output)@),
                self.env() == old(self).env(),
                self.call_depth() == old(self).call_depth(),
            decreases limit - index,
        {
            match self.interpret_all(body, context, output, depth) {
                Ok(()) => {},
                Err(fault) => {
                    return Err(fault);
                },
            }
            index = index + 1;
            self.stack_machine.set_loop_index(index);
        }
        self.stack_machine.pop_loop();
        Ok(())
    }
}

} // verus!
