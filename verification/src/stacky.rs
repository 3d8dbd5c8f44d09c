use vstd::prelude::*;
use crate::context::Scope;
use crate::interpreter::{eval, reports, Interpreter, State};
use crate::lexer::{lex_message, lex_spec, token_views, LexFault, Lexer, Token};
use crate::parser::{parse_message, parse_spec, Ast, ParseFault, Parser};
use crate::stack_machine::{runtime_message, LoopFrame, RuntimeFault, RuntimeFaultView, Value};

verus! {

/// Why a text could not be run to its end.
#[derive(Debug, PartialEq)]
pub enum Fault {
    /// The text is no sequence of tokens.
    Lex(LexFault),
    /// The tokens are no program.
    Parse(ParseFault),
    /// The run was aborted.
    Runtime(RuntimeFault),
}

/// The mathematical value of a [`Fault`].
pub enum FaultView {
    Lex(LexFault),
    Parse(ParseFault),
    Runtime(RuntimeFaultView),
}

impl View for Fault {
    type V = FaultView;

    open spec fn view(&self) -> FaultView {
        match self {
            Fault::Lex(fault) => FaultView::Lex(*fault),
            Fault::Parse(fault) => FaultView::Parse(*fault),
            Fault::Runtime(fault) => FaultView::Runtime(fault@),
        }
    }
}

/// The text that tells of a fault: its kind, then what is wrong.
pub open spec fn fault_message(fault: FaultView) -> Seq<char> {
    match fault {
        FaultView::Lex(f) => "LexFault: "@ + lex_message(f),
        FaultView::Parse(f) => "ParseFault: "@ + parse_message(f),
        FaultView::Runtime(f) => "RuntimeFault: "@ + runtime_message(f),
    }
}

impl Fault {
    /// A text that tells of the fault.
    pub fn message(&self) -> (r: String)
        ensures
            r@ == fault_message(self@),
    {
        match self {
            Fault::Lex(f) => {
                let mut r = String::from_str("LexFault: ");
                r.append(f.message().as_str());
                r
            },
            Fault::Parse(f) => {
                let mut r = String::from_str("ParseFault: ");
                r.append(f.message().as_str());
                r
            },
            Fault::Runtime(f) => {
                let mut r = String::from_str("RuntimeFault: ");
                r.append(f.message().as_str());
                r
            },
        }
    }
}

/// How running a text ended: the state it reached, and the fault that
/// stopped it, if one did.
pub struct Ending {
    pub state: State,
    pub fault: Option<FaultView>,
}

/// What running the program text `text` from the state `st` leads to, where
/// word calls may nest `depth` deep: the text is turned into tokens, the
/// tokens into a tree, and the tree is evaluated. A text that is no program
/// leaves the state as it is.
pub open spec fn run_text(text: Seq<char>, st: State, depth: nat) -> Ending {
    match lex_spec(text) {
        Err(fault) => Ending { state: st, fault: Some(FaultView::Lex(fault)) },
        Ok(tokens) => match parse_spec(tokens) {
            Err(fault) => Ending { state: st, fault: Some(FaultView::Parse(fault)) },
            Ok(node) => {
                let o = eval(node, st, depth);
                Ending {
                    state: o.state,
                    fault: match o.fault {
                        Some(fault) => Some(FaultView::Runtime(fault)),
                        None => None,
                    },
                }
            },
        },
    }
}

/// The language as a whole: a lexer, a parser and an interpreter.
pub struct Stacky<'a> {
    lexer: Lexer,
    parser: Parser<'a>,
    interpreter: Interpreter,
}

impl<'a> Stacky<'a> {
    /// The data stack of the interpreter; its last item is the top.
    pub closed spec fn stack(&self) -> Seq<Value> {
        self.interpreter.stack()
    }

    /// The active loops of the interpreter; the last is the innermost.
    pub closed spec fn loops(&self) -> Seq<LoopFrame> {
        self.interpreter.loops()
    }

    /// The scopes that each run starts from, innermost first.
    pub closed spec fn env(&self) -> Seq<Scope> {
        self.interpreter.env()
    }

    /// How deep word calls may nest.
    pub closed spec fn call_depth(&self) -> nat {
        self.interpreter.call_depth()
    }

    /// The state in which a run starts that writes after `out`.
    pub open spec fn state(&self, out: Seq<u8>) -> State {
        State { stack: self.stack(), loops: self.loops(), env: self.env(), out }
    }

    /// A fresh instance: empty stacks and one empty scope.
    pub fn new() -> (r: Self)
        ensures
            r.stack() == Seq::<Value>::empty(),
            r.loops() == Seq::<LoopFrame>::empty(),
            r.env() == seq![Map::<Seq<char>, crate::context::Binding>::empty()],
            r.call_depth() == crate::interpreter::DEFAULT_CALL_DEPTH,
    {
        Self { lexer: Lexer::new(), parser: Parser::new(), interpreter: Interpreter::new() }
    }

    /// Turns `input` into its tokens, ended by `Token::EOF`.
    pub fn lex(&mut self, input: &'a str) -> (r: Result<Vec<Token>, LexFault>)
        ensures
            final(self).state(Seq::empty()) == old(self).state(Seq::empty()),
            final(self).call_depth() == old(self).call_depth(),
            match lex_spec(input@) {
                Ok(tokens) => r matches Ok(v) && token_views(v@) == tokens,
                Err(fault) => r == Err::<Vec<Token>, LexFault>(fault),
            },
    {
        self.lexer.lex(input)
    }

    /// Builds the tree of the program that `tokens` holds.
    pub fn parse(&mut self, tokens: &'a [Token]) -> (r: Result<Ast, ParseFault>)
        ensures
            final(self).state(Seq::empty()) == old(self).state(Seq::empty()),
            final(self).call_depth() == old(self).call_depth(),
            match parse_spec(token_views(tokens@)) {
                Ok(node) => r matches Ok(ast) && ast@ == node,
                Err(fault) => r == Err::<Ast, ParseFault>(fault),
            },
    {
        self.parser.parse(tokens)
    }

    /// Runs the program `ast` and appends what it writes to `output`.
    pub fn run(&mut self, ast: &Ast, output: &mut Vec<u8>) -> (r: Result<(), RuntimeFault>)
        ensures
            ({
                let o = eval(ast@, old(self).state(old(output)@), old(self).call_depth());
                &&& reports(r, o.fault)
                &&& final(self).state(final(output)@) == State { env: old(self).env(), ..o.state }
                &&& final(self).call_depth() == old(self).call_depth()
            }),
    {
        self.interpreter.run(ast, output)
    }

    /// Runs the program text `input` and appends what it writes to `output`.
    pub fn evaluate(&mut self, input: &str, output: &mut Vec<u8>) -> (r: Result<(), Fault>)
        ensures
            ({
                let e = run_text(input@, old(self).state(old(output)@), old(self).call_depth());
                &&& match e.fault {
                    None => r is Ok,
                    Some(fault) => r matches Err(f) && f@ == fault,
                }
                &&& final(self).state(final(output)@) == State { env: old(self).env(), ..e.state }
                &&& final(self).call_depth() == old(self).call_depth()
            }),
    {
        let mut lexer = Lexer::new();
        let tokens = match lexer.lex(input) {
            Ok(tokens) => tokens,
            Err(fault) => {
                return Err(Fault::Lex(fault));
            },
        };
        let mut parser = Parser::new();
        let ast = match parser.parse(tokens.as_slice()) {
            Ok(ast) => ast,
            Err(fault) => {
                return Err(Fault::Parse(fault));
            },
        };
        match self.interpreter.run(&ast, output) {
            Ok(()) => Ok(()),
            Err(fault) => Err(Fault::Runtime(fault)),
        }
    }
}

} // verus!
