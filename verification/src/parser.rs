use vstd::prelude::*;
use crate::lexer::{token_views, word_token, Token, TokenView};
use crate::text::{count, decimal_digits, is_text};

verus! {

/// A node of the parse tree.
#[derive(Debug, PartialEq)]
pub enum Ast {
    Number(i32),
    StringLiteral(String),
    WordDefinition { name: String, body: Vec<Ast> },
    Operation(Token),
    Expressions(Vec<Ast>),
    FunctionCall(String),
    If { if_body: Vec<Ast>, else_body: Vec<Ast> },
    Loop { body: Vec<Ast> },
    LoopVariable(u8),
    SetVariable(String),
    GetVariable(String),
}

/// The mathematical value of an [`Ast`].
pub enum Node {
    Number(i32),
    StringLiteral(Seq<char>),
    WordDefinition { name: Seq<char>, body: Seq<Node> },
    Operation(TokenView),
    Expressions(Seq<Node>),
    FunctionCall(Seq<char>),
    If { if_body: Seq<Node>, else_body: Seq<Node> },
    Loop { body: Seq<Node> },
    LoopVariable(u8),
    SetVariable(Seq<char>),
    GetVariable(Seq<char>),
}

/// The models of a list of trees, in order.
pub open spec fn nodes_of(list: Seq<Ast>) -> Seq<Node>
    decreases list, 0int,
{
    if list.len() == 0 {
        Seq::empty()
    } else {
        nodes_of(list.drop_last()).push(node_of(list.last()))
    }
}

/// The model of one tree.
pub open spec fn node_of(ast: Ast) -> Node
    decreases ast, 1int,
{
    match ast {
        Ast::Number(n) => Node::Number(n),
        Ast::StringLiteral(s) => Node::StringLiteral(s@),
        Ast::WordDefinition { name, body } => Node::WordDefinition {
            name: name@,
            body: nodes_of(body@),
        },
        Ast::Operation(t) => Node::Operation(t@),
        Ast::Expressions(list) => Node::Expressions(nodes_of(list@)),
        Ast::FunctionCall(name) => Node::FunctionCall(name@),
        Ast::If { if_body, else_body } => Node::If {
            if_body: nodes_of(if_body@),
            else_body: nodes_of(else_body@),
        },
        Ast::Loop { body } => Node::Loop { body: nodes_of(body@) },
        Ast::LoopVariable(d) => Node::LoopVariable(d),
        Ast::SetVariable(name) => Node::SetVariable(name@),
        Ast::GetVariable(name) => Node::GetVariable(name@),
    }
}

impl View for Ast {
    type V = Node;

    open spec fn view(&self) -> Node {
        node_of(*self)
    }
}

/// `nodes_of` works item by item.
pub proof fn lemma_nodes_of(list: Seq<Ast>)
    ensures
        nodes_of(list).len() == list.len(),
        forall|i: int| 0 <= i < list.len() ==> #[trigger] nodes_of(list)[i] == node_of(list[i]),
    decreases list.len(),
{
    if list.len() > 0 {
        lemma_nodes_of(list.drop_last());
    }
}

/// The models of a list with one more tree at its end.
pub proof fn lemma_nodes_of_push(list: Seq<Ast>, ast: Ast)
    ensures
        nodes_of(list.push(ast)) == nodes_of(list).push(node_of(ast)),
{
    assert(list.push(ast).drop_last() =~= list);
}

/// A copy of a list of trees.
pub fn clone_list(list: &Vec<Ast>) -> (r: Vec<Ast>)
    ensures
        nodes_of(r@) == nodes_of(list@),
    decreases list,
{
    let mut r: Vec<Ast> = Vec::new();
    let mut i: usize = 0;
    while i < list.len()
        invariant
            i <= list.len(),
            nodes_of(r@) == nodes_of(list@.take(i as int)),
        decreases list.len() - i,
    {
        let item = list[i].clone();
        proof {
            lemma_nodes_of_push(r@, item);
            lemma_nodes_of_push(list@.take(i as int), list@[i as int]);
            assert(list@.take(i as int).push(list@[i as int]) =~= list@.take(i + 1));
        }
        r.push(item);
        i = i + 1;
    }
    assert(list@.take(i as int) =~= list@);
    r
}

impl Clone for Ast {
    fn clone(&self) -> (r: Ast)
        ensures
            r@ == self@,
        decreases self,
    {
        match self {
            Ast::Number(n) => Ast::Number(*n),
            Ast::StringLiteral(s) => Ast::StringLiteral(s.clone()),
            Ast::WordDefinition { name, body } => Ast::WordDefinition {
                name: name.clone(),
                body: clone_list(body),
            },
            Ast::Operation(t) => Ast::Operation(t.clone()),
            Ast::Expressions(list) => Ast::Expressions(clone_list(list)),
            Ast::FunctionCall(name) => Ast::FunctionCall(name.clone()),
            Ast::If { if_body, else_body } => Ast::If {
                if_body: clone_list(if_body),
                else_body: clone_list(else_body),
            },
            Ast::Loop { body } => Ast::Loop { body: clone_list(body) },
            Ast::LoopVariable(d) => Ast::LoopVariable(*d),
            Ast::SetVariable(name) => Ast::SetVariable(name.clone()),
            Ast::GetVariable(name) => Ast::GetVariable(name.clone()),
        }
    }
}

/// Why a sequence of tokens is no program. A position counts the tokens
/// before the place.
#[derive(Debug, PartialEq, Eq, Clone, Copy)]
pub enum ParseFault {
    /// A `:`, `->` or `@` is not followed by an identifier; `position` is
    /// where the identifier should stand.
    ExpectedIdentifier { position: usize },
    /// The name of the word defined at `position` is reserved.
    ReservedWord { position: usize },
    /// The `;`, `ELSE`, `THEN` or `LOOP` at `position` closes nothing.
    UnexpectedToken { position: usize },
    /// The tokens end at `position`, inside a definition, a conditional or
    /// a loop, or without an end marker.
    UnexpectedEnd { position: usize },
}

/// The text that tells of a fault of the parser: what is wrong, and the
/// position in decimal.
pub open spec fn parse_message(fault: ParseFault) -> Seq<char> {
    match fault {
        ParseFault::ExpectedIdentifier { position } => "Expected identifier at token "@
            + decimal_digits(position as nat),
        ParseFault::ReservedWord { position } => "Reserved word as name at token "@
            + decimal_digits(position as nat),
        ParseFault::UnexpectedToken { position } => "Unexpected delimiter at token "@
            + decimal_digits(position as nat),
        ParseFault::UnexpectedEnd { position } => "Unexpected end of program at token "@
            + decimal_digits(position as nat),
    }
}

impl ParseFault {
    /// A text that tells of the fault.
    pub fn message(&self) -> (r: String)
        ensures
            r@ == parse_message(*self),
    {
        match self {
            ParseFault::ExpectedIdentifier { position } => {
                let mut r = String::from_str("Expected identifier at token ");
                r.append(count(*position).as_str());
                r
            },
            ParseFault::ReservedWord { position } => {
                let mut r = String::from_str("Reserved word as name at token ");
                r.append(count(*position).as_str());
                r
            },
            ParseFault::UnexpectedToken { position } => {
                let mut r = String::from_str("Unexpected delimiter at token ");
                r.append(count(*position).as_str());
                r
            },
            ParseFault::UnexpectedEnd { position } => {
                let mut r = String::from_str("Unexpected end of program at token ");
                r.append(count(*position).as_str());
                r
            },
        }
    }
}

/// Whether `name` is reserved: the lexer reads it as a keyword or as a loop
/// variable, not as an identifier.
pub open spec fn is_reserved(name: Seq<char>) -> bool {
    !(word_token(name) is Identifier)
}

/// The token that ends a list of nodes.
#[derive(Debug, Clone, Copy)]
pub enum Stop {
    /// The end marker, for the program itself.
    Eof,
    /// `;`, for the body of a word.
    SemiColon,
    /// `ELSE` or `THEN`, for the first branch of a conditional.
    ElseOrThen,
    /// `THEN`, for the second branch of a conditional.
    Then,
    /// `LOOP`, for the body of a loop.
    Loop,
}

/// Whether `token` ends a list that `stop` ends.
pub open spec fn stops(stop: Stop, token: TokenView) -> bool {
    match stop {
        Stop::Eof => token is EOF,
        Stop::SemiColon => token is SemiColon,
        Stop::ElseOrThen => token is Else || token is Then,
        Stop::Then => token is Then,
        Stop::Loop => token is Loop,
    }
}

/// A node, and the position after its last token.
pub struct ParsedNode {
    pub node: Node,
    pub next: int,
}

/// A list of nodes, and the position of the token that ends it.
pub struct ParsedList {
    pub nodes: Seq<Node>,
    pub end: int,
}

/// The node that starts at `pos`.
pub open spec fn parse_node(tokens: Seq<TokenView>, pos: int) -> Result<ParsedNode, ParseFault>
    decreases tokens.len() - pos, 0nat,
{
    if pos < 0 || pos >= tokens.len() {
        Err(ParseFault::UnexpectedEnd { position: tokens.len() as usize })
    } else {
        match tokens[pos] {
            TokenView::Number(n) => Ok(ParsedNode { node: Node::Number(n), next: pos + 1 }),
            TokenView::StringLiteral(text) => Ok(
                ParsedNode { node: Node::StringLiteral(text), next: pos + 1 },
            ),
            TokenView::Identifier(name) => Ok(
                ParsedNode { node: Node::FunctionCall(name), next: pos + 1 },
            ),
            TokenView::LoopVariable(d) => Ok(
                ParsedNode { node: Node::LoopVariable(d), next: pos + 1 },
            ),
            TokenView::Colon => {
                if pos + 1 < tokens.len() && tokens[pos + 1] is Identifier {
                    let name = tokens[pos + 1]->Identifier_0;
                    if is_reserved(name) {
                        Err(ParseFault::ReservedWord { position: (pos + 1) as usize })
                    } else {
                        match parse_list(tokens, pos + 2, Stop::SemiColon) {
                            Ok(body) => Ok(
                                ParsedNode {
                                    node: Node::WordDefinition { name, body: body.nodes },
                                    next: body.end + 1,
                                },
                            ),
                            Err(fault) => Err(fault),
                        }
                    }
                } else {
                    Err(ParseFault::ExpectedIdentifier { position: (pos + 1) as usize })
                }
            },
            TokenView::If => match parse_list(tokens, pos + 1, Stop::ElseOrThen) {
                Ok(first) => {
                    if pos < first.end < tokens.len() && tokens[first.end] is Else {
                        match parse_list(tokens, first.end + 1, Stop::Then) {
                            Ok(second) => Ok(
                                ParsedNode {
                                    node: Node::If { if_body: first.nodes, else_body: second.nodes },
                                    next: second.end + 1,
                                },
                            ),
                            Err(fault) => Err(fault),
                        }
                    } else {
                        Ok(
                            ParsedNode {
                                node: Node::If { if_body: first.nodes, else_body: Seq::empty() },
                                next: first.end + 1,
                            },
                        )
                    }
                },
                Err(fault) => Err(fault),
            },
            TokenView::Do => match parse_list(tokens, pos + 1, Stop::Loop) {
                Ok(body) => Ok(
                    ParsedNode { node: Node::Loop { body: body.nodes }, next: body.end + 1 },
                ),
                Err(fault) => Err(fault),
            },
            TokenView::Arrow => {
                if pos + 1 < tokens.len() && tokens[pos + 1] is Identifier {
                    Ok(
                        ParsedNode {
                            node: Node::SetVariable(tokens[pos + 1]->Identifier_0),
                            next: pos + 2,
                        },
                    )
                } else {
                    Err(ParseFault::ExpectedIdentifier { position: (pos + 1) as usize })
                }
            },
            TokenView::At => {
                if pos + 1 < tokens.len() && tokens[pos + 1] is Identifier {
                    Ok(
                        ParsedNode {
                            node: Node::GetVariable(tokens[pos + 1]->Identifier_0),
                            next: pos + 2,
                        },
                    )
                } else {
                    Err(ParseFault::ExpectedIdentifier { position: (pos + 1) as usize })
                }
            },
            TokenView::EOF => Err(ParseFault::UnexpectedEnd { position: pos as usize }),
            TokenView::SemiColon | TokenView::Else | TokenView::Then | TokenView::Loop => Err(
                ParseFault::UnexpectedToken { position: pos as usize },
            ),
            operator => Ok(ParsedNode { node: Node::Operation(operator), next: pos + 1 }),
        }
    }
}

/// The nodes from `pos` up to the first token that `stop` ends a list with.
/// (A node ends after the place where it starts; the test for it only shows
/// that the definition is well founded.)
pub open spec fn parse_list(tokens: Seq<TokenView>, pos: int, stop: Stop) -> Result<
    ParsedList,
    ParseFault,
>
    decreases tokens.len() - pos, 1nat,
{
    if pos < 0 || pos >= tokens.len() {
        Err(ParseFault::UnexpectedEnd { position: tokens.len() as usize })
    } else if stops(stop, tokens[pos]) {
        Ok(ParsedList { nodes: Seq::empty(), end: pos })
    } else {
        match parse_node(tokens, pos) {
            Ok(first) => {
                if first.next <= pos || first.next > tokens.len() {
                    Err(ParseFault::UnexpectedEnd { position: tokens.len() as usize })
                } else {
                    match parse_list(tokens, first.next, stop) {
                        Ok(rest) => Ok(
                            ParsedList { nodes: seq![first.node] + rest.nodes, end: rest.end },
                        ),
                        Err(fault) => Err(fault),
                    }
                }
            },
            Err(fault) => Err(fault),
        }
    }
}

/// The program that `tokens` stand for: the nodes up to the end marker.
///
/// To work it out for given tokens, unfold the definitions as far as the
/// tokens need: `reveal_with_fuel(parse_list, n)` for lists of fewer than
/// `n` nodes.
pub open spec fn parse_spec(tokens: Seq<TokenView>) -> Result<Node, ParseFault> {
    match parse_list(tokens, 0, Stop::Eof) {
        Ok(list) => Ok(Node::Expressions(list.nodes)),
        Err(fault) => Err(fault),
    }
}

/// A node and a list end after they start, within the tokens.
pub proof fn lemma_parse_advances(tokens: Seq<TokenView>, pos: int, stop: Stop)
    requires
        0 <= pos,
    ensures
        parse_node(tokens, pos) matches Ok(p) ==> pos < p.next <= tokens.len(),
        parse_list(tokens, pos, stop) matches Ok(l) ==> pos <= l.end < tokens.len() && stops(
            stop,
            tokens[l.end],
        ),
    decreases tokens.len() - pos, 2nat,
{
    if pos < tokens.len() {
        lemma_parse_advances(tokens, pos + 1, Stop::ElseOrThen);
        lemma_parse_advances(tokens, pos + 1, Stop::Loop);
        if pos + 2 <= tokens.len() {
            lemma_parse_advances(tokens, pos + 2, Stop::SemiColon);
        }
        if tokens[pos] is If {
            if let Ok(first) = parse_list(tokens, pos + 1, Stop::ElseOrThen) {
                lemma_parse_advances(tokens, first.end + 1, Stop::Then);
            }
        }
        if let Ok(first) = parse_node(tokens, pos) {
            lemma_parse_advances(tokens, first.next, stop);
        }
    }
}

/// Whether `token` is an operation of the stack machine.
pub open spec fn is_operation(token: TokenView) -> bool {
    token is Add || token is Sub || token is Mul || token is Div || token is Emit || token is Puts
        || token is Dup || token is Swap || token is Drop || token is Lt || token is Gt
        || token is Lte || token is Gte || token is Eq || token is DoubleEq
}

/// Whether `node` is a node as the parser builds them: each operation in it
/// is an operation of the stack machine, so that no token that only gives a
/// program its structure stands in the tree; no word has a reserved name;
/// and no list stands in it as a node of its own.
pub open spec fn canonical(node: Node) -> bool
    decreases node,
{
    match node {
        Node::Operation(token) => is_operation(token),
        Node::Expressions(list) => false,
        Node::WordDefinition { name, body } => !is_reserved(name) && forall|i: int|
            0 <= i < body.len() ==> canonical(#[trigger] body[i]),
        Node::If { if_body, else_body } => (forall|i: int|
            0 <= i < if_body.len() ==> canonical(#[trigger] if_body[i])) && (forall|i: int|
            0 <= i < else_body.len() ==> canonical(#[trigger] else_body[i])),
        Node::Loop { body } => forall|i: int| 0 <= i < body.len() ==> canonical(#[trigger] body[i]),
        _ => true,
    }
}

/// Whether each node of the list is canonical.
pub open spec fn all_canonical(list: Seq<Node>) -> bool {
    forall|i: int| 0 <= i < list.len() ==> canonical(#[trigger] list[i])
}

/// Whether `node` is a program as the parser builds them: a list of
/// canonical nodes.
pub open spec fn well_formed(node: Node) -> bool {
    node matches Node::Expressions(list) && all_canonical(list)
}

/// What the parser builds is canonical: the delimiters `;`, `ELSE`, `THEN`
/// and `LOOP`, the end marker and the tokens that open a structure are used
/// up and never stand in the tree.
pub proof fn lemma_parse_canonical(tokens: Seq<TokenView>, pos: int, stop: Stop)
    requires
        0 <= pos,
    ensures
        parse_node(tokens, pos) matches Ok(p) ==> canonical(p.node),
        parse_list(tokens, pos, stop) matches Ok(l) ==> all_canonical(l.nodes),
    decreases tokens.len() - pos, 2nat,
{
    if pos < tokens.len() {
        lemma_parse_advances(tokens, pos, stop);
        lemma_parse_canonical(tokens, pos + 1, Stop::ElseOrThen);
        lemma_parse_canonical(tokens, pos + 1, Stop::Loop);
        if pos + 2 <= tokens.len() {
            lemma_parse_canonical(tokens, pos + 2, Stop::SemiColon);
        }
        if tokens[pos] is If {
            if let Ok(first) = parse_list(tokens, pos + 1, Stop::ElseOrThen) {
                lemma_parse_advances(tokens, pos + 1, Stop::ElseOrThen);
                lemma_parse_canonical(tokens, first.end + 1, Stop::Then);
            }
        }
        if let Ok(first) = parse_node(tokens, pos) {
            lemma_parse_canonical(tokens, first.next, stop);
            if let Ok(rest) = parse_list(tokens, first.next, stop) {
                let nodes = seq![first.node] + rest.nodes;
                assert forall|i: int| 0 <= i < nodes.len() implies canonical(
                    #[trigger] nodes[i],
                ) by {
                    if i > 0 {
                        assert(nodes[i] == rest.nodes[i - 1]);
                    }
                }
            }
        }
    }
}

/// The tree of a program is well formed.
pub proof fn law_parse_well_formed(tokens: Seq<TokenView>)
    ensures
        parse_spec(tokens) matches Ok(node) ==> well_formed(node),
{
    lemma_parse_canonical(tokens, 0, Stop::Eof);
}

/// The tokens that spell out a node.
pub open spec fn tokens_of(node: Node) -> Seq<TokenView>
    decreases node, 0nat,
{
    match node {
        Node::Number(n) => seq![TokenView::Number(n)],
        Node::StringLiteral(text) => seq![TokenView::StringLiteral(text)],
        Node::Operation(token) => seq![token],
        Node::FunctionCall(name) => seq![TokenView::Identifier(name)],
        Node::LoopVariable(d) => seq![TokenView::LoopVariable(d)],
        Node::SetVariable(name) => seq![TokenView::Arrow, TokenView::Identifier(name)],
        Node::GetVariable(name) => seq![TokenView::At, TokenView::Identifier(name)],
        Node::WordDefinition { name, body } => seq![TokenView::Colon, TokenView::Identifier(name)]
            + tokens_of_list(body, 0) + seq![TokenView::SemiColon],
        Node::If { if_body, else_body } => {
            if else_body.len() == 0 {
                seq![TokenView::If] + tokens_of_list(if_body, 0) + seq![TokenView::Then]
            } else {
                seq![TokenView::If] + tokens_of_list(if_body, 0) + seq![TokenView::Else]
                    + tokens_of_list(else_body, 0) + seq![TokenView::Then]
            }
        },
        Node::Loop { body } => seq![TokenView::Do] + tokens_of_list(body, 0) + seq![
            TokenView::Loop,
        ],
        Node::Expressions(list) => tokens_of_list(list, 0),
    }
}

/// The tokens that spell out the nodes of `list` from the `i`-th on, one
/// after the other.
pub open spec fn tokens_of_list(list: Seq<Node>, i: int) -> Seq<TokenView>
    decreases list, list.len() - i,
{
    if i < 0 || i >= list.len() {
        Seq::empty()
    } else {
        tokens_of(list[i]) + tokens_of_list(list, i + 1)
    }
}

/// The tokens that spell out a program: those of its nodes, then the end
/// marker.
pub open spec fn program_tokens(list: Seq<Node>) -> Seq<TokenView> {
    tokens_of_list(list, 0).push(TokenView::EOF)
}

/// Whether `text` stands in `tokens` at `pos`.
pub open spec fn stands_at(tokens: Seq<TokenView>, pos: int, text: Seq<TokenView>) -> bool {
    &&& 0 <= pos
    &&& pos + text.len() <= tokens.len()
    &&& forall|i: int| 0 <= i < text.len() ==> tokens[pos + i] == #[trigger] text[i]
}

/// A text that stands at a place stands there part by part.
proof fn lemma_stands_split(
    tokens: Seq<TokenView>,
    pos: int,
    first: Seq<TokenView>,
    second: Seq<TokenView>,
)
    requires
        stands_at(tokens, pos, first + second),
    ensures
        stands_at(tokens, pos, first),
        stands_at(tokens, pos + first.len(), second),
{
    let text = first + second;
    assert forall|i: int| 0 <= i < first.len() implies tokens[pos + i] == #[trigger] first[i] by {
        assert(text[i] == first[i]);
    }
    assert forall|i: int| 0 <= i < second.len() implies tokens[pos + first.len() + i]
        == #[trigger] second[i] by {
        assert(text[first.len() + i] == second[i]);
    }
}

/// Whether `token` ends some list.
pub open spec fn is_delimiter(token: TokenView) -> bool {
    token is EOF || token is SemiColon || token is Else || token is Then || token is Loop
}

/// The spelling of a canonical node is not empty and does not start with a
/// delimiter.
pub proof fn lemma_tokens_of_start(node: Node)
    requires
        canonical(node),
    ensures
        tokens_of(node).len() >= 1,
        !is_delimiter(tokens_of(node)[0]),
{
}

/// Parsing the spelling of a list of canonical nodes, up to the delimiter
/// after it, gives the list back.
proof fn lemma_parse_spelling_list(
    tokens: Seq<TokenView>,
    pos: int,
    list: Seq<Node>,
    from: int,
    stop: Stop,
)
    requires
        0 <= pos,
        all_canonical(list),
        0 <= from <= list.len(),
        stands_at(tokens, pos, tokens_of_list(list, from)),
        pos + tokens_of_list(list, from).len() < tokens.len(),
        stops(stop, tokens[pos + tokens_of_list(list, from).len()]),
    ensures
        parse_list(tokens, pos, stop) == Ok::<ParsedList, ParseFault>(
            ParsedList {
                nodes: list.skip(from),
                end: pos + tokens_of_list(list, from).len(),
            },
        ),
    decreases tokens.len() - pos, 1nat,
{
    if from == list.len() {
        assert(list.skip(from) =~= Seq::<Node>::empty());
    } else {
        let first = tokens_of(list[from]);
        let rest = tokens_of_list(list, from + 1);
        lemma_tokens_of_start(list[from]);
        lemma_stands_split(tokens, pos, first, rest);
        assert(tokens[pos] == first[0]);
        lemma_parse_spelling_node(tokens, pos, list[from]);
        lemma_parse_spelling_list(tokens, pos + first.len(), list, from + 1, stop);
        assert(seq![list[from]] + list.skip(from + 1) =~= list.skip(from));
    }
}

/// Parsing the spelling of a canonical node gives the node back.
proof fn lemma_parse_spelling_node(tokens: Seq<TokenView>, pos: int, node: Node)
    requires
        0 <= pos,
        canonical(node),
        stands_at(tokens, pos, tokens_of(node)),
    ensures
        parse_node(tokens, pos) == Ok::<ParsedNode, ParseFault>(
            ParsedNode { node, next: pos + tokens_of(node).len() },
        ),
    decreases tokens.len() - pos, 0nat,
{
    let text = tokens_of(node);
    assert(tokens[pos] == text[0]);
    match node {
        Node::SetVariable(name) => {
            assert(tokens[pos + 1] == text[1]);
        },
        Node::GetVariable(name) => {
            assert(tokens[pos + 1] == text[1]);
        },
        Node::WordDefinition { name, body } => {
            let inner = tokens_of_list(body, 0);
            let head = seq![TokenView::Colon, TokenView::Identifier(name)];
            let tail = seq![TokenView::SemiColon];
            assert(text == head + inner + tail);
            lemma_stands_split(tokens, pos, head + inner, tail);
            lemma_stands_split(tokens, pos, head, inner);
            assert(tokens[pos + 1] == head[1]);
            assert(tokens[pos + 2 + inner.len()] == tail[0]);
            lemma_parse_spelling_list(tokens, pos + 2, body, 0, Stop::SemiColon);
            assert(body.skip(0) =~= body);
        },
        Node::Loop { body } => {
            let inner = tokens_of_list(body, 0);
            let head = seq![TokenView::Do];
            let tail = seq![TokenView::Loop];
            assert(text == head + inner + tail);
            lemma_stands_split(tokens, pos, head + inner, tail);
            lemma_stands_split(tokens, pos, head, inner);
            assert(tokens[pos + 1 + inner.len()] == tail[0]);
            lemma_parse_spelling_list(tokens, pos + 1, body, 0, Stop::Loop);
            assert(body.skip(0) =~= body);
        },
        Node::If { if_body, else_body } => {
            let first = tokens_of_list(if_body, 0);
            let head = seq![TokenView::If];
            let tail = seq![TokenView::Then];
            if else_body.len() == 0 {
                assert(text == head + first + tail);
                lemma_stands_split(tokens, pos, head + first, tail);
                lemma_stands_split(tokens, pos, head, first);
                assert(tokens[pos + 1 + first.len()] == tail[0]);
                lemma_parse_spelling_list(tokens, pos + 1, if_body, 0, Stop::ElseOrThen);
                assert(if_body.skip(0) =~= if_body);
                assert(else_body =~= Seq::<Node>::empty());
            } else {
                let middle = seq![TokenView::Else];
                let second = tokens_of_list(else_body, 0);
                assert(text == head + first + middle + second + tail);
                lemma_stands_split(tokens, pos, head + first + middle + second, tail);
                lemma_stands_split(tokens, pos, head + first + middle, second);
                lemma_stands_split(tokens, pos, head + first, middle);
                lemma_stands_split(tokens, pos, head, first);
                assert(tokens[pos + 1 + first.len()] == middle[0]);
                assert(tokens[pos + 2 + first.len() + second.len()] == tail[0]);
                lemma_parse_spelling_list(tokens, pos + 1, if_body, 0, Stop::ElseOrThen);
                lemma_parse_spelling_list(
                    tokens,
                    pos + 2 + first.len(),
                    else_body,
                    0,
                    Stop::Then,
                );
                assert(if_body.skip(0) =~= if_body);
                assert(else_body.skip(0) =~= else_body);
            }
        },
        _ => {},
    }
}

/// The parser reads every well-formed program: the tokens that spell out a
/// list of canonical nodes, with the end marker after them, are parsed into
/// that list.
pub proof fn law_parse_spelling(list: Seq<Node>)
    requires
        all_canonical(list),
    ensures
        parse_spec(program_tokens(list)) == Ok::<Node, ParseFault>(Node::Expressions(list)),
{
    let tokens = program_tokens(list);
    let text = tokens_of_list(list, 0);
    assert(stands_at(tokens, 0, text));
    assert(tokens[text.len() as int] is EOF);
    lemma_parse_spelling_list(tokens, 0, list, 0, Stop::Eof);
    assert(list.skip(0) =~= list);
}

/// The list `r` with the nodes `prefix` before it.
pub open spec fn joined(prefix: Seq<Node>, r: Result<ParsedList, ParseFault>) -> Result<
    ParsedList,
    ParseFault,
> {
    match r {
        Ok(rest) => Ok(ParsedList { nodes: prefix + rest.nodes, end: rest.end }),
        Err(fault) => Err(fault),
    }
}

/// Whether a parser that returned `r` and stopped at `position` found the
/// node that `expected` says.
pub open spec fn parsed(r: Result<Ast, ParseFault>, position: int, expected: Result<
    ParsedNode,
    ParseFault,
>) -> bool {
    match expected {
        Ok(p) => r matches Ok(ast) && ast@ == p.node && position == p.next,
        Err(fault) => r == Err::<Ast, ParseFault>(fault),
    }
}

/// Whether `token` ends a list that `stop` ends.
fn is_stop(stop: Stop, token: &Token) -> (b: bool)
    ensures
        b == stops(stop, token@),
{
    match stop {
        Stop::Eof => match token {
            Token::EOF => true,
            _ => false,
        },
        Stop::SemiColon => match token {
            Token::SemiColon => true,
            _ => false,
        },
        Stop::ElseOrThen => match token {
            Token::Else => true,
            Token::Then => true,
            _ => false,
        },
        Stop::Then => match token {
            Token::Then => true,
            _ => false,
        },
        Stop::Loop => match token {
            Token::Loop => true,
            _ => false,
        },
    }
}

/// Whether `name` is reserved: a keyword or the name of a loop variable.
pub fn is_keyword(name: &String) -> (b: bool)
    ensures
        b == is_reserved(name@),
{
    let keyword = is_text(name, "IF") || is_text(name, "ELSE") || is_text(name, "THEN")
        || is_text(name, "DUP") || is_text(name, "SWAP") || is_text(name, "DROP")
        || is_text(name, "DO") || is_text(name, "LOOP") || is_text(name, "PUTS");
    let loop_variable = is_text(name, "I") || is_text(name, "J") || is_text(name, "K")
        || is_text(name, "L") || is_text(name, "M");
    keyword || loop_variable
}

/// The parser: the tokens of a program and a position in them.
pub struct Parser<'a> {
    tokens: &'a [Token],
    pos: usize,
}

impl<'a> Parser<'a> {
    /// The tokens that are being read.
    pub closed spec fn tokens(&self) -> Seq<TokenView> {
        token_views(self.tokens@)
    }

    /// How many tokens have been read.
    pub closed spec fn position(&self) -> int {
        self.pos as int
    }

    /// The position lies within the tokens.
    pub closed spec fn wf(&self) -> bool {
        self.pos <= self.tokens@.len()
    }

    /// A parser at the start of no tokens.
    pub fn new() -> (r: Parser<'a>)
        ensures
            r.wf(),
            r.tokens() == Seq::<TokenView>::empty(),
            r.position() == 0,
    {
        let r = Parser { tokens: &[], pos: 0 };
        assert(r.tokens() =~= Seq::<TokenView>::empty());
        r
    }

    /// Goes on to the next token.
    fn advance(&mut self)
        requires
            old(self).position() < old(self).tokens().len(),
        ensures
            final(self).tokens() == old(self).tokens(),
            final(self).position() == old(self).position() + 1,
            final(self).wf(),
    {
        assert(self.pos < self.tokens.len());
        self.pos += 1;
    }

    /// Builds the tree of the program that `tokens` holds up to its end
    /// marker: an `Ast::Expressions` of its nodes in order.
    pub fn parse(&mut self, tokens: &'a [Token]) -> (r: Result<Ast, ParseFault>)
        ensures
            final(self).tokens() == token_views(tokens@),
            match parse_spec(token_views(tokens@)) {
                Ok(node) => r matches Ok(ast) && ast@ == node,
                Err(fault) => r == Err::<Ast, ParseFault>(fault),
            },
            r matches Ok(ast) ==> well_formed(ast@),
    {
        proof {
            law_parse_well_formed(token_views(tokens@));
        }
        self.tokens = tokens;
        self.pos = 0;
        match self.parse_expressions(Stop::Eof) {
            Ok(nodes) => Ok(Ast::Expressions(nodes)),
            Err(fault) => Err(fault),
        }
    }

    /// Reads nodes up to the token that `stop` names, which is left unread.
    fn parse_expressions(&mut self, stop: Stop) -> (r: Result<Vec<Ast>, ParseFault>)
        requires
            old(self).wf(),
        ensures
            final(self).wf(),
            final(self).tokens() == old(self).tokens(),
            match parse_list(old(self).tokens(), old(self).position(), stop) {
                Ok(list) => r matches Ok(v) && nodes_of(v@) == list.nodes && final(self).position()
                    == list.end,
                Err(fault) => r == Err::<Vec<Ast>, ParseFault>(fault),
            },
        decreases old(self).tokens().len() - old(self).position(), 1nat,
    {
        let mut nodes: Vec<Ast> = Vec::new();
        let ghost all = self.tokens();
        let ghost start = self.position();
        assert(parse_list(all, start, stop) == joined(
            nodes_of(nodes@),
            parse_list(all, start, stop),
        )) by {
            if let Ok(rest) = parse_list(all, start, stop) {
                assert(nodes_of(nodes@) + rest.nodes =~= rest.nodes);
            }
        }
        loop
            invariant
                self.wf(),
                self.tokens() == all,
                all == old(self).tokens(),
                start == old(self).position(),
                start <= self.position(),
                parse_list(all, start, stop) == joined(
                    nodes_of(nodes@),
                    parse_list(all, self.position(), stop),
                ),
            decreases self.tokens().len() - self.position(),
        {
            if self.pos >= self.tokens.len() {
                return Err(ParseFault::UnexpectedEnd { position: self.tokens.len() });
            }
            if is_stop(stop, &self.tokens[self.pos]) {
                assert(nodes_of(nodes@) + Seq::<Node>::empty() =~= nodes_of(nodes@));
                return Ok(nodes);
            }
            let ghost here = self.position();
            let ghost before = nodes@;
            proof {
                lemma_parse_advances(all, here, stop);
            }
            match self.get_node() {
                Ok(node) => {
                    proof {
                        lemma_nodes_of_push(before, node);
                        if let Ok(rest) = parse_list(all, self.position(), stop) {
                            assert(nodes_of(before) + (seq![node@] + rest.nodes) =~= nodes_of(
                                before,
                            ).push(node@) + rest.nodes);
                        }
                    }
                    nodes.push(node);
                },
                Err(fault) => {
                    return Err(fault);
                },
            }
        }
    }

    /// Whether `token` is a comparison.
    pub fn _is_conditional(&mut self, token: Token) -> (b: bool)
        ensures
            *final(self) == *old(self),
            b == (token@ is Gt || token@ is Gte || token@ is Lt || token@ is Lte || token@ is Eq),
    {
        match token {
            Token::Gt | Token::Gte | Token::Lt | Token::Lte | Token::Eq => true,
            _ => false,
        }
    }

    /// Reads the node that starts with the next token.
    fn get_node(&mut self) -> (r: Result<Ast, ParseFault>)
        requires
            old(self).wf(),
        ensures
            final(self).wf(),
            final(self).tokens() == old(self).tokens(),
            parsed(r, final(self).position(), parse_node(old(self).tokens(), old(self).position())),
        decreases old(self).tokens().len() - old(self).position(), 0nat,
    {
        let position = self.pos;
        let tokens = self.tokens;
        if position >= tokens.len() {
            return Err(ParseFault::UnexpectedEnd { position: tokens.len() });
        }
        let token = &tokens[position];
        self.advance();
        match token {
            Token::Number(x) => Ok(Ast::Number(*x)),
            Token::StringLiteral(x) => Ok(Ast::StringLiteral(x.clone())),
            Token::Identifier(x) => Ok(Ast::FunctionCall(x.clone())),
            Token::LoopVariable(x) => Ok(Ast::LoopVariable(*x)),
            Token::Colon => self.get_word(),
            Token::If => self.get_if(),
            Token::Do => self.get_loop(),
            Token::Arrow => self.get_arrow(),
            Token::At => self.get_at(),
            Token::EOF => Err(ParseFault::UnexpectedEnd { position }),
            Token::SemiColon | Token::Else | Token::Then | Token::Loop => Err(
                ParseFault::UnexpectedToken { position },
            ),
            _ => Ok(Ast::Operation(token.clone())),
        }
    }

    /// Reads a loop, whose `DO` has just been read, up to its `LOOP`.
    fn get_loop(&mut self) -> (r: Result<Ast, ParseFault>)
        requires
            old(self).wf(),
            old(self).position() >= 1,
            old(self).tokens()[old(self).position() - 1] is Do,
        ensures
            final(self).wf(),
            final(self).tokens() == old(self).tokens(),
            parsed(
                r,
                final(self).position(),
                parse_node(old(self).tokens(), old(self).position() - 1),
            ),
        decreases old(self).tokens().len() - old(self).position(), 2nat,
    {
        proof {
            lemma_parse_advances(self.tokens(), self.position(), Stop::Loop);
        }
        match self.parse_expressions(Stop::Loop) {
            Ok(body) => {
                self.advance();
                Ok(Ast::Loop { body })
            },
            Err(fault) => Err(fault),
        }
    }

    /// Reads a conditional, whose `IF` has just been read, up to its
    /// `THEN`.
    fn get_if(&mut self) -> (r: Result<Ast, ParseFault>)
        requires
            old(self).wf(),
            old(self).position() >= 1,
            old(self).tokens()[old(self).position() - 1] is If,
        ensures
            final(self).wf(),
            final(self).tokens() == old(self).tokens(),
            parsed(
                r,
                final(self).position(),
                parse_node(old(self).tokens(), old(self).position() - 1),
            ),
        decreases old(self).tokens().len() - old(self).position(), 2nat,
    {
        proof {
            lemma_parse_advances(self.tokens(), self.position(), Stop::ElseOrThen);
        }
        let if_body = match self.parse_expressions(Stop::ElseOrThen) {
            Ok(nodes) => nodes,
            Err(fault) => {
                return Err(fault);
            },
        };
        let mut else_body: Vec<Ast> = Vec::new();
        let at_else = match &self.tokens[self.pos] {
            Token::Else => true,
            _ => false,
        };
        if at_else {
            self.advance();
            proof {
                lemma_parse_advances(self.tokens(), self.position(), Stop::Then);
            }
            else_body =
            match self.parse_expressions(Stop::Then) {
                Ok(nodes) => nodes,
                Err(fault) => {
                    return Err(fault);
                },
            };
        }
        self.advance();
        Ok(Ast::If { if_body, else_body })
    }

    /// Reads the definition of a word, whose `:` has just been read: its
    /// name, then its body up to `;`.
    fn get_word(&mut self) -> (r: Result<Ast, ParseFault>)
        requires
            old(self).wf(),
            old(self).position() >= 1,
            old(self).tokens()[old(self).position() - 1] is Colon,
        ensures
            final(self).wf(),
            final(self).tokens() == old(self).tokens(),
            parsed(
                r,
                final(self).position(),
                parse_node(old(self).tokens(), old(self).position() - 1),
            ),
        decreases old(self).tokens().len() - old(self).position(), 2nat,
    {
        let position = self.pos;
        let tokens = self.tokens;
        if position >= tokens.len() {
            return Err(ParseFault::ExpectedIdentifier { position });
        }
        let name = match &tokens[position] {
            Token::Identifier(x) => x.clone(),
            _ => {
                return Err(ParseFault::ExpectedIdentifier { position });
            },
        };
        if is_keyword(&name) {
            return Err(ParseFault::ReservedWord { position });
        }
        self.advance();
        proof {
            lemma_parse_advances(self.tokens(), self.position(), Stop::SemiColon);
        }
        match self.parse_expressions(Stop::SemiColon) {
            Ok(body) => {
                self.advance();
                Ok(Ast::WordDefinition { name, body })
            },
            Err(fault) => Err(fault),
        }
    }

    /// Reads the name after `->`, which has just been read.
    fn get_arrow(&mut self) -> (r: Result<Ast, ParseFault>)
        requires
            old(self).wf(),
            old(self).position() >= 1,
            old(self).tokens()[old(self).position() - 1] is Arrow,
        ensures
            final(self).wf(),
            final(self).tokens() == old(self).tokens(),
            parsed(
                r,
                final(self).position(),
                parse_node(old(self).tokens(), old(self).position() - 1),
            ),
    {
        let position = self.pos;
        let tokens = self.tokens;
        if position < tokens.len() {
            if let Token::Identifier(x) = &tokens[position] {
                self.advance();
                return Ok(Ast::SetVariable(x.clone()));
            }
        }
        Err(ParseFault::ExpectedIdentifier { position })
    }

    /// Reads the name after `@`, which has just been read.
    fn get_at(&mut self) -> (r: Result<Ast, ParseFault>)
        requires
            old(self).wf(),
            old(self).position() >= 1,
            old(self).tokens()[old(self).position() - 1] is At,
        ensures
            final(self).wf(),
            final(self).tokens() == old(self).tokens(),
            parsed(
                r,
                final(self).position(),
                parse_node(old(self).tokens(), old(self).position() - 1),
            ),
    {
        let position = self.pos;
        let tokens = self.tokens;
        if position < tokens.len() {
            if let Token::Identifier(x) = &tokens[position] {
                self.advance();
                return Ok(Ast::GetVariable(x.clone()));
            }
        }
        Err(ParseFault::ExpectedIdentifier { position })
    }
}

} // verus!
