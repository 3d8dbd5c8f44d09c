use vstd::prelude::*;
use crate::interpreter::State;
use crate::laws::{binary_program, law_addition, wrote};
use crate::lexer::{lex_from, lex_spec, LexFault, TokenView};
use crate::parser::{parse_list, parse_spec, Node, ParseFault, Stop};
use crate::stacky::run_text;
use crate::text::decimal_text;

verus! {

/// The tokens of the text `1 2 + .`, worked out from the definition.
pub proof fn example_lex()
    ensures
        lex_spec("1 2 + ."@) == Ok::<Seq<TokenView>, LexFault>(
            seq![
                TokenView::Number(1),
                TokenView::Number(2),
                TokenView::Add,
                TokenView::Emit,
                TokenView::EOF,
            ],
        ),
{
    reveal_strlit("1 2 + .");
    reveal_with_fuel(lex_from, 6);
    reveal_with_fuel(crate::lexer::skip_spaces, 3);
    reveal_with_fuel(crate::lexer::digits_end, 3);
    reveal_with_fuel(crate::lexer::number_value, 3);
    assert(lex_from("1 2 + ."@, 0) matches Ok(tokens) && tokens =~= seq![
        TokenView::Number(1),
        TokenView::Number(2),
        TokenView::Add,
        TokenView::Emit,
        TokenView::EOF,
    ]);
}

/// The tree of the tokens of `: f 1 ; f`, worked out from the definition.
pub proof fn example_parse(name: Seq<char>)
    requires
        !crate::parser::is_reserved(name),
    ensures
        parse_spec(
            seq![
                TokenView::Colon,
                TokenView::Identifier(name),
                TokenView::Number(1),
                TokenView::SemiColon,
                TokenView::Identifier(name),
                TokenView::EOF,
            ],
        ) == Ok::<Node, ParseFault>(
            Node::Expressions(
                seq![
                    Node::WordDefinition { name, body: seq![Node::Number(1)] },
                    Node::FunctionCall(name),
                ],
            ),
        ),
{
    let tokens = seq![
        TokenView::Colon,
        TokenView::Identifier(name),
        TokenView::Number(1),
        TokenView::SemiColon,
        TokenView::Identifier(name),
        TokenView::EOF,
    ];
    reveal_with_fuel(parse_list, 3);
    assert(parse_list(tokens, 2, Stop::SemiColon) matches Ok(body) && body.end == 3 && body.nodes
        =~= seq![Node::Number(1)]);
    assert(parse_list(tokens, 0, Stop::Eof) matches Ok(list) && list.nodes =~= seq![
        Node::WordDefinition { name, body: seq![Node::Number(1)] },
        Node::FunctionCall(name),
    ]);
}

/// Running the text `1 2 + .` writes `3`, by the law of addition.
pub proof fn example_run(st: State, depth: nat)
    ensures
        run_text("1 2 + ."@, st, depth) == wrote(st, seq!['3']),
{
    reveal_strlit("1 2 + .");
    assert(binary_program(1, 2, TokenView::Add) =~= "1 2 + ."@);
    assert(decimal_text(3) =~= seq!['3']);
    law_addition(1, 2, st, depth);
}

} // verus!
