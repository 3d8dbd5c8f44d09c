use vstd::prelude::*;
use crate::interpreter::{eval, State};
use crate::laws::{is_literal, lemma_decimal_text, lemma_scan_literal, lemma_scan_skips};
use crate::lexer::{
    lex_from, lex_spec, quote_at, scan, skip_spaces, spelling, word_end, word_token, LexFault,
    Scan, TokenView,
};
use crate::parser::{
    all_canonical, is_reserved, law_parse_spelling, program_tokens, tokens_of_list, Node,
    ParseFault,
};
use crate::stacky::{run_text, FaultView};
use crate::text::{is_alpha, is_space, is_word_char};

verus! {

/// Whether `name` can be written as an identifier: a letter, then letters,
/// digits and `_`.
pub open spec fn is_name(name: Seq<char>) -> bool {
    &&& name.len() >= 1
    &&& is_alpha(name[0])
    &&& forall|i: int| 0 <= i < name.len() ==> is_word_char(#[trigger] name[i])
}

/// Whether `token` can be written so that the lexer reads it back: a number
/// whose magnitude is a 32-bit number, a string without a double quote, an
/// identifier that is not reserved, a loop variable that has a name, a
/// keyword or an operator.
pub open spec fn lexable(token: TokenView) -> bool {
    match token {
        TokenView::Number(n) => is_literal(n as int),
        TokenView::StringLiteral(text) => forall|i: int|
            0 <= i < text.len() ==> #[trigger] text[i] != '"',
        TokenView::Identifier(name) => is_name(name) && !is_reserved(name),
        TokenView::LoopVariable(d) => d <= 4,
        TokenView::EOF => false,
        _ => true,
    }
}

/// Whether each of the tokens is lexable.
pub open spec fn all_lexable(tokens: Seq<TokenView>) -> bool {
    forall|i: int| 0 <= i < tokens.len() ==> lexable(#[trigger] tokens[i])
}

/// The text of the tokens from the `i`-th on: each as it is spelled, with a
/// blank after it.
pub open spec fn text_of(tokens: Seq<TokenView>, i: int) -> Seq<char>
    decreases tokens.len() - i,
{
    if i < 0 || i >= tokens.len() {
        Seq::empty()
    } else {
        spelling(tokens[i]) + seq![' '] + text_of(tokens, i + 1)
    }
}

/// Whether `token` is written with the characters `+ - * / . < > = : ; @`.
pub open spec fn is_symbol(token: TokenView) -> bool {
    token is Add || token is Sub || token is Mul || token is Div || token is Emit || token is Lt
        || token is Gt || token is Lte || token is Gte || token is Eq || token is DoubleEq
        || token is Colon || token is SemiColon || token is Arrow || token is At
}

/// The characters of a symbol.
pub open spec fn symbol_text(token: TokenView) -> Seq<char> {
    match token {
        TokenView::Add => seq!['+'],
        TokenView::Sub => seq!['-'],
        TokenView::Mul => seq!['*'],
        TokenView::Div => seq!['/'],
        TokenView::Emit => seq!['.'],
        TokenView::Lt => seq!['<'],
        TokenView::Gt => seq!['>'],
        TokenView::Lte => seq!['<', '='],
        TokenView::Gte => seq!['>', '='],
        TokenView::Eq => seq!['='],
        TokenView::DoubleEq => seq!['=', '='],
        TokenView::Colon => seq![':'],
        TokenView::SemiColon => seq![';'],
        TokenView::Arrow => seq!['-', '>'],
        _ => seq!['@'],
    }
}

/// The spelling of a symbol is its characters.
pub proof fn lemma_symbol_spelling(token: TokenView)
    requires
        is_symbol(token),
    ensures
        spelling(token) == symbol_text(token),
{
    reveal_strlit("+");
    reveal_strlit("-");
    reveal_strlit("*");
    reveal_strlit("/");
    reveal_strlit(".");
    reveal_strlit("<");
    reveal_strlit(">");
    reveal_strlit("<=");
    reveal_strlit(">=");
    reveal_strlit("=");
    reveal_strlit("==");
    reveal_strlit(":");
    reveal_strlit(";");
    reveal_strlit("->");
    reveal_strlit("@");
    assert(spelling(token) =~= symbol_text(token));
}

/// Where a symbol stands at `p` and a blank follows it, the token there is
/// that symbol.
pub proof fn lemma_scan_symbol(s: Seq<char>, p: int, token: TokenView)
    requires
        is_symbol(token),
        0 <= p,
        p + symbol_text(token).len() < s.len(),
        s.subrange(p, p + symbol_text(token).len()) == symbol_text(token),
        s[p + symbol_text(token).len()] == ' ',
    ensures
        scan(s, p) == (Scan::Token { token, next: p + symbol_text(token).len() }),
{
    let text = symbol_text(token);
    let to = p + text.len();
    assert(s[p] == s.subrange(p, to)[0]);
    if text.len() == 2 {
        assert(s[p + 1] == s.subrange(p, to)[1]);
    }
    assert(skip_spaces(s, p) == p);
}

/// A run of letters, digits and `_` ends where the first other character
/// stands.
pub proof fn lemma_word_end(s: Seq<char>, from: int, to: int)
    requires
        0 <= from <= to <= s.len(),
        forall|i: int| from <= i < to ==> is_word_char(#[trigger] s[i]),
        to == s.len() || !is_word_char(s[to]),
    ensures
        word_end(s, from) == to,
    decreases to - from,
{
    if from < to {
        lemma_word_end(s, from + 1, to);
    }
}

/// Where a name stands at `p` and a blank follows it, the token there is
/// the keyword, the loop variable or the identifier of that name, and the
/// blank belongs to it.
pub proof fn lemma_scan_name(s: Seq<char>, p: int, name: Seq<char>)
    requires
        is_name(name),
        0 <= p,
        p + name.len() < s.len(),
        s.subrange(p, p + name.len()) == name,
        s[p + name.len()] == ' ',
    ensures
        scan(s, p) == (Scan::Token { token: word_token(name), next: p + name.len() + 1 }),
{
    let to = p + name.len();
    assert(s[p] == s.subrange(p, to)[0]);
    assert forall|i: int| p <= i < to implies is_word_char(#[trigger] s[i]) by {
        assert(s[i] == s.subrange(p, to)[i - p]);
    }
    lemma_word_end(s, p, to);
    assert(skip_spaces(s, p) == p);
}

/// A string runs up to the first double quote.
pub proof fn lemma_quote_at(s: Seq<char>, from: int, to: int)
    requires
        0 <= from <= to <= s.len(),
        forall|i: int| from <= i < to ==> #[trigger] s[i] != '"',
        to == s.len() || s[to] == '"',
    ensures
        quote_at(s, from) == to,
    decreases to - from,
{
    if from < to {
        lemma_quote_at(s, from + 1, to);
    }
}

/// Where a text without a double quote stands between double quotes at
/// `p`, the token there is the string literal of that text.
pub proof fn lemma_scan_string(s: Seq<char>, p: int, text: Seq<char>)
    requires
        forall|i: int| 0 <= i < text.len() ==> #[trigger] text[i] != '"',
        0 <= p,
        p + text.len() + 2 <= s.len(),
        s[p] == '"',
        s.subrange(p + 1, p + 1 + text.len()) == text,
        s[p + 1 + text.len()] == '"',
    ensures
        scan(s, p) == (Scan::Token {
            token: TokenView::StringLiteral(text),
            next: p + text.len() + 2,
        }),
{
    let to = p + 1 + text.len();
    assert forall|i: int| p + 1 <= i < to implies #[trigger] s[i] != '"' by {
        assert(s[i] == s.subrange(p + 1, to)[i - p - 1]);
    }
    lemma_quote_at(s, p + 1, to);
    assert(skip_spaces(s, p) == p);
}

/// Whether `token` is written as a word: a keyword or a loop variable that
/// has a name.
pub open spec fn is_keyword_token(token: TokenView) -> bool {
    token is If || token is Else || token is Then || token is Dup || token is Swap || token is Drop
        || token is Do || token is Loop || token is Puts || (token matches TokenView::LoopVariable(
        d,
    ) && d <= 4)
}

/// The spelling of a keyword or of a loop variable is a name, and the lexer
/// reads the name as that token.
pub proof fn lemma_keyword_spelling(token: TokenView)
    requires
        is_keyword_token(token),
    ensures
        is_name(spelling(token)),
        word_token(spelling(token)) == token,
{
    reveal_strlit("IF");
    reveal_strlit("ELSE");
    reveal_strlit("THEN");
    reveal_strlit("DUP");
    reveal_strlit("SWAP");
    reveal_strlit("DROP");
    reveal_strlit("DO");
    reveal_strlit("LOOP");
    reveal_strlit("PUTS");
    reveal_strlit("I");
    reveal_strlit("J");
    reveal_strlit("K");
    reveal_strlit("L");
    reveal_strlit("M");
    let name = spelling(token);
    assert(name.len() >= 1);
    assert(is_alpha(name[0]));
    assert forall|i: int| 0 <= i < name.len() implies is_word_char(#[trigger] name[i]) by {
        assert(is_alpha(name[i]));
    }
    assert("IF"@[0] == 'I' && "IF"@[1] == 'F');
    assert("ELSE"@[0] == 'E');
    assert("THEN"@[0] == 'T');
    assert("DUP"@[0] == 'D' && "DUP"@[1] == 'U');
    assert("SWAP"@[0] == 'S');
    assert("DROP"@[0] == 'D' && "DROP"@[1] == 'R');
    assert("DO"@[0] == 'D' && "DO"@[1] == 'O');
    assert("LOOP"@[0] == 'L');
    assert("PUTS"@[0] == 'P');
    assert("I"@[0] == 'I');
    assert("J"@[0] == 'J');
    assert("K"@[0] == 'K');
    assert("L"@[0] == 'L');
    assert("M"@[0] == 'M');
}

/// Where the spelling of a lexable token stands at `p` and a blank follows
/// it, the token there is that token; it ends before the blank or, where it
/// is a word, after it.
pub proof fn lemma_scan_spelled(s: Seq<char>, p: int, token: TokenView)
    requires
        lexable(token),
        0 <= p,
        p + spelling(token).len() < s.len(),
        s.subrange(p, p + spelling(token).len()) == spelling(token),
        s[p + spelling(token).len()] == ' ',
    ensures
        scan(s, p) matches Scan::Token { token: found, next } && found == token && (next == p
            + spelling(token).len() || next == p + spelling(token).len() + 1),
{
    let text = spelling(token);
    let to = p + text.len();
    if is_symbol(token) {
        lemma_symbol_spelling(token);
        lemma_scan_symbol(s, p, token);
    } else if is_keyword_token(token) {
        lemma_keyword_spelling(token);
        lemma_scan_name(s, p, text);
    } else {
        match token {
            TokenView::Number(n) => {
                lemma_scan_literal(s, p, n as int);
            },
            TokenView::Identifier(name) => {
                lemma_scan_name(s, p, name);
            },
            TokenView::StringLiteral(inner) => {
                reveal_strlit("\"");
                assert(text.len() == inner.len() + 2);
                assert(s[p] == s.subrange(p, to)[0]);
                assert(s[to - 1] == s.subrange(p, to)[to - 1 - p]);
                assert(s.subrange(p + 1, to - 1) =~= inner) by {
                    assert forall|i: int| 0 <= i < inner.len() implies s.subrange(p + 1, to - 1)[i]
                        == inner[i] by {
                        assert(s.subrange(p, to)[i + 1] == text[i + 1]);
                    }
                }
                lemma_scan_string(s, p, inner);
            },
            _ => {},
        }
    }
}

/// A blank before the rest of a text does not change its tokens.
pub proof fn lemma_lex_skips(s: Seq<char>, p: int)
    requires
        0 <= p < s.len(),
        is_space(s[p]),
    ensures
        lex_from(s, p) == lex_from(s, p + 1),
{
    lemma_scan_skips(s, p);
}

/// The spelling of a lexable token is not empty.
pub proof fn lemma_spelling_not_empty(token: TokenView)
    requires
        lexable(token),
    ensures
        spelling(token).len() >= 1,
{
    if is_symbol(token) {
        lemma_symbol_spelling(token);
    } else if is_keyword_token(token) {
        lemma_keyword_spelling(token);
    } else {
        match token {
            TokenView::Number(n) => {
                lemma_decimal_text(n as int);
            },
            TokenView::StringLiteral(inner) => {
                reveal_strlit("\"");
            },
            _ => {},
        }
    }
}

/// Where the text of lexable tokens, from the `i`-th on, is what is left of
/// `s` at `p`, the lexer reads these tokens there.
pub proof fn lemma_lex_text(s: Seq<char>, p: int, tokens: Seq<TokenView>, i: int)
    requires
        all_lexable(tokens),
        0 <= i <= tokens.len(),
        0 <= p <= s.len(),
        s.skip(p) == text_of(tokens, i),
    ensures
        lex_from(s, p) == Ok::<Seq<TokenView>, LexFault>(tokens.skip(i).push(TokenView::EOF)),
    decreases tokens.len() - i,
{
    if i == tokens.len() {
        assert(s.skip(p).len() == 0);
        assert(skip_spaces(s, p) == p);
        assert(scan(s, p) == Scan::End);
        assert(tokens.skip(i).push(TokenView::EOF) =~= seq![TokenView::EOF]);
    } else {
        let token = tokens[i];
        let word = spelling(token);
        let rest = text_of(tokens, i + 1);
        let text = word + seq![' '] + rest;
        let to = p + word.len();
        lemma_spelling_not_empty(token);
        assert(s.skip(p) == text);
        assert(s.len() - p == text.len());
        assert(s.subrange(p, to) =~= word) by {
            assert forall|k: int| 0 <= k < word.len() implies s.subrange(p, to)[k] == word[k] by {
                assert(s.skip(p)[k] == text[k]);
            }
        }
        assert(s[to] == ' ') by {
            assert(s.skip(p)[word.len() as int] == text[word.len() as int]);
        }
        assert(s.skip(to + 1) =~= rest) by {
            assert forall|k: int| 0 <= k < rest.len() implies s.skip(to + 1)[k] == rest[k] by {
                assert(s.skip(p)[word.len() + 1 + k] == text[word.len() + 1 + k]);
            }
        }
        lemma_scan_spelled(s, p, token);
        lemma_lex_text(s, to + 1, tokens, i + 1);
        lemma_lex_skips(s, to);
        let tail = tokens.skip(i + 1).push(TokenView::EOF);
        assert(lex_from(s, p) == Ok::<Seq<TokenView>, LexFault>(seq![token] + tail));
        assert(seq![token] + tail =~= tokens.skip(i).push(TokenView::EOF));
    }
}

/// The lexer reads back what is written: for lexable tokens, the tokens of
/// their text are these tokens and the end marker.
pub proof fn law_lex_text(tokens: Seq<TokenView>)
    requires
        all_lexable(tokens),
    ensures
        lex_spec(text_of(tokens, 0)) == Ok::<Seq<TokenView>, LexFault>(
            tokens.push(TokenView::EOF),
        ),
{
    let s = text_of(tokens, 0);
    assert(s.skip(0) =~= s);
    lemma_lex_text(s, 0, tokens, 0);
    assert(tokens.skip(0) =~= tokens);
}

/// The text of a program: the tokens that spell out its nodes, each with a
/// blank after it.
pub open spec fn program_text(list: Seq<Node>) -> Seq<char> {
    text_of(tokens_of_list(list, 0), 0)
}

/// A written program is read back: where the nodes of `list` are canonical
/// and the tokens that spell them out are lexable, the text of the program
/// is lexed and parsed into the list, and running the text is evaluating
/// the list.
pub proof fn law_read_written(list: Seq<Node>, st: State, depth: nat)
    requires
        all_canonical(list),
        all_lexable(tokens_of_list(list, 0)),
    ensures
        lex_spec(program_text(list)) == Ok::<Seq<TokenView>, LexFault>(program_tokens(list)),
        crate::parser::parse_spec(program_tokens(list)) == Ok::<Node, ParseFault>(
            Node::Expressions(list),
        ),
        run_text(program_text(list), st, depth).state == eval(
            Node::Expressions(list),
            st,
            depth,
        ).state,
        run_text(program_text(list), st, depth).fault == match eval(
            Node::Expressions(list),
            st,
            depth,
        ).fault {
            Some(fault) => Some(FaultView::Runtime(fault)),
            None => None,
        },
{
    law_lex_text(tokens_of_list(list, 0));
    law_parse_spelling(list);
}

} // verus!
