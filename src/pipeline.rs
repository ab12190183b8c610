use vstd::prelude::*;
use crate::lexer::{first_unknown, lex, lexable, lexemes, LexError};
use crate::parser::{
    number_fits, numbers_fit, parse_e, parse_expr, parse_number, Tree, E,
};
use crate::token::{is_ws, views, Token, TokenKind};

verus! {

/// Why a line of input gave no expression.
#[derive(Debug)]
pub enum InputError {
    /// A character that no recognizer accepts.
    Lex(LexError),
    /// A number too large for an `i32`.
    NumericOverflow,
    /// An expression was parsed, but tokens were left over after it.
    IncompleteParse { consumed: usize, total: usize },
    /// No expression starts at the first token.
    NoParse,
}

/// The tokens that are not whitespace, in their order.
pub open spec fn without_ws(ts: Seq<(TokenKind, Seq<char>)>) -> Seq<(TokenKind, Seq<char>)>
    decreases ts.len(),
{
    if ts.len() == 0 {
        seq![]
    } else {
        let rest = without_ws(ts.drop_last());
        if ts.last().0 == TokenKind::Whitespace {
            rest
        } else {
            rest.push(ts.last())
        }
    }
}

fn copy_token(t: &Token) -> (r: Token)
    ensures
        r@ == t@,
{
    match t {
        Token::Add(s) => Token::Add(s.clone()),
        Token::Number(s) => Token::Number(s.clone()),
        Token::Whitespace(s) => Token::Whitespace(s.clone()),
    }
}

/// Drops the whitespace tokens, keeping the others in order.
pub fn remove_whitespace(tokens: &Vec<Token>) -> (r: Vec<Token>)
    ensures
        views(r@) == without_ws(views(tokens@)),
{
    let mut out: Vec<Token> = Vec::new();
    let mut i: usize = 0;
    while i < tokens.len()
        invariant
            i <= tokens@.len(),
            views(out@) == without_ws(views(tokens@).take(i as int)),
        decreases tokens@.len() - i,
    {
        let ghost all = views(tokens@);
        assert(all.take(i + 1).drop_last() == all.take(i as int));
        assert(all.take(i + 1).last() == tokens@[i as int]@);
        if !is_ws(&tokens[i]) {
            let t = copy_token(&tokens[i]);
            assert(views(out@.push(t)) == views(out@).push(t@)) by {
                assert(views(out@.push(t)) =~= views(out@).push(t@));
            }
            out.push(t);
        }
        i = i + 1;
    }
    assert(views(tokens@).take(tokens@.len() as int) == views(tokens@));
    out
}

/// Whether every `Number` token's text reads as an `i32`.
fn all_numbers_fit(toks: &Vec<Token>) -> (r: bool)
    ensures
        r == numbers_fit(views(toks@)),
{
    let mut i: usize = 0;
    while i < toks.len()
        invariant
            i <= toks@.len(),
            forall|j: int| 0 <= j < i ==> number_fits(#[trigger] views(toks@)[j]),
        decreases toks@.len() - i,
    {
        if let Token::Number(text) = &toks[i] {
            if parse_number(text.as_str()).is_none() {
                assert(!number_fits(views(toks@)[i as int]));
                return false;
            }
        }
        i = i + 1;
    }
    true
}

/// Numbers and `+` alternate, starting and ending with a number.
pub open spec fn is_sum_chain(ts: Seq<(TokenKind, Seq<char>)>) -> bool {
    &&& ts.len() % 2 == 1
    &&& forall|i: int|
        0 <= i < ts.len() ==> (#[trigger] ts[i]).0 == if i % 2 == 0 {
            TokenKind::Number
        } else {
            TokenKind::Add
        }
}

/// How many tokens of kind `k` there are.
pub open spec fn count_kind(ts: Seq<(TokenKind, Seq<char>)>, k: TokenKind) -> nat
    decreases ts.len(),
{
    if ts.len() == 0 {
        0
    } else {
        count_kind(ts.drop_last(), k) + if ts.last().0 == k {
            1nat
        } else {
            0nat
        }
    }
}

/// How many `Binary` nodes there are, each with its left term.
pub open spec fn binary_count(t: Tree) -> nat
    decreases t,
{
    match t {
        Tree::Binary { right, .. } => binary_count(*right) + 1,
        Tree::Unary { .. } => 0,
    }
}

/// How deeply expressions nest inside one another.
pub open spec fn depth(t: Tree) -> nat
    decreases t,
{
    match t {
        Tree::Binary { right, .. } => depth(*right) + 1,
        Tree::Unary { .. } => 0,
    }
}

proof fn lemma_chain_counts(ts: Seq<(TokenKind, Seq<char>)>, j: int)
    requires
        is_sum_chain(ts),
        0 <= j <= ts.len(),
    ensures
        count_kind(ts.take(j), TokenKind::Number) == (j + 1) / 2,
        count_kind(ts.take(j), TokenKind::Add) == j / 2,
    decreases j,
{
    if j > 0 {
        lemma_chain_counts(ts, j - 1);
        assert(ts.take(j).drop_last() == ts.take(j - 1));
        assert(ts.take(j).last() == ts[j - 1]);
    }
}

proof fn lemma_chain_parse(ts: Seq<(TokenKind, Seq<char>)>, i: int)
    requires
        is_sum_chain(ts),
        0 <= i < ts.len(),
        i % 2 == 0,
    ensures
        parse_expr(ts, i) is Some,
        (parse_expr(ts, i)->0).1 == ts.len(),
        binary_count((parse_expr(ts, i)->0).0) == (ts.len() - 1 - i) / 2,
        depth((parse_expr(ts, i)->0).0) == (ts.len() - 1 - i) / 2,
    decreases ts.len() - i,
{
    assert(ts[i].0 == TokenKind::Number);
    if i + 1 < ts.len() {
        assert(ts[i + 1].0 == TokenKind::Add);
        lemma_chain_parse(ts, i + 2);
    }
}

/// On an input whose non-whitespace tokens are numbers joined by single
/// `+` signs, parsing takes every token, the left terms of the `Binary`
/// nodes plus one are as many as the numbers, and the nesting depth is the
/// number of `+` signs.
pub proof fn lemma_sum_shape(s: Seq<char>)
    requires
        lexable(s),
        is_sum_chain(without_ws(lexemes(s))),
    ensures
        ({
            let f = without_ws(lexemes(s));
            let p = parse_expr(f, 0);
            &&& p is Some
            &&& (p->0).1 == f.len()
            &&& binary_count((p->0).0) + 1 == count_kind(f, TokenKind::Number)
            &&& depth((p->0).0) == count_kind(f, TokenKind::Add)
        }),
{
    let f = without_ws(lexemes(s));
    lemma_chain_parse(f, 0);
    lemma_chain_counts(f, f.len() as int);
    assert(f.take(f.len() as int) == f);
}

/// Lexes a line, drops its whitespace and parses what is left as one
/// expression that must take every token.
pub fn parse_input(input: &String) -> (r: Result<E, InputError>)
    ensures
        !lexable(input@) <==> r matches Err(InputError::Lex(_)),
        r matches Err(InputError::Lex(e)) ==> exists|k: int|
            first_unknown(input@, k) && e.fragment@ == seq![input@[k]],
        lexable(input@) ==> {
            let f = without_ws(lexemes(input@));
            if !numbers_fit(f) {
                r matches Err(InputError::NumericOverflow)
            } else {
                match parse_expr(f, 0) {
                    None => r matches Err(InputError::NoParse),
                    Some(p) => if p.1 == f.len() {
                        r matches Ok(e) && e.model() == p.0
                    } else {
                        r matches Err(InputError::IncompleteParse { consumed, total })
                            && consumed == p.1 && total == f.len()
                    },
                }
            }
        },
{
    let tokens = match lex(input) {
        Ok(ts) => ts,
        Err(e) => {
            return Err(InputError::Lex(e));
        },
    };
    let tokens = remove_whitespace(&tokens);
    if !all_numbers_fit(&tokens) {
        return Err(InputError::NumericOverflow);
    }
    let (parsed, idx) = parse_e(&tokens, 0);
    match parsed {
        None => Err(InputError::NoParse),
        Some(e) => {
            if idx != tokens.len() {
                Err(InputError::IncompleteParse { consumed: idx, total: tokens.len() })
            } else {
                Ok(e)
            }
        },
    }
}

} // verus!
