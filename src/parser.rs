use vstd::prelude::*;
use crate::token::{is_digit, is_digit_run, views, Token, TokenKind};

verus! {

/// A term: one parsed integer.
#[derive(Clone, Copy, Debug, PartialEq, Eq, Structural)]
pub struct T {
    pub n: i32,
}

/// An operator, holding the token it was parsed from.
#[derive(Debug)]
pub struct Op {
    pub op: Token,
}

/// An expression: a term, an operator and a nested expression, or a lone
/// term. Chains nest to the right.
#[derive(Debug)]
pub enum E {
    Binary { left: T, op: Op, right: Box<E> },
    Unary { term: T },
}

/// The mathematical shape of an expression.
pub enum Tree {
    Binary { left: int, op: (TokenKind, Seq<char>), right: Box<Tree> },
    Unary { term: int },
}

impl E {
    pub open spec fn model(&self) -> Tree
        decreases self,
    {
        match self {
            E::Binary { left, op, right } => Tree::Binary {
                left: left.n as int,
                op: op.op@,
                right: Box::new(right.model()),
            },
            E::Unary { term } => Tree::Unary { term: term.n as int },
        }
    }
}

/// The value of a string of decimal digits.
pub open spec fn decimal(s: Seq<char>) -> nat
    decreases s.len(),
{
    if s.len() == 0 {
        0
    } else {
        decimal(s.drop_last()) * 10 + ((s.last() as u32 - '0' as u32) as nat)
    }
}

/// A `Number` token's text is a digit run whose value fits an `i32`.
pub open spec fn number_fits(t: (TokenKind, Seq<char>)) -> bool {
    t.0 == TokenKind::Number ==> is_digit_run(t.1) && decimal(t.1) <= i32::MAX
}

pub open spec fn numbers_fit(ts: Seq<(TokenKind, Seq<char>)>) -> bool {
    forall|i: int| 0 <= i < ts.len() ==> number_fits(#[trigger] ts[i])
}

pub open spec fn kind_at(ts: Seq<(TokenKind, Seq<char>)>, i: int, k: TokenKind) -> bool {
    0 <= i < ts.len() && ts[i].0 == k
}

/// The grammar `E := T '+' E | T`, read at position `i`: the longer form is
/// tried first, and on any failure the lone term is taken. Gives the tree
/// and the position after it, or nothing when no term stands at `i`.
pub open spec fn parse_expr(ts: Seq<(TokenKind, Seq<char>)>, i: int) -> Option<(Tree, int)>
    decreases ts.len() - i,
{
    if !kind_at(ts, i, TokenKind::Number) {
        None
    } else {
        let t = decimal(ts[i].1) as int;
        if kind_at(ts, i + 1, TokenKind::Add) && parse_expr(ts, i + 2) is Some {
            let rest = parse_expr(ts, i + 2)->0;
            Some((Tree::Binary { left: t, op: ts[i + 1], right: Box::new(rest.0) }, rest.1))
        } else {
            Some((Tree::Unary { term: t }, i + 1))
        }
    }
}

proof fn lemma_decimal_prefix_monotone(s: Seq<char>, j: int, k: int)
    requires
        0 <= j <= k <= s.len(),
        forall|i: int| 0 <= i < s.len() ==> is_digit(#[trigger] s[i]),
    ensures
        decimal(s.take(j)) <= decimal(s.take(k)),
    decreases k - j,
{
    if j < k {
        lemma_decimal_prefix_monotone(s, j, k - 1);
        assert(s.take(k).drop_last() == s.take(k - 1));
    }
}

/// Reads a run of ASCII digits as an `i32`; nothing when the text is not
/// such a run or its value does not fit.
pub fn parse_number(s: &str) -> (r: Option<i32>)
    ensures
        r == if is_digit_run(s@) && decimal(s@) <= i32::MAX {
            Some(decimal(s@) as i32)
        } else {
            None::<i32>
        },
{
    let len = s.unicode_len();
    if len == 0 {
        return None;
    }
    let mut acc: u64 = 0;
    let mut i: usize = 0;
    while i < len
        invariant
            len == s@.len(),
            i <= len,
            forall|j: int| 0 <= j < i ==> is_digit(#[trigger] s@[j]),
            acc == decimal(s@.take(i as int)),
            acc <= i32::MAX,
        decreases len - i,
    {
        let c = s.get_char(i);
        if !('0' <= c && c <= '9') {
            return None;
        }
        assert(s@.take(i + 1).drop_last() == s@.take(i as int));
        acc = acc * 10 + (c as u64 - '0' as u64);
        i = i + 1;
        if acc > i32::MAX as u64 {
            assert(s@.take(len as int) == s@);
            assert(!(is_digit_run(s@) && decimal(s@) <= i32::MAX)) by {
                if is_digit_run(s@) {
                    lemma_decimal_prefix_monotone(s@, i as int, len as int);
                }
            }
            return None;
        }
    }
    assert(s@.take(len as int) == s@);
    Some(acc as i32)
}

/// A term at `idx`: a `Number` token.
pub fn parse_t(toks: &Vec<Token>, idx: usize) -> (r: (Option<T>, usize))
    requires
        idx < toks@.len() ==> number_fits(toks@[idx as int]@),
    ensures
        kind_at(views(toks@), idx as int, TokenKind::Number) ==> r.0 == Some(
            T { n: decimal(toks@[idx as int]@.1) as i32 },
        ) && r.1 == idx + 1,
        !kind_at(views(toks@), idx as int, TokenKind::Number) ==> r.0 is None && r.1 == idx,
{
    if idx >= toks.len() {
        return (None, idx);
    }
    match &toks[idx] {
        Token::Number(n) => {
            match parse_number(n.as_str()) {
                Some(v) => (Some(T { n: v }), idx + 1),
                None => (None, idx),
            }
        },
        _ => (None, idx),
    }
}

/// An operator at `idx`: an `Add` token.
pub fn parse_op(toks: &Vec<Token>, idx: usize) -> (r: (Option<Op>, usize))
    ensures
        kind_at(views(toks@), idx as int, TokenKind::Add) ==> r.0 is Some && r.0->0.op@
            == toks@[idx as int]@ && r.1 == idx + 1,
        !kind_at(views(toks@), idx as int, TokenKind::Add) ==> r.0 is None && r.1 == idx,
{
    if idx >= toks.len() {
        return (None, idx);
    }
    match &toks[idx] {
        Token::Add(op) => (Some(Op { op: Token::Add(op.clone()) }), idx + 1),
        _ => (None, idx),
    }
}

/// An expression at `idx`, by recursive descent with backtracking. Gives
/// nothing, and `idx` back, when no expression starts there.
pub fn parse_e(toks: &Vec<Token>, idx: usize) -> (r: (Option<E>, usize))
    requires
        numbers_fit(views(toks@)),
    ensures
        match parse_expr(views(toks@), idx as int) {
            Some(p) => r.0 is Some && r.0->0.model() == p.0 && r.1 == p.1,
            None => r.0 is None && r.1 == idx,
        },
    decreases toks@.len() - idx,
{
    if idx >= toks.len() {
        return (None, idx);
    }
    assert(number_fits(views(toks@)[idx as int]));
    let (parse_one, new_idx) = parse_t(toks, idx);
    if let Some(one) = parse_one {
        let (parse_two, new_idx) = parse_op(toks, new_idx);
        if let Some(two) = parse_two {
            let (parse_three, new_idx) = parse_e(toks, new_idx);
            if let Some(three) = parse_three {
                return (Some(E::Binary { left: one, op: two, right: Box::new(three) }), new_idx);
            }
        }
    }
    let (parse, idx) = parse_t(toks, idx);
    if let Some(one) = parse {
        return (Some(E::Unary { term: one }), idx);
    }
    (None, idx)
}

} // verus!
