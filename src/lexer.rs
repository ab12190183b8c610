use vstd::prelude::*;
use crate::token::{
    char_kind, classify, is_digit, is_digit_run, is_space, is_space_run, views, well_formed, Token,
    TokenKind,
};

verus! {

/// Recognizes a lone `+`.
pub const ADD_PATTERN: &'static str = r"^\+$";

/// Recognizes a non-empty run of ASCII digits.
pub const NUMBER_PATTERN: &'static str = "^[0-9]+$";

/// Recognizes a non-empty run of spaces, tabs and newlines.
pub const WS_PATTERN: &'static str = r"^[\t\n ]+$";

/// What each recognizer's pattern matches, as a whole-string match.
pub open spec fn pattern_accepts(pattern: Seq<char>, hay: Seq<char>) -> bool {
    if pattern == ADD_PATTERN@ {
        hay == seq!['+']
    } else if pattern == NUMBER_PATTERN@ {
        is_digit_run(hay)
    } else {
        is_space_run(hay)
    }
}

/// Relies on regex::Regex::new, which compiles each of the three small
/// anchored patterns without error, and on Regex::is_match, which reports
/// whether the pattern matches somewhere in the haystack; with `^` and `$`
/// (no multi-line mode) that is a match of the whole haystack. The pattern
/// is compiled on each call.
#[verifier::external_body]
fn full_match(pattern: &str, hay: &str) -> (r: bool)
    requires
        pattern@ == ADD_PATTERN@ || pattern@ == NUMBER_PATTERN@ || pattern@ == WS_PATTERN@,
    ensures
        r == pattern_accepts(pattern@, hay@),
{
    regex::Regex::new(pattern).unwrap().is_match(hay)
}

/// Classifies a candidate string with the three recognizers in priority order.
pub fn get_match(s: &str) -> (r: Option<Token>)
    ensures
        r is Some <==> classify(s@) is Some,
        r is Some ==> r->0@ == (classify(s@)->0, s@),
{
    proof {
        reveal_strlit(r"^\+$");
        reveal_strlit("^[0-9]+$");
        reveal_strlit(r"^[\t\n ]+$");
        assert(ADD_PATTERN@[1] != NUMBER_PATTERN@[1]);
        assert(ADD_PATTERN@[1] != WS_PATTERN@[1]);
        assert(NUMBER_PATTERN@[2] != WS_PATTERN@[2]);
    }
    if full_match(ADD_PATTERN, s) {
        Some(Token::Add(s.to_owned()))
    } else if full_match(NUMBER_PATTERN, s) {
        Some(Token::Number(s.to_owned()))
    } else if full_match(WS_PATTERN, s) {
        Some(Token::Whitespace(s.to_owned()))
    } else {
        None
    }
}

/// The input held a character that no recognizer accepts.
#[derive(Clone, Debug)]
pub struct LexError {
    /// The fragment that could not be classified: the offending character.
    pub fragment: String,
}

/// Every character of `s` starts some lexeme class.
pub open spec fn lexable(s: Seq<char>) -> bool {
    forall|i: int| 0 <= i < s.len() ==> (#[trigger] char_kind(s[i])) is Some
}

/// `k` is the position of the first character of `s` that no recognizer
/// accepts.
pub open spec fn first_unknown(s: Seq<char>, k: int) -> bool {
    0 <= k < s.len() && char_kind(s[k]) is None && lexable(s.take(k))
}

/// A lexeme of kind `k` grows by `c`: numbers and whitespace extend to
/// maximal runs, while `+` always stands alone.
pub open spec fn joins(k: TokenKind, c: char) -> bool {
    k != TokenKind::Add && char_kind(c) == Some(k)
}

/// Maximal-munch lexing, read from left to right: each character either
/// extends the lexeme before it or starts a new one.
pub open spec fn lexemes(s: Seq<char>) -> Seq<(TokenKind, Seq<char>)>
    decreases s.len(),
{
    if s.len() == 0 {
        seq![]
    } else {
        let prev = lexemes(s.drop_last());
        let c = s.last();
        if prev.len() > 0 && joins(prev.last().0, c) {
            prev.drop_last().push((prev.last().0, prev.last().1.push(c)))
        } else {
            prev.push((char_kind(c)->0, seq![c]))
        }
    }
}

proof fn lemma_classify_single(c: char)
    ensures
        classify(seq![c]) == char_kind(c),
{
    let s = seq![c];
    assert(s[0] == c);
    if c == '+' {
        assert(!is_digit_run(s));
    }
}

/// A recognized lexeme still classifies after one more character exactly
/// when that character joins it, and then keeps its kind.
proof fn lemma_extend(p: Seq<char>, k: TokenKind, c: char)
    requires
        classify(p) == Some(k),
    ensures
        (classify(p.push(c)) is Some) <==> joins(k, c),
        joins(k, c) ==> classify(p.push(c)) == Some(k),
{
    let q = p.push(c);
    assert(q[q.len() - 1] == c);
    assert(q[0] == p[0]);
    assert(q.len() >= 2);
    assert(q != seq!['+']) by {
        assert(q.len() != seq!['+'].len());
    }
    match k {
        TokenKind::Add => {
            assert(p[0] == '+');
            assert(!is_digit(q[0]) && !is_space(q[0]));
        },
        TokenKind::Number => {
            assert(is_digit(p[0]));
            assert(!is_space(q[0]));
            if is_digit(c) {
                assert forall|i: int| 0 <= i < q.len() implies is_digit(#[trigger] q[i]) by {
                    if i < p.len() {
                        assert(q[i] == p[i]);
                    }
                }
            }
        },
        TokenKind::Whitespace => {
            assert(is_space(p[0]));
            assert(!is_digit(q[0]));
            if is_space(c) {
                assert forall|i: int| 0 <= i < q.len() implies is_space(#[trigger] q[i]) by {
                    if i < p.len() {
                        assert(q[i] == p[i]);
                    }
                }
            }
        },
    }
}

proof fn lemma_views_push(ts: Seq<Token>, t: Token)
    ensures
        views(ts.push(t)) == views(ts).push(t@),
{
    assert(views(ts.push(t)) =~= views(ts).push(t@));
}

/// Every lexeme's text is recognized as its own kind: a `Number` is a
/// non-empty digit run, a `Whitespace` a non-empty run of blanks, an `Add`
/// a lone `+`.
pub proof fn lemma_lexemes_well_formed(s: Seq<char>)
    requires
        lexable(s),
    ensures
        forall|i: int| 0 <= i < lexemes(s).len() ==> well_formed(#[trigger] lexemes(s)[i]),
    decreases s.len(),
{
    if s.len() > 0 {
        let prev = lexemes(s.drop_last());
        let c = s.last();
        assert(lexable(s.drop_last())) by {
            assert forall|j: int| 0 <= j < s.drop_last().len() implies (#[trigger] char_kind(
                s.drop_last()[j],
            )) is Some by {
                assert(s.drop_last()[j] == s[j]);
            }
        }
        lemma_lexemes_well_formed(s.drop_last());
        assert(char_kind(s[s.len() - 1]) is Some);
        if prev.len() > 0 && joins(prev.last().0, c) {
            assert(well_formed(prev[prev.len() - 1]));
            lemma_extend(prev.last().1, prev.last().0, c);
        } else {
            lemma_classify_single(c);
        }
        let cur = lexemes(s);
        assert forall|i: int| 0 <= i < cur.len() implies well_formed(#[trigger] cur[i]) by {
            if i < cur.len() - 1 {
                assert(cur[i] == prev[i]);
            }
        }
    }
}

/// The texts of the lexemes, joined in order.
pub open spec fn texts(ts: Seq<(TokenKind, Seq<char>)>) -> Seq<char>
    decreases ts.len(),
{
    if ts.len() == 0 {
        seq![]
    } else {
        texts(ts.drop_last()) + ts.last().1
    }
}

/// Lexing loses no character: the lexemes' texts join back to the input.
pub proof fn lemma_texts_of_lexemes(s: Seq<char>)
    ensures
        texts(lexemes(s)) == s,
    decreases s.len(),
{
    if s.len() > 0 {
        let prev = lexemes(s.drop_last());
        let c = s.last();
        lemma_texts_of_lexemes(s.drop_last());
        if prev.len() > 0 && joins(prev.last().0, c) {
            let cur = prev.drop_last().push((prev.last().0, prev.last().1.push(c)));
            assert(cur.drop_last() == prev.drop_last());
            assert(texts(cur) =~= texts(prev).push(c));
        } else {
            let cur = prev.push((char_kind(c)->0, seq![c]));
            assert(cur.drop_last() == prev);
            assert(texts(cur) =~= texts(prev).push(c));
        }
        assert(s.drop_last().push(c) == s);
    }
}

/// Lexing the joined texts of what lexing gave yields the same lexemes.
pub proof fn lemma_relex(s: Seq<char>)
    requires
        lexable(s),
    ensures
        lexable(texts(lexemes(s))),
        lexemes(texts(lexemes(s))) == lexemes(s),
{
    lemma_texts_of_lexemes(s);
}

/// Splits the input into maximal lexemes. Fails on the first character that
/// no recognizer accepts.
pub fn lex(input: &String) -> (r: Result<Vec<Token>, LexError>)
    ensures
        match r {
            Ok(ts) => lexable(input@) && views(ts@) == lexemes(input@),
            Err(e) => !lexable(input@) && exists|k: int|
                first_unknown(input@, k) && e.fragment@ == seq![input@[k]],
        },
{
    let s = input.as_str();
    let n = s.unicode_len();
    let mut tokens: Vec<Token> = Vec::new();
    let mut last_token: Option<Token> = None;
    let mut start: usize = 0;
    let mut i: usize = 0;
    while i < n
        invariant
            s@ == input@,
            n == s@.len(),
            start <= i <= n,
            lexable(s@.take(i as int)),
            i == 0 ==> last_token is None && tokens@.len() == 0,
            i > 0 ==> {
                let m = lexemes(s@.take(i as int));
                &&& start < i
                &&& m.len() > 0
                &&& last_token is Some
                &&& last_token->0@ == m.last()
                &&& views(tokens@) == m.drop_last()
                &&& m.last().1 == s@.subrange(start as int, i as int)
                &&& classify(m.last().1) == Some(m.last().0)
            },
        decreases n - i,
    {
        let ghost prefix = s@.take(i as int);
        let ghost next = s@.take(i + 1);
        let ghost c = s@[i as int];
        assert(next.drop_last() == prefix);
        assert(next.last() == c);
        let ch_text = s.substring_char(i, i + 1);
        assert(ch_text@ == seq![c]);
        proof {
            lemma_classify_single(c);
        }
        let mut grown: Option<Token> = None;
        if i > 0 {
            let candidate = s.substring_char(start, i + 1);
            assert(candidate@ == s@.subrange(start as int, i as int).push(c));
            proof {
                let m = lexemes(prefix);
                lemma_extend(m.last().1, m.last().0, c);
            }
            grown = get_match(candidate);
        }
        match grown {
            Some(tok) => {
                last_token = Some(tok);
            },
            None => {
                match get_match(ch_text) {
                    None => {
                        assert(!lexable(s@)) by {
                            assert(char_kind(s@[i as int]) is None);
                        }
                        assert(first_unknown(s@, i as int));
                        return Err(LexError { fragment: ch_text.to_owned() });
                    },
                    Some(tok) => {
                        if let Some(prev) = last_token {
                            proof {
                                lemma_views_push(tokens@, prev);
                            }
                            tokens.push(prev);
                        }
                        last_token = Some(tok);
                        start = i;
                    },
                }
            },
        }
        assert(lexable(next)) by {
            assert forall|j: int| 0 <= j < next.len() implies (#[trigger] char_kind(next[j])) is Some by {
                if j < i {
                    assert(next[j] == prefix[j]);
                }
            }
        }
        i = i + 1;
    }
    assert(s@.take(n as int) == s@);
    if let Some(prev) = last_token {
        proof {
            lemma_views_push(tokens@, prev);
        }
        tokens.push(prev);
    }
    Ok(tokens)
}

} // verus!
