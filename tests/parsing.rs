use sum_parser::lexer::lex;
use sum_parser::parser::{parse_e, parse_number, parse_op, parse_t, E, T};
use sum_parser::pipeline::{parse_input, remove_whitespace, InputError};
use sum_parser::token::Token;

fn filtered(input: &str) -> Vec<Token> {
    remove_whitespace(&lex(&input.to_string()).unwrap())
}

fn terms(e: &E) -> Vec<i32> {
    match e {
        E::Binary { left, op, right } => {
            assert!(matches!(&op.op, Token::Add(s) if s == "+"));
            let mut v = vec![left.n];
            v.extend(terms(right));
            v
        }
        E::Unary { term } => vec![term.n],
    }
}

fn depth(e: &E) -> usize {
    match e {
        E::Binary { right, .. } => depth(right) + 1,
        E::Unary { .. } => 0,
    }
}

#[test]
fn parse_right_nested_sum() {
    let toks = filtered("1+2+3");
    assert_eq!(toks.len(), 5);
    let (e, idx) = parse_e(&toks, 0);
    assert_eq!(idx, 5);
    match e.unwrap() {
        E::Binary { left, op, right } => {
            assert_eq!(left, T { n: 1 });
            assert!(matches!(op.op, Token::Add(_)));
            match *right {
                E::Binary { left, op, right } => {
                    assert_eq!(left, T { n: 2 });
                    assert!(matches!(op.op, Token::Add(_)));
                    assert!(matches!(*right, E::Unary { term: T { n: 3 } }));
                }
                E::Unary { .. } => panic!("expected a nested Binary"),
            }
        }
        E::Unary { .. } => panic!("expected Binary"),
    }
}

#[test]
fn parse_trailing_plus_falls_back_to_term() {
    let toks = filtered("1+");
    assert_eq!(toks.len(), 2);
    let (e, idx) = parse_e(&toks, 0);
    assert!(matches!(e, Some(E::Unary { term: T { n: 1 } })));
    assert_eq!(idx, 1);
    match parse_input(&"1+".to_string()) {
        Err(InputError::IncompleteParse { consumed, total }) => {
            assert_eq!(consumed, 1);
            assert_eq!(total, 2);
        }
        other => panic!("unexpected {:?}", other),
    }
}

#[test]
fn parse_single_number() {
    let toks = filtered("42");
    let (e, idx) = parse_e(&toks, 0);
    assert!(matches!(e, Some(E::Unary { term: T { n: 42 } })));
    assert_eq!(idx, toks.len());
}

#[test]
fn sum_shape_counts() {
    let toks = filtered(" 10 + 20 +30\n");
    let (e, idx) = parse_e(&toks, 0);
    assert_eq!(idx, toks.len());
    let e = e.unwrap();
    let numbers = toks.iter().filter(|t| matches!(t, Token::Number(_))).count();
    let pluses = toks.iter().filter(|t| matches!(t, Token::Add(_))).count();
    assert_eq!(terms(&e), vec![10, 20, 30]);
    assert_eq!(depth(&e) + 1, numbers);
    assert_eq!(depth(&e), pluses);
}

#[test]
fn parse_e_past_end_and_on_operator() {
    let toks = filtered("+1");
    let (e, idx) = parse_e(&toks, 0);
    assert!(e.is_none());
    assert_eq!(idx, 0);
    let (e, idx) = parse_e(&toks, 2);
    assert!(e.is_none());
    assert_eq!(idx, 2);
    let (e, idx) = parse_e(&toks, 1);
    assert!(matches!(e, Some(E::Unary { term: T { n: 1 } })));
    assert_eq!(idx, 2);
}

#[test]
fn parse_t_and_parse_op() {
    let toks = filtered("5+");
    let (t, idx) = parse_t(&toks, 0);
    assert_eq!(t, Some(T { n: 5 }));
    assert_eq!(idx, 1);
    let (t, idx) = parse_t(&toks, 1);
    assert_eq!(t, None);
    assert_eq!(idx, 1);
    let (o, idx) = parse_op(&toks, 1);
    assert!(matches!(o.unwrap().op, Token::Add(s) if s == "+"));
    assert_eq!(idx, 2);
    let (o, idx) = parse_op(&toks, 0);
    assert!(o.is_none());
    assert_eq!(idx, 0);
    let (o, idx) = parse_op(&toks, 2);
    assert!(o.is_none());
    assert_eq!(idx, 2);
}

#[test]
fn parse_number_values() {
    assert_eq!(parse_number("0"), Some(0));
    assert_eq!(parse_number("007"), Some(7));
    assert_eq!(parse_number("2147483647"), Some(i32::MAX));
    assert_eq!(parse_number("2147483648"), None);
    assert_eq!(parse_number("99999999999999999999"), None);
    assert_eq!(parse_number(""), None);
    assert_eq!(parse_number("1a"), None);
    assert_eq!(parse_number("+1"), None);
}

#[test]
fn remove_whitespace_keeps_order() {
    let toks = lex(&" 1\t+ 2 ".to_string()).unwrap();
    assert_eq!(toks.len(), 7);
    let kept = remove_whitespace(&toks);
    assert_eq!(kept.len(), 3);
    assert!(matches!(&kept[0], Token::Number(s) if s == "1"));
    assert!(matches!(&kept[1], Token::Add(s) if s == "+"));
    assert!(matches!(&kept[2], Token::Number(s) if s == "2"));
}

#[test]
fn parse_input_whole_line() {
    let e = parse_input(&"1 + 2 + 3\n".to_string()).unwrap();
    assert_eq!(terms(&e), vec![1, 2, 3]);
    let e = parse_input(&"2147483647\n".to_string()).unwrap();
    assert_eq!(terms(&e), vec![i32::MAX]);
}

#[test]
fn parse_input_lex_error() {
    match parse_input(&"1 * 2".to_string()) {
        Err(InputError::Lex(e)) => assert_eq!(e.fragment, "*"),
        other => panic!("unexpected {:?}", other),
    }
}

#[test]
fn parse_input_numeric_overflow() {
    assert!(matches!(
        parse_input(&"1 + 2147483648\n".to_string()),
        Err(InputError::NumericOverflow)
    ));
}

#[test]
fn parse_input_no_parse() {
    assert!(matches!(parse_input(&"\n".to_string()), Err(InputError::NoParse)));
    assert!(matches!(parse_input(&String::new()), Err(InputError::NoParse)));
    assert!(matches!(parse_input(&"+ 1".to_string()), Err(InputError::NoParse)));
}

#[test]
fn parse_input_two_numbers_is_incomplete() {
    match parse_input(&"1 2".to_string()) {
        Err(InputError::IncompleteParse { consumed, total }) => {
            assert_eq!(consumed, 1);
            assert_eq!(total, 2);
        }
        other => panic!("unexpected {:?}", other),
    }
}
