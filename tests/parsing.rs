use paren_parser::cursor::Cursor;
use paren_parser::expr::{expr, parse_expression, term, Expression};
use paren_parser::lexer::{identifier, next_token, number, ErrorKind, ParseError, Token};
use paren_parser::tree::{tokenize_tree, TokenTree};

fn num(t: &str) -> Expression<'_> {
    Expression::Value(Token::Number(t))
}

fn id(t: &str) -> Expression<'_> {
    Expression::Value(Token::Ident(t))
}

fn add<'a>(l: Expression<'a>, r: Expression<'a>) -> Expression<'a> {
    Expression::Add(Box::new(l), Box::new(r))
}

fn leaf_id(t: &str) -> TokenTree<'_> {
    TokenTree::Leaf(Token::Ident(t))
}

fn number_value(e: &Expression) -> f64 {
    match e {
        Expression::Value(Token::Number(t)) => t.parse().unwrap(),
        _ => panic!("not a number: {:?}", e),
    }
}

#[test]
fn test_term_with_number() {
    let input = "42";
    let result = term(input);
    assert_eq!(result, Ok(("", num("42"))));
    assert_eq!(number_value(&result.unwrap().1), 42.0);
}

#[test]
fn test_term_with_identifier() {
    let input = "variable";
    let result = term(input);
    assert_eq!(result, Ok(("", id("variable"))));
}

#[test]
fn test_term_with_parentheses() {
    let input = "(123)";
    let result = term(input);
    assert_eq!(result, Ok(("", num("123"))));
    assert_eq!(number_value(&result.unwrap().1), 123.0);
}

#[test]
fn test_term_with_invalid_input() {
    let input = "!invalid";
    let result = term(input);
    assert!(result.is_err());
    if let Err(ParseError { kind, .. }) = result {
        assert_eq!(kind, ErrorKind::UnmatchedToken);
    }
}

#[test]
fn skip_whitespace_twice_is_once() {
    let cur = Cursor::new("   ab  c");
    let once = cur.skip_whitespace(0);
    assert_eq!(once, 3);
    assert_eq!(cur.skip_whitespace(once), once);
    let cur = Cursor::new(" \t x");
    assert_eq!(cur.skip_whitespace(0), 1);
}

#[test]
fn identifier_takes_longest_run() {
    let cur = Cursor::new("abc12 x");
    assert_eq!(identifier(&cur, 0), Some((5, "abc12")));
    let cur = Cursor::new("Hello");
    assert_eq!(identifier(&cur, 0), Some((5, "Hello")));
    let cur = Cursor::new("a_b");
    assert_eq!(identifier(&cur, 0), Some((1, "a")));
    let cur = Cursor::new("9a");
    assert_eq!(identifier(&cur, 0), None);
    let cur = Cursor::new("_a");
    assert_eq!(identifier(&cur, 0), None);
}

#[test]
fn number_reads_back_formatted_value() {
    for f in [0.0f64, 3.25, -17.5, 1234567.0, 0.125] {
        let text = format!("{}", f);
        let cur = Cursor::new(&text);
        let (end, lexeme) = number(&cur, 0).unwrap();
        assert_eq!(end, text.chars().count());
        assert_eq!(lexeme, text.as_str());
        assert_eq!(lexeme.parse::<f64>().unwrap(), f);
    }
}

#[test]
fn number_rejects_malformed_runs() {
    let cur = Cursor::new("1.2.3");
    assert_eq!(number(&cur, 0), Err(ParseError { kind: ErrorKind::MalformedNumber, pos: 0 }));
    let cur = Cursor::new("--");
    assert_eq!(number(&cur, 0), Err(ParseError { kind: ErrorKind::MalformedNumber, pos: 0 }));
    let cur = Cursor::new("x.");
    assert_eq!(number(&cur, 1), Err(ParseError { kind: ErrorKind::MalformedNumber, pos: 1 }));
    let cur = Cursor::new("x");
    assert_eq!(number(&cur, 0), Err(ParseError { kind: ErrorKind::UnmatchedToken, pos: 0 }));
    let cur = Cursor::new("-.5 ");
    assert_eq!(number(&cur, 0), Ok((3, "-.5")));
    let cur = Cursor::new("+7.");
    assert_eq!(number(&cur, 0), Ok((3, "+7.")));
}

#[test]
fn next_token_order_and_end() {
    let cur = Cursor::new("  ab 12 ( ) !");
    assert_eq!(next_token(&cur, 0), Some((4, Token::Ident("ab"))));
    assert_eq!(next_token(&cur, 4), Some((7, Token::Number("12"))));
    assert_eq!(next_token(&cur, 7), Some((9, Token::LParen)));
    assert_eq!(next_token(&cur, 9), Some((11, Token::RParen)));
    assert_eq!(next_token(&cur, 11), None);
    let cur = Cursor::new("   ");
    assert_eq!(next_token(&cur, 0), None);
}

#[test]
fn tree_number_and_identifier() {
    assert_eq!(
        tokenize_tree("123 world"),
        TokenTree::Branch(vec![TokenTree::Leaf(Token::Number("123")), leaf_id("world")])
    );
}

#[test]
fn tree_nested_groups() {
    assert_eq!(
        tokenize_tree("((car cdr) cdr)"),
        TokenTree::Branch(vec![TokenTree::Branch(vec![
            TokenTree::Branch(vec![leaf_id("car"), leaf_id("cdr")]),
            leaf_id("cdr"),
        ])])
    );
}

#[test]
fn tree_stray_close_ends_top_level() {
    assert_eq!(
        tokenize_tree("()())))(((())))"),
        TokenTree::Branch(vec![TokenTree::Branch(vec![]), TokenTree::Branch(vec![])])
    );
}

#[test]
fn tree_never_fails() {
    assert_eq!(tokenize_tree(""), TokenTree::Branch(vec![]));
    assert_eq!(tokenize_tree("))"), TokenTree::Branch(vec![]));
    assert_eq!(
        tokenize_tree("(("),
        TokenTree::Branch(vec![TokenTree::Branch(vec![TokenTree::Branch(vec![])])])
    );
    assert_eq!(tokenize_tree("a ! b"), TokenTree::Branch(vec![leaf_id("a")]));
    assert_eq!(tokenize_tree("(a 1.2.3 b)"), TokenTree::Branch(vec![TokenTree::Branch(vec![leaf_id("a")])]));
}

#[test]
fn expression_single_number() {
    let e = parse_expression("123").unwrap();
    assert_eq!(e, num("123"));
    assert_eq!(number_value(&e), 123.0);
}

#[test]
fn expression_group_then_identifier() {
    assert_eq!(
        parse_expression("(123 + 456) + world"),
        Ok(add(add(num("123"), num("456")), id("world")))
    );
}

#[test]
fn expression_folds_left() {
    assert_eq!(
        parse_expression("((1 + 2) + (3 + 4)) + 5 + 6"),
        Ok(add(
            add(add(add(num("1"), num("2")), add(num("3"), num("4"))), num("5")),
            num("6")
        ))
    );
    assert_eq!(
        parse_expression("car + cdr + cdr"),
        Ok(add(add(id("car"), id("cdr")), id("cdr")))
    );
}

#[test]
fn expression_unmatched_token() {
    assert_eq!(
        parse_expression("!invalid"),
        Err(ParseError { kind: ErrorKind::UnmatchedToken, pos: 0 })
    );
    assert_eq!(
        parse_expression("1 + !"),
        Err(ParseError { kind: ErrorKind::UnmatchedToken, pos: 2 })
    );
    assert_eq!(parse_expression(""), Err(ParseError { kind: ErrorKind::UnmatchedToken, pos: 0 }));
}

#[test]
fn expression_malformed_number() {
    assert_eq!(
        parse_expression("1.2.3"),
        Err(ParseError { kind: ErrorKind::MalformedNumber, pos: 0 })
    );
    assert_eq!(
        parse_expression("(--)"),
        Err(ParseError { kind: ErrorKind::MalformedNumber, pos: 1 })
    );
}

#[test]
fn expression_unmatched_parenthesis() {
    assert_eq!(
        parse_expression("(1 + 2"),
        Err(ParseError { kind: ErrorKind::UnmatchedParenthesis, pos: 6 })
    );
    assert_eq!(
        parse_expression("1)"),
        Err(ParseError { kind: ErrorKind::UnmatchedParenthesis, pos: 1 })
    );
}

#[test]
fn expr_leaves_unmatched_tail() {
    assert_eq!(expr("a + b + !"), Ok(("+ !", add(id("a"), id("b")))));
    assert_eq!(expr("_x1\t+\n2 rest"), Ok(("rest", add(id("_x1"), num("2")))));
    assert_eq!(expr("Hello + world"), Ok(("", add(id("Hello"), id("world")))));
}
