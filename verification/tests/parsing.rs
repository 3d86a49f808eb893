use lisptick::lexer::{Lexer, Number};
use lisptick::parser::{Node, Parser};
use lisptick::ParseError;

fn chars(s: &str) -> Vec<char> {
    s.chars().collect()
}

fn parser_for(src: &str) -> Parser {
    Parser::new(Lexer::new(chars(src)).init())
}

fn parse_one(src: &str) -> Result<Node, ParseError> {
    parser_for(src).parse_node()
}

fn sym(s: &str) -> Node {
    Node::Sym(chars(s))
}

fn text(s: &str) -> Node {
    Node::Str(chars(s))
}

fn num(int_part: u64, frac_part: u64, frac_len: usize) -> Node {
    Node::Number(Number { int_part, frac_part, frac_len })
}

#[test]
fn test_parser() {
    let mut parser = Parser::new(Lexer::new(chars("(foo bar (baz 4))")).init());
    let list = parser.parse_node();
    assert_eq!(
        list,
        Ok(Node::List(vec![
            sym("foo"),
            sym("bar"),
            Node::List(vec![sym("baz"), num(4, 0, 0)]),
        ]))
    );
    let mut parser = Parser::new(Lexer::new(chars("(car '(a b 23.342 \"foo\"))")).init());
    let list = parser.parse_node();
    assert_eq!(
        list,
        Ok(Node::List(vec![
            sym("car"),
            Node::List(vec![
                sym("quote"),
                Node::List(vec![sym("a"), sym("b"), num(23, 342, 3), text("foo")]),
            ]),
        ]))
    );
}

#[test]
fn quote_shorthand_desugars() {
    assert_eq!(parse_one("'x"), parse_one("(quote x)"));
    assert_eq!(parse_one("'x"), Ok(Node::List(vec![sym("quote"), sym("x")])));
    assert_eq!(parse_one("'(a b)"), parse_one("(quote (a b))"));
}

#[test]
fn empty_list() {
    assert_eq!(parse_one("()"), Ok(Node::List(vec![])));
    assert_eq!(parse_one("[]"), Ok(Node::List(vec![])));
}

#[test]
fn unexpected_close_is_an_error() {
    assert_eq!(parse_one(")"), Err(ParseError::UnexpectedToken));
}

#[test]
fn unterminated_list_closes_leniently() {
    // Documented policy: end of input inside a list is an implicit close.
    assert_eq!(parse_one("("), Ok(Node::List(vec![])));
    assert_eq!(parse_one("(a (b"), Ok(Node::List(vec![sym("a"), Node::List(vec![sym("b")])])));
}

#[test]
fn empty_input_where_node_expected() {
    assert_eq!(parse_one(""), Err(ParseError::UnexpectedEof));
    assert_eq!(parse_one("'"), Err(ParseError::UnexpectedEof));
}

#[test]
fn scan_failure_surfaces_through_parsing() {
    assert_eq!(parse_one("(\"abc"), Err(ParseError::UnterminatedString));
    assert_eq!(parse_one("(\"a\\qb\")"), Err(ParseError::InvalidEscape));
}

#[test]
fn leaves_parse_to_leaf_nodes() {
    assert_eq!(parse_one("foo"), Ok(sym("foo")));
    assert_eq!(parse_one("\"hi\""), Ok(text("hi")));
    assert_eq!(parse_one("7"), Ok(num(7, 0, 0)));
}

#[test]
fn whole_program_is_an_implicit_list() {
    let mut parser = parser_for("a b (c)");
    assert_eq!(
        parser.parse_list(),
        Ok(Node::List(vec![sym("a"), sym("b"), Node::List(vec![sym("c")])]))
    );
}

#[test]
fn string_escape_inside_tree() {
    assert_eq!(
        parse_one("(\"a\\nb\")"),
        Ok(Node::List(vec![text("a\nb")]))
    );
}
