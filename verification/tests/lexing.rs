use lisptick::lexer::{Lexer, Number, Token};
use lisptick::ParseError;

fn chars(s: &str) -> Vec<char> {
    s.chars().collect()
}

/// Drain every token; stop at clean end of input or the first failure.
fn tokens(src: &str) -> Result<Vec<Token>, ParseError> {
    let mut lexer = Lexer::new(chars(src)).init();
    let mut out = Vec::new();
    loop {
        match lexer.next() {
            Ok(Some(t)) => out.push(t),
            Ok(None) => return Ok(out),
            Err(e) => return Err(e),
        }
    }
}

fn number(int_part: u64, frac_part: u64, frac_len: usize) -> Number {
    Number { int_part, frac_part, frac_len }
}

fn to_f64(n: &Number) -> f64 {
    n.int_part as f64 + n.frac_part as f64 / 10f64.powi(n.frac_len as i32)
}

#[test]
fn single_symbol_token() {
    let ts = tokens("abc").unwrap();
    assert_eq!(ts, vec![Token::Sym(chars("abc"))]);
}

#[test]
fn symbol_with_odd_characters() {
    let ts = tokens("a+b*0?!").unwrap();
    assert_eq!(ts, vec![Token::Sym(chars("a+b*0?!"))]);
}

#[test]
fn symbols_split_by_whitespace_and_brackets() {
    let ts = tokens(" foo\tbar\nbaz(qux]").unwrap();
    assert_eq!(
        ts,
        vec![
            Token::Sym(chars("foo")),
            Token::Sym(chars("bar")),
            Token::Sym(chars("baz")),
            Token::Open,
            Token::Sym(chars("qux")),
            Token::Close,
        ]
    );
}

#[test]
fn empty_input_has_no_tokens() {
    assert_eq!(tokens("").unwrap(), vec![]);
    assert_eq!(tokens(" \t\n").unwrap(), vec![]);
}

#[test]
fn brackets_and_quote() {
    let ts = tokens("([)]'").unwrap();
    assert_eq!(
        ts,
        vec![Token::Open, Token::Open, Token::Close, Token::Close, Token::Quote]
    );
}

#[test]
fn number_with_fraction() {
    let ts = tokens("23.342").unwrap();
    assert_eq!(ts, vec![Token::Number(number(23, 342, 3))]);
    if let Token::Number(n) = &ts[0] {
        let v = to_f64(n);
        assert!((v - 23.342).abs() <= 1e-9 * 23.342);
    }
}

#[test]
fn integer_number() {
    assert_eq!(tokens("4").unwrap(), vec![Token::Number(number(4, 0, 0))]);
    assert_eq!(tokens("0").unwrap(), vec![Token::Number(number(0, 0, 0))]);
    assert_eq!(
        tokens("007").unwrap(),
        vec![Token::Number(number(7, 0, 0))]
    );
}

#[test]
fn number_with_trailing_dot() {
    // The dot is consumed even when no digit follows it.
    assert_eq!(tokens("1.").unwrap(), vec![Token::Number(number(1, 0, 0))]);
}

#[test]
fn number_fraction_keeps_leading_zeros() {
    // 0.042: the fraction scale records every scanned digit.
    assert_eq!(
        tokens("0.042").unwrap(),
        vec![Token::Number(number(0, 42, 3))]
    );
    if let Token::Number(n) = &tokens("0.042").unwrap()[0] {
        assert!((to_f64(n) - 0.042).abs() <= 1e-9);
    }
}

#[test]
fn huge_number_saturates() {
    // Twenty nines cannot fit in 64 bits; the value saturates rather than
    // wrapping or failing.
    assert_eq!(
        tokens("99999999999999999999").unwrap(),
        vec![Token::Number(number(u64::MAX, 0, 0))]
    );
}

#[test]
fn string_literal_plain() {
    assert_eq!(
        tokens("\"foo\"").unwrap(),
        vec![Token::Str(chars("foo"))]
    );
    assert_eq!(tokens("\"\"").unwrap(), vec![Token::Str(chars(""))]);
}

#[test]
fn string_escapes_decode() {
    // The source "a\nb" decodes to a literal holding a real line feed.
    let ts = tokens("\"a\\nb\"").unwrap();
    assert_eq!(ts, vec![Token::Str(chars("a\nb"))]);
    let ts = tokens("\"a\\rb\\0c\"").unwrap();
    assert_eq!(ts, vec![Token::Str(chars("a\rb\0c"))]);
}

#[test]
fn unsupported_escape_is_an_error() {
    assert_eq!(tokens("\"a\\qb\""), Err(ParseError::InvalidEscape));
    // Hex escapes are unsupported and surface the same recoverable error.
    assert_eq!(tokens("\"a\\x41\""), Err(ParseError::InvalidEscape));
    assert_eq!(tokens("\"a\\X41\""), Err(ParseError::InvalidEscape));
}

#[test]
fn unterminated_string_is_an_error() {
    // Never a silently truncated token stream.
    assert_eq!(tokens("\"abc"), Err(ParseError::UnterminatedString));
    assert_eq!(tokens("\"abc\\"), Err(ParseError::UnterminatedString));
}

#[test]
fn error_comes_after_earlier_tokens() {
    let mut lexer = Lexer::new(chars("x \"abc")).init();
    assert_eq!(lexer.next(), Ok(Some(Token::Sym(chars("x")))));
    assert_eq!(lexer.next(), Err(ParseError::UnterminatedString));
    // The failure is sticky: every later call reports it again.
    assert_eq!(lexer.next(), Err(ParseError::UnterminatedString));
}

#[test]
fn peek_reports_without_consuming() {
    let mut lexer = Lexer::new(chars("a b")).init();
    assert_eq!(lexer.peek(), &Ok(Some(Token::Sym(chars("a")))));
    assert_eq!(lexer.peek(), &Ok(Some(Token::Sym(chars("a")))));
    assert_eq!(lexer.next(), Ok(Some(Token::Sym(chars("a")))));
    assert_eq!(lexer.peek(), &Ok(Some(Token::Sym(chars("b")))));
    assert_eq!(lexer.next(), Ok(Some(Token::Sym(chars("b")))));
    assert_eq!(lexer.peek(), &Ok(None));
    assert_eq!(lexer.next(), Ok(None));
}
