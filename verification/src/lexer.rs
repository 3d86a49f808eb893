//! Tokenization: classifying a character stream into a token stream with
//! one token of lookahead.

use crate::reader::Reader;
use crate::ParseError;
use vstd::prelude::*;

verus! {

// --- Character classes -----------------------------------------------------

pub open spec fn is_whitespace_char(c: char) -> bool {
    c == ' ' || c == '\t' || c == '\n'
}

pub open spec fn is_open_char(c: char) -> bool {
    c == '(' || c == '['
}

pub open spec fn is_close_char(c: char) -> bool {
    c == ')' || c == ']'
}

pub open spec fn is_bracket_char(c: char) -> bool {
    is_open_char(c) || is_close_char(c)
}

pub open spec fn is_digit_char(c: char) -> bool {
    '0' as u32 <= c as u32 && c as u32 <= '9' as u32
}

/// The numeric value of a decimal digit character.
pub open spec fn digit_val(c: char) -> u64 {
    (c as u32 - '0' as u32) as u64
}

/// A character that terminates symbol scanning.
pub open spec fn ends_symbol(c: char) -> bool {
    is_whitespace_char(c) || is_bracket_char(c)
}

/// Append one decimal digit to an accumulated value, saturating at the
/// largest representable value once the digits no longer fit.
pub open spec fn push_digit(v: u64, d: u64) -> u64 {
    if 10 * v + d <= u64::MAX {
        (10 * v + d) as u64
    } else {
        u64::MAX
    }
}

// --- Tokens -----------------------------------------------------------------

/// An exact decimal literal: `int_part` whole units plus `frac_part` scaled
/// down by `frac_len` decimal places, denoting
/// `int_part + frac_part / 10^frac_len`.  Digits beyond what a 64-bit value
/// can hold saturate the affected part.
#[derive(Clone, Copy, PartialEq, Eq, Structural, Debug)]
pub struct Number {
    pub int_part: u64,
    pub frac_part: u64,
    pub frac_len: usize,
}

/// One lexical unit of source text.
#[derive(Clone, Debug, PartialEq, Default)]
pub enum Token {
    #[default]
    /// Stream-exhaustion sentinel; never produced as a real token.
    Eof,
    /// An opening parenthesis or bracket.
    Open,
    /// A closing parenthesis or bracket.
    Close,
    /// The single-quote prefix marking a form as data.
    Quote,
    /// An identifier or operator name; never empty, never holding
    /// whitespace or a bracket character.
    Sym(Vec<char>),
    /// A string literal body with all escapes already resolved.
    Str(Vec<char>),
    /// A decimal numeric literal.
    Number(Number),
}

/// The mathematical shape of a token: text as character sequences.
pub enum TokenV {
    Eof,
    Open,
    Close,
    Quote,
    Sym(Seq<char>),
    Str(Seq<char>),
    Number(Number),
}

impl View for Token {
    type V = TokenV;

    open spec fn view(&self) -> TokenV {
        match self {
            Token::Eof => TokenV::Eof,
            Token::Open => TokenV::Open,
            Token::Close => TokenV::Close,
            Token::Quote => TokenV::Quote,
            Token::Sym(s) => TokenV::Sym(s@),
            Token::Str(s) => TokenV::Str(s@),
            Token::Number(n) => TokenV::Number(*n),
        }
    }
}

// --- The scanners, as mathematical functions over character sequences -------

/// Scan a symbol: take characters onto `acc` until a terminator or the end.
pub open spec fn spec_scan_sym(s: Seq<char>, acc: Seq<char>) -> (Seq<char>, Seq<char>)
    decreases s.len(),
{
    if s.len() == 0 || ends_symbol(s[0]) {
        (acc, s)
    } else {
        spec_scan_sym(s.skip(1), acc.push(s[0]))
    }
}

/// Scan a string literal body (the opening quote already consumed):
/// resolve escapes onto `acc` until the closing quote.
pub open spec fn spec_scan_string(s: Seq<char>, acc: Seq<char>) -> Result<
    (Seq<char>, Seq<char>),
    ParseError,
>
    decreases s.len(),
{
    if s.len() == 0 {
        Err(ParseError::UnterminatedString)
    } else if s[0] == '"' {
        Ok((acc, s.skip(1)))
    } else if s[0] == '\\' {
        if s.len() == 1 {
            Err(ParseError::UnterminatedString)
        } else if s[1] == 'r' {
            spec_scan_string(s.skip(2), acc.push('\r'))
        } else if s[1] == 'n' {
            spec_scan_string(s.skip(2), acc.push('\n'))
        } else if s[1] == '0' {
            spec_scan_string(s.skip(2), acc.push('\0'))
        } else {
            Err(ParseError::InvalidEscape)
        }
    } else {
        spec_scan_string(s.skip(1), acc.push(s[0]))
    }
}

/// Scan a run of digits, accumulating their value in decimal onto `v`.
pub open spec fn spec_scan_digits(s: Seq<char>, v: u64) -> (u64, Seq<char>)
    decreases s.len(),
{
    if s.len() == 0 || !is_digit_char(s[0]) {
        (v, s)
    } else {
        spec_scan_digits(s.skip(1), push_digit(v, digit_val(s[0])))
    }
}

/// Scan a run of fractional digits, also counting how many there were.
pub open spec fn spec_scan_frac(s: Seq<char>, v: u64, k: nat) -> (u64, nat, Seq<char>)
    decreases s.len(),
{
    if s.len() == 0 || !is_digit_char(s[0]) {
        (v, k, s)
    } else {
        spec_scan_frac(s.skip(1), push_digit(v, digit_val(s[0])), k + 1)
    }
}

/// Scan a numeric literal: an integer part, then an optional dot followed
/// by a fractional part.  The dot is consumed even when no digit follows.
pub open spec fn spec_scan_number(s: Seq<char>) -> (Number, Seq<char>) {
    let p = spec_scan_digits(s, 0);
    if p.1.len() > 0 && p.1[0] == '.' {
        let q = spec_scan_frac(p.1.skip(1), 0, 0);
        (Number { int_part: p.0, frac_part: q.0, frac_len: q.1 as usize }, q.2)
    } else {
        (Number { int_part: p.0, frac_part: 0, frac_len: 0 }, p.1)
    }
}

/// Scan one token: skip whitespace, then classify by the lead character.
/// `Ok(None)` is clean exhaustion of the input.
pub open spec fn spec_next_token(s: Seq<char>) -> Result<Option<(TokenV, Seq<char>)>, ParseError>
    decreases s.len(),
{
    if s.len() == 0 {
        Ok(None)
    } else if is_whitespace_char(s[0]) {
        spec_next_token(s.skip(1))
    } else if is_open_char(s[0]) {
        Ok(Some((TokenV::Open, s.skip(1))))
    } else if is_close_char(s[0]) {
        Ok(Some((TokenV::Close, s.skip(1))))
    } else if s[0] == '\'' {
        Ok(Some((TokenV::Quote, s.skip(1))))
    } else if s[0] == '"' {
        match spec_scan_string(s.skip(1), Seq::empty()) {
            Ok(p) => Ok(Some((TokenV::Str(p.0), p.1))),
            Err(e) => Err(e),
        }
    } else if is_digit_char(s[0]) {
        let p = spec_scan_number(s);
        Ok(Some((TokenV::Number(p.0), p.1)))
    } else {
        let p = spec_scan_sym(s, Seq::empty());
        Ok(Some((TokenV::Sym(p.0), p.1)))
    }
}

// --- Consumption lemmas ------------------------------------------------------

pub proof fn lemma_scan_sym_len(s: Seq<char>, acc: Seq<char>)
    ensures
        spec_scan_sym(s, acc).1.len() <= s.len(),
    decreases s.len(),
{
    if !(s.len() == 0 || ends_symbol(s[0])) {
        lemma_scan_sym_len(s.skip(1), acc.push(s[0]));
    }
}

pub proof fn lemma_scan_string_len(s: Seq<char>, acc: Seq<char>)
    ensures
        spec_scan_string(s, acc) matches Ok(p) ==> p.1.len() <= s.len(),
    decreases s.len(),
{
    if s.len() > 0 && s[0] != '"' {
        if s[0] == '\\' {
            if s.len() > 1 && (s[1] == 'r' || s[1] == 'n' || s[1] == '0') {
                lemma_scan_string_len(s.skip(2), acc.push(if s[1] == 'r' {
                    '\r'
                } else if s[1] == 'n' {
                    '\n'
                } else {
                    '\0'
                }));
            }
        } else {
            lemma_scan_string_len(s.skip(1), acc.push(s[0]));
        }
    }
}

pub proof fn lemma_scan_digits_len(s: Seq<char>, v: u64)
    ensures
        spec_scan_digits(s, v).1.len() <= s.len(),
    decreases s.len(),
{
    if !(s.len() == 0 || !is_digit_char(s[0])) {
        lemma_scan_digits_len(s.skip(1), push_digit(v, digit_val(s[0])));
    }
}

pub proof fn lemma_scan_frac_len(s: Seq<char>, v: u64, k: nat)
    ensures
        spec_scan_frac(s, v, k).2.len() <= s.len(),
    decreases s.len(),
{
    if !(s.len() == 0 || !is_digit_char(s[0])) {
        lemma_scan_frac_len(s.skip(1), push_digit(v, digit_val(s[0])), k + 1);
    }
}

/// Producing a token always consumes at least one character.
pub proof fn lemma_next_token_consumes(s: Seq<char>)
    ensures
        spec_next_token(s) matches Ok(Some(p)) ==> p.1.len() < s.len(),
    decreases s.len(),
{
    if s.len() == 0 {
    } else if is_whitespace_char(s[0]) {
        lemma_next_token_consumes(s.skip(1));
    } else if s[0] == '"' {
        lemma_scan_string_len(s.skip(1), Seq::empty());
    } else if is_digit_char(s[0]) {
        lemma_scan_digits_len(s.skip(1), push_digit(0, digit_val(s[0])));
        let p = spec_scan_digits(s, 0);
        if p.1.len() > 0 && p.1[0] == '.' {
            lemma_scan_frac_len(p.1.skip(1), 0, 0);
        }
    } else if !(is_open_char(s[0]) || is_close_char(s[0]) || s[0] == '\'') {
        lemma_scan_sym_len(s.skip(1), Seq::empty().push(s[0]));
    }
}

/// The whole token stream of a character sequence: the tokens produced
/// before scanning stops, and the failure that stopped it, if any.
pub open spec fn spec_tokens(s: Seq<char>) -> (Seq<TokenV>, Option<ParseError>)
    decreases s.len(),
    via spec_tokens_decreases
{
    match spec_next_token(s) {
        Err(e) => (Seq::empty(), Some(e)),
        Ok(None) => (Seq::empty(), None),
        Ok(Some(p)) => {
            let rest = spec_tokens(p.1);
            (seq![p.0] + rest.0, rest.1)
        },
    }
}

#[via_fn]
proof fn spec_tokens_decreases(s: Seq<char>) {
    lemma_next_token_consumes(s);
}

// --- The tokenizer -----------------------------------------------------------

/// Resolve a supported escape character to the character it denotes.
pub open spec fn escape_char(c: char) -> char {
    if c == 'r' {
        '\r'
    } else if c == 'n' {
        '\n'
    } else {
        '\0'
    }
}

/// A tokenizer over a character stream, holding one pre-computed token of
/// lookahead.  The current slot is `Ok(Some(t))` for a real token,
/// `Ok(None)` at clean end of input, and `Err(e)` once a scan has failed.
pub struct Lexer {
    chars: Reader<char, 2>,
    token: Result<Option<Token>, ParseError>,
}

impl Lexer {
    pub closed spec fn wf(self) -> bool {
        self.chars.wf()
    }

    /// The characters not yet consumed by scanning.
    pub closed spec fn pending(self) -> Seq<char> {
        self.chars.remaining()
    }

    /// The tokens still to be produced, and the failure that will cut the
    /// stream short, if any.
    pub closed spec fn stream(self) -> (Seq<TokenV>, Option<ParseError>) {
        match self.token {
            Err(e) => (Seq::empty(), Some(e)),
            Ok(None) => (Seq::empty(), None),
            Ok(Some(t)) => (
                seq![t@] + spec_tokens(self.chars.remaining()).0,
                spec_tokens(self.chars.remaining()).1,
            ),
        }
    }

    /// A measure that shrinks every time a token is handed out.
    pub closed spec fn measure(self) -> nat {
        self.chars.remaining().len() + if self.token matches Ok(Some(_)) {
            1nat
        } else {
            0nat
        }
    }

    /// An uninitialized tokenizer over the characters of `src`: no token is
    /// scanned until `init` runs, so construction itself cannot fail.
    pub fn new(src: Vec<char>) -> (r: Lexer)
        ensures
            r.wf(),
            r.pending() == src@,
            r.stream() == (Seq::<TokenV>::empty(), None::<ParseError>),
    {
        Lexer { chars: Reader::new(src), token: Ok(None) }
    }

    /// Initialize: scan the first token into the lookahead slot.
    pub fn init(self) -> (r: Lexer)
        requires
            self.wf(),
        ensures
            r.wf(),
            r.stream() == spec_tokens(self.pending()),
            r.measure() <= self.pending().len() + 1,
    {
        let mut l = self;
        let t = l._next();
        l.token = t;
        proof {
            lemma_next_token_consumes(self.pending());
        }
        l
    }

    /// Report the current token without consuming it.
    pub fn peek(&self) -> (r: &Result<Option<Token>, ParseError>)
        ensures
            ({
                let (ts, err) = self.stream();
                match r {
                    Ok(Some(t)) => ts.len() > 0 && t@ == ts[0],
                    Ok(None) => ts.len() == 0 && err is None,
                    Err(e) => ts.len() == 0 && err == Some(*e),
                }
            }),
    {
        &self.token
    }

    /// Return the current token and scan the one after it.  A clean end of
    /// input stays `Ok(None)`; a failed scan surfaces its error, now and on
    /// every later call.
    pub fn next(&mut self) -> (r: Result<Option<Token>, ParseError>)
        requires
            old(self).wf(),
        ensures
            final(self).wf(),
            ({
                let (ts, err) = old(self).stream();
                if ts.len() > 0 {
                    &&& r matches Ok(Some(t)) && t@ == ts[0]
                    &&& final(self).stream() == (ts.skip(1), err)
                    &&& final(self).measure() < old(self).measure()
                } else {
                    &&& (match err {
                        Some(e) => r == Err::<Option<Token>, ParseError>(e),
                        None => r == Ok::<Option<Token>, ParseError>(None),
                    })
                    &&& final(self).stream() == old(self).stream()
                    &&& final(self).measure() == old(self).measure()
                }
            }),
    {
        let mut taken: Result<Option<Token>, ParseError> = Ok(None);
        core::mem::swap(&mut taken, &mut self.token);
        match taken {
            Err(e) => {
                self.token = Err(e);
                Err(e)
            },
            Ok(None) => {
                self.token = Ok(None);
                Ok(None)
            },
            Ok(Some(t)) => {
                let ghost rem0 = self.chars.remaining();
                proof {
                    lemma_next_token_consumes(rem0);
                }
                let scanned = self._next();
                self.token = scanned;
                proof {
                    assert((seq![t@] + spec_tokens(rem0).0).skip(1) =~= spec_tokens(rem0).0);
                }
                Ok(Some(t))
            },
        }
    }

    /// Scan one token from the character window: skip whitespace, then
    /// classify by the lead character.
    fn _next(&mut self) -> (r: Result<Option<Token>, ParseError>)
        requires
            old(self).wf(),
        ensures
            final(self).wf(),
            final(self).token == old(self).token,
            ({
                match spec_next_token(old(self).chars.remaining()) {
                    Ok(Some(p)) => {
                        &&& r matches Ok(Some(t)) && t@ == p.0
                        &&& final(self).chars.remaining() == p.1
                    },
                    Ok(None) => r == Ok::<Option<Token>, ParseError>(None),
                    Err(e) => r == Err::<Option<Token>, ParseError>(e),
                }
            }),
            final(self).chars.remaining().len() <= old(self).chars.remaining().len(),
        decreases self.chars.remaining().len(),
    {
        match self.chars.peek(0) {
            None => Ok(None),
            Some(c) => {
                if c == '(' || c == '[' {
                    self.chars.next();
                    Ok(Some(Token::Open))
                } else if c == ')' || c == ']' {
                    self.chars.next();
                    Ok(Some(Token::Close))
                } else if c == '\'' {
                    self.chars.next();
                    Ok(Some(Token::Quote))
                } else if c == '"' {
                    self.chars.next();
                    self.next_str()
                } else if c as u32 >= '0' as u32 && c as u32 <= '9' as u32 {
                    proof {
                        lemma_scan_digits_len(old(self).chars.remaining(), 0);
                        let p = spec_scan_digits(old(self).chars.remaining(), 0);
                        if p.1.len() > 0 && p.1[0] == '.' {
                            lemma_scan_frac_len(p.1.skip(1), 0, 0);
                        }
                    }
                    let n = self.next_number();
                    Ok(Some(Token::Number(n)))
                } else if c == ' ' || c == '\t' || c == '\n' {
                    self.chars.next();
                    self._next()
                } else {
                    proof {
                        lemma_scan_sym_len(old(self).chars.remaining(), Seq::empty());
                    }
                    let sym = self.next_sym();
                    Ok(Some(Token::Sym(sym)))
                }
            },
        }
    }

    /// Resolve one escape character after a backslash onto `text`.
    fn escape(&mut self, text: &mut Vec<char>) -> (r: Result<(), ParseError>)
        requires
            old(self).wf(),
        ensures
            final(self).wf(),
            final(self).token == old(self).token,
            ({
                let s = old(self).chars.remaining();
                if s.len() == 0 {
                    &&& r == Err::<(), ParseError>(ParseError::UnterminatedString)
                    &&& final(text)@ == old(text)@
                    &&& final(self).chars.remaining() == s
                } else if s[0] == 'r' || s[0] == 'n' || s[0] == '0' {
                    &&& r == Ok::<(), ParseError>(())
                    &&& final(text)@ == old(text)@.push(escape_char(s[0]))
                    &&& final(self).chars.remaining() == s.skip(1)
                } else {
                    &&& r == Err::<(), ParseError>(ParseError::InvalidEscape)
                    &&& final(text)@ == old(text)@
                    &&& final(self).chars.remaining() == s.skip(1)
                }
            }),
            final(self).chars.remaining().len() <= old(self).chars.remaining().len(),
    {
        match self.chars.next() {
            None => Err(ParseError::UnterminatedString),
            Some(c) => {
                if c == 'r' {
                    text.push('\r');
                    Ok(())
                } else if c == 'n' {
                    text.push('\n');
                    Ok(())
                } else if c == '0' {
                    text.push('\0');
                    Ok(())
                } else {
                    Err(ParseError::InvalidEscape)
                }
            },
        }
    }

    /// Scan a string literal body, the opening quote already consumed.
    #[verifier::loop_isolation(false)]
    fn next_str(&mut self) -> (r: Result<Option<Token>, ParseError>)
        requires
            old(self).wf(),
        ensures
            final(self).wf(),
            final(self).token == old(self).token,
            ({
                match spec_scan_string(old(self).chars.remaining(), Seq::empty()) {
                    Ok(p) => {
                        &&& r matches Ok(Some(t)) && t@ == TokenV::Str(p.0)
                        &&& final(self).chars.remaining() == p.1
                    },
                    Err(e) => r == Err::<Option<Token>, ParseError>(e),
                }
            }),
            final(self).chars.remaining().len() <= old(self).chars.remaining().len(),
    {
        let ghost s0 = self.chars.remaining();
        let ghost tok0 = self.token;
        let mut text: Vec<char> = Vec::new();
        loop
            invariant
                self.wf(),
                self.token == tok0,
                self.chars.remaining().len() <= s0.len(),
                spec_scan_string(s0, Seq::empty()) == spec_scan_string(
                    self.chars.remaining(),
                    text@,
                ),
            decreases self.chars.remaining().len(),
        {
            let ghost rem = self.chars.remaining();
            match self.chars.next() {
                None => {
                    return Err(ParseError::UnterminatedString);
                },
                Some(c) => {
                    if c == '"' {
                        return Ok(Some(Token::Str(text)));
                    } else if c == '\\' {
                        match self.escape(&mut text) {
                            Ok(_u) => {
                                proof {
                                    assert(rem.skip(1).skip(1) =~= rem.skip(2));
                                }
                            },
                            Err(e) => {
                                return Err(e);
                            },
                        }
                    } else {
                        text.push(c);
                    }
                },
            }
        }
    }

    /// Scan a numeric literal: integer digits, then an optional dot and
    /// fractional digits, each accumulated in decimal.
    fn next_number(&mut self) -> (num: Number)
        requires
            old(self).wf(),
        ensures
            final(self).wf(),
            final(self).token == old(self).token,
            num == spec_scan_number(old(self).chars.remaining()).0,
            final(self).chars.remaining() == spec_scan_number(old(self).chars.remaining()).1,
    {
        let ghost s0 = self.chars.remaining();
        let ghost tok0 = self.token;
        let mut value: u64 = 0;
        loop
            invariant
                self.wf(),
                self.token == tok0,
                spec_scan_digits(s0, 0) == spec_scan_digits(self.chars.remaining(), value),
            ensures
                self.wf(),
                self.token == tok0,
                spec_scan_digits(s0, 0) == (value, self.chars.remaining()),
            decreases self.chars.remaining().len(),
        {
            match self.chars.peek(0) {
                None => {
                    break ;
                },
                Some(c) => {
                    if c as u32 >= '0' as u32 && c as u32 <= '9' as u32 {
                        value = push_digit_exec(value, digit_of(c));
                        self.chars.next();
                    } else {
                        break ;
                    }
                },
            }
        }
        let dot = match self.chars.peek(0) {
            Some(c) => c == '.',
            None => false,
        };
        if dot {
            self.chars.next();
            let ghost s1 = self.chars.remaining();
            proof {
                self.chars.lemma_remaining_bounded();
            }
            let mut frac: u64 = 0;
            let mut scale: usize = 0;
            loop
                invariant
                    self.wf(),
                    self.token == tok0,
                    s1.len() <= usize::MAX,
                    self.chars.remaining().len() + scale <= s1.len(),
                    spec_scan_frac(s1, 0, 0) == spec_scan_frac(
                        self.chars.remaining(),
                        frac,
                        scale as nat,
                    ),
                ensures
                    self.wf(),
                    self.token == tok0,
                    spec_scan_frac(s1, 0, 0) == (frac, scale as nat, self.chars.remaining()),
                decreases self.chars.remaining().len(),
            {
                match self.chars.peek(0) {
                    None => {
                        break ;
                    },
                    Some(c) => {
                        if c as u32 >= '0' as u32 && c as u32 <= '9' as u32 {
                            frac = push_digit_exec(frac, digit_of(c));
                            scale = scale + 1;
                            self.chars.next();
                        } else {
                            break ;
                        }
                    },
                }
            }
            Number { int_part: value, frac_part: frac, frac_len: scale }
        } else {
            Number { int_part: value, frac_part: 0, frac_len: 0 }
        }
    }

    /// Scan a symbol: consume characters until whitespace or a bracket.
    fn next_sym(&mut self) -> (sym: Vec<char>)
        requires
            old(self).wf(),
        ensures
            final(self).wf(),
            final(self).token == old(self).token,
            sym@ == spec_scan_sym(old(self).chars.remaining(), Seq::empty()).0,
            final(self).chars.remaining() == spec_scan_sym(
                old(self).chars.remaining(),
                Seq::empty(),
            ).1,
    {
        let ghost s0 = self.chars.remaining();
        let ghost tok0 = self.token;
        let mut sym: Vec<char> = Vec::new();
        loop
            invariant
                self.wf(),
                self.token == tok0,
                spec_scan_sym(s0, Seq::empty()) == spec_scan_sym(self.chars.remaining(), sym@),
            ensures
                self.wf(),
                self.token == tok0,
                spec_scan_sym(s0, Seq::empty()) == (sym@, self.chars.remaining()),
            decreases self.chars.remaining().len(),
        {
            match self.chars.peek(0) {
                None => {
                    break ;
                },
                Some(c) => {
                    if c != ' ' && c != '\t' && c != '\n' && c != '(' && c != ')' && c != '['
                        && c != ']' {
                        sym.push(c);
                        self.chars.next();
                    } else {
                        break ;
                    }
                },
            }
        }
        sym
    }
}

/// Append one decimal digit to an accumulated value, saturating once the
/// digits no longer fit.
fn push_digit_exec(v: u64, d: u64) -> (r: u64)
    requires
        d <= 9,
    ensures
        r == push_digit(v, d),
{
    if v <= (u64::MAX - d) / 10 {
        proof {
            assert(10 * v + d <= u64::MAX) by (nonlinear_arith)
                requires
                    v <= (u64::MAX - d) / 10,
                    d <= 9,
            ;
        }
        v * 10 + d
    } else {
        proof {
            assert(10 * v + d > u64::MAX) by (nonlinear_arith)
                requires
                    v > (u64::MAX - d) / 10,
                    d <= 9,
            ;
        }
        u64::MAX
    }
}

/// The numeric value of a decimal digit character.
fn digit_of(c: char) -> (d: u64)
    requires
        is_digit_char(c),
    ensures
        d == digit_val(c),
        d <= 9,
{
    (c as u32 - '0' as u32) as u64
}

} // verus!
