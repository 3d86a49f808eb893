//! Laws of the tokenizer: statements that hold of whole classes of inputs,
//! proved once and for all.

use crate::lexer::{
    digit_val, ends_symbol, is_bracket_char, is_digit_char, is_whitespace_char, push_digit,
    spec_next_token, spec_scan_digits, spec_scan_frac, spec_scan_sym, spec_tokens, Number, TokenV,
};
use crate::parser::{
    lemma_parse_list_consumes, lemma_parse_list_unfold, lemma_parse_node_consumes, quote_sym,
    spec_parse_list, spec_parse_node, NodeV,
};
use crate::ParseError;
use vstd::prelude::*;

verus! {

// --- Symbol law --------------------------------------------------------------

/// Scanning a symbol whose characters never terminate one consumes them all.
proof fn lemma_scan_sym_all(s: Seq<char>, acc: Seq<char>)
    requires
        forall|k: int| 0 <= k < s.len() ==> !ends_symbol(s[k]),
    ensures
        spec_scan_sym(s, acc).0 == acc + s,
        spec_scan_sym(s, acc).1.len() == 0,
    decreases s.len(),
{
    if s.len() == 0 {
        assert(acc + s =~= acc);
    } else {
        assert(forall|k: int|
            0 <= k < s.skip(1).len() ==> !ends_symbol(#[trigger] s.skip(1)[k]));
        lemma_scan_sym_all(s.skip(1), acc.push(s[0]));
        assert(acc.push(s[0]) + s.skip(1) =~= acc + s);
    }
}

/// Well-formed symbol text, alone, tokenizes to exactly one symbol token
/// carrying that text, followed by clean end of input.  Well-formed means:
/// non-empty, no whitespace and no bracket anywhere, and a lead character
/// that does not start a number, a quote or a string literal.
pub proof fn lemma_single_symbol(s: Seq<char>)
    requires
        s.len() > 0,
        forall|k: int|
            0 <= k < s.len() ==> !is_whitespace_char(#[trigger] s[k]) && !is_bracket_char(s[k]),
        !is_digit_char(s[0]),
        s[0] != '\'',
        s[0] != '"',
    ensures
        spec_tokens(s) == (seq![TokenV::Sym(s)], None::<ParseError>),
{
    lemma_scan_sym_all(s, Seq::empty());
    let p = spec_scan_sym(s, Seq::empty());
    assert(Seq::empty() + s =~= s);
    assert(spec_next_token(s) == Ok::<Option<(TokenV, Seq<char>)>, ParseError>(
        Some((TokenV::Sym(s), p.1)),
    ));
    assert(spec_tokens(p.1) == (Seq::<TokenV>::empty(), None::<ParseError>));
    assert(seq![TokenV::Sym(s)] + Seq::<TokenV>::empty() =~= seq![TokenV::Sym(s)]);
}

// --- Number law --------------------------------------------------------------

/// Ten to the `n`.
pub open spec fn pow10(n: nat) -> int
    decreases n,
{
    if n == 0 {
        1
    } else {
        10 * pow10((n - 1) as nat)
    }
}

/// The mathematical value of a digit string read in decimal.
pub open spec fn digits_value(s: Seq<char>) -> int
    decreases s.len(),
{
    if s.len() == 0 {
        0
    } else {
        digit_val(s[0]) * pow10((s.len() - 1) as nat) + digits_value(s.skip(1))
    }
}

proof fn lemma_pow10_pos(n: nat)
    ensures
        pow10(n) >= 1,
    decreases n,
{
    if n > 0 {
        lemma_pow10_pos((n - 1) as nat);
    }
}

proof fn lemma_digits_value_nonneg(s: Seq<char>)
    ensures
        digits_value(s) >= 0,
    decreases s.len(),
{
    if s.len() > 0 {
        lemma_digits_value_nonneg(s.skip(1));
        lemma_pow10_pos((s.len() - 1) as nat);
        assert(digit_val(s[0]) * pow10((s.len() - 1) as nat) >= 0) by (nonlinear_arith)
            requires
                digit_val(s[0]) >= 0,
                pow10((s.len() - 1) as nat) >= 1,
        ;
    }
}

/// Digit scanning over `ds + rest`, where `ds` is all digits and `rest`
/// starts with a non-digit, accumulates exactly the decimal value of `ds`
/// whenever that value fits alongside what was already accumulated.
proof fn lemma_scan_digits_value(ds: Seq<char>, rest: Seq<char>, v: u64)
    requires
        forall|k: int| 0 <= k < ds.len() ==> is_digit_char(#[trigger] ds[k]),
        rest.len() == 0 || !is_digit_char(rest[0]),
        v * pow10(ds.len() as nat) + digits_value(ds) <= u64::MAX,
    ensures
        spec_scan_digits(ds + rest, v) == ((v * pow10(ds.len() as nat) + digits_value(
            ds,
        )) as u64, rest),
    decreases ds.len(),
{
    lemma_pow10_pos(ds.len() as nat);
    lemma_digits_value_nonneg(ds);
    if ds.len() == 0 {
        assert(ds + rest =~= rest);
    } else {
        let d = digit_val(ds[0]);
        let tl = ds.skip(1);
        let m = (ds.len() - 1) as nat;
        lemma_pow10_pos(m);
        lemma_digits_value_nonneg(tl);
        assert((ds + rest)[0] == ds[0]);
        assert((ds + rest).skip(1) =~= tl + rest);
        assert(v * pow10(ds.len() as nat) == (10 * v) * pow10(m)) by (nonlinear_arith)
            requires
                pow10(ds.len() as nat) == 10 * pow10(m),
        ;
        assert((10 * v + d) * pow10(m) == (10 * v) * pow10(m) + d * pow10(m)) by (nonlinear_arith);
        assert(d * pow10(m) + digits_value(tl) == digits_value(ds));
        assert(10 * v + d <= (10 * v + d) * pow10(m)) by (nonlinear_arith)
            requires
                pow10(m) >= 1,
                10 * v + d >= 0,
        ;
        assert(push_digit(v, d) == (10 * v + d) as u64);
        lemma_scan_digits_value(tl, rest, push_digit(v, d));
    }
}

/// The fractional-digit scanner accumulates the same value and counts the
/// digits it consumed.
proof fn lemma_scan_frac_value(ds: Seq<char>, rest: Seq<char>, v: u64, k: nat)
    requires
        forall|j: int| 0 <= j < ds.len() ==> is_digit_char(#[trigger] ds[j]),
        rest.len() == 0 || !is_digit_char(rest[0]),
        v * pow10(ds.len() as nat) + digits_value(ds) <= u64::MAX,
    ensures
        spec_scan_frac(ds + rest, v, k) == ((v * pow10(ds.len() as nat) + digits_value(
            ds,
        )) as u64, k + ds.len(), rest),
    decreases ds.len(),
{
    lemma_pow10_pos(ds.len() as nat);
    lemma_digits_value_nonneg(ds);
    if ds.len() == 0 {
        assert(ds + rest =~= rest);
    } else {
        let d = digit_val(ds[0]);
        let tl = ds.skip(1);
        let m = (ds.len() - 1) as nat;
        lemma_pow10_pos(m);
        lemma_digits_value_nonneg(tl);
        assert((ds + rest)[0] == ds[0]);
        assert((ds + rest).skip(1) =~= tl + rest);
        assert(v * pow10(ds.len() as nat) == (10 * v) * pow10(m)) by (nonlinear_arith)
            requires
                pow10(ds.len() as nat) == 10 * pow10(m),
        ;
        assert((10 * v + d) * pow10(m) == (10 * v) * pow10(m) + d * pow10(m)) by (nonlinear_arith);
        assert(d * pow10(m) + digits_value(tl) == digits_value(ds));
        assert(10 * v + d <= (10 * v + d) * pow10(m)) by (nonlinear_arith)
            requires
                pow10(m) >= 1,
                10 * v + d >= 0,
        ;
        assert(push_digit(v, d) == (10 * v + d) as u64);
        lemma_scan_frac_value(tl, rest, push_digit(v, d), k + 1);
    }
}

/// A non-negative decimal literal with a fractional part tokenizes to
/// exactly one number token whose parts are the exact decimal values of
/// the digit strings: the token denotes the literal's mathematical value
/// `digits_value(ds) + digits_value(fs) / 10^|fs|`.
pub proof fn lemma_number_value(ds: Seq<char>, fs: Seq<char>)
    requires
        ds.len() > 0,
        forall|k: int| 0 <= k < ds.len() ==> is_digit_char(#[trigger] ds[k]),
        forall|k: int| 0 <= k < fs.len() ==> is_digit_char(#[trigger] fs[k]),
        digits_value(ds) <= u64::MAX,
        digits_value(fs) <= u64::MAX,
        fs.len() <= usize::MAX,
    ensures
        spec_tokens(ds + seq!['.'] + fs) == (seq![
            TokenV::Number(
                Number {
                    int_part: digits_value(ds) as u64,
                    frac_part: digits_value(fs) as u64,
                    frac_len: fs.len() as usize,
                },
            ),
        ], None::<ParseError>),
{
    let s = ds + seq!['.'] + fs;
    let dot_fs = seq!['.'] + fs;
    assert(s =~= ds + dot_fs);
    lemma_scan_digits_value(ds, dot_fs, 0);
    assert(0 * pow10(ds.len() as nat) == 0) by (nonlinear_arith);
    assert(spec_scan_digits(s, 0) == (digits_value(ds) as u64, dot_fs));
    assert(dot_fs.skip(1) =~= fs + Seq::<char>::empty());
    lemma_scan_frac_value(fs, Seq::empty(), 0, 0);
    assert(0 * pow10(fs.len() as nat) == 0) by (nonlinear_arith);
    assert(spec_scan_frac(dot_fs.skip(1), 0, 0) == (digits_value(fs) as u64, fs.len(),
    Seq::<char>::empty()));
    assert(!is_whitespace_char(s[0]) && !is_bracket_char(s[0]) && s[0] != '\'' && s[0] != '"');
    let tok = TokenV::Number(
        Number {
            int_part: digits_value(ds) as u64,
            frac_part: digits_value(fs) as u64,
            frac_len: fs.len() as usize,
        },
    );
    assert(spec_next_token(s) == Ok::<Option<(TokenV, Seq<char>)>, ParseError>(
        Some((tok, Seq::<char>::empty())),
    ));
    assert(spec_tokens(Seq::<char>::empty()) == (Seq::<TokenV>::empty(), None::<ParseError>));
    assert(seq![tok] + Seq::<TokenV>::empty() =~= seq![tok]);
}

/// A bare run of digits tokenizes to one number token with the digits'
/// exact decimal value and no fractional part.
pub proof fn lemma_integer_value(ds: Seq<char>)
    requires
        ds.len() > 0,
        forall|k: int| 0 <= k < ds.len() ==> is_digit_char(#[trigger] ds[k]),
        digits_value(ds) <= u64::MAX,
    ensures
        spec_tokens(ds) == (seq![
            TokenV::Number(
                Number { int_part: digits_value(ds) as u64, frac_part: 0, frac_len: 0 },
            ),
        ], None::<ParseError>),
{
    assert(ds + Seq::<char>::empty() =~= ds);
    lemma_scan_digits_value(ds, Seq::empty(), 0);
    assert(0 * pow10(ds.len() as nat) == 0) by (nonlinear_arith);
    assert(spec_scan_digits(ds, 0) == (digits_value(ds) as u64, Seq::<char>::empty()));
    let tok = TokenV::Number(
        Number { int_part: digits_value(ds) as u64, frac_part: 0, frac_len: 0 },
    );
    assert(spec_next_token(ds) == Ok::<Option<(TokenV, Seq<char>)>, ParseError>(
        Some((tok, Seq::<char>::empty())),
    ));
    assert(spec_tokens(Seq::<char>::empty()) == (Seq::<TokenV>::empty(), None::<ParseError>));
    assert(seq![tok] + Seq::<TokenV>::empty() =~= seq![tok]);
}

// --- Quote-desugaring law ----------------------------------------------------

/// A node parse that leaves tokens over is oblivious to anything appended
/// after them.
proof fn lemma_parse_node_extend(ts: Seq<TokenV>, ext: Seq<TokenV>, tail: Option<ParseError>)
    ensures
        spec_parse_node(ts, tail) matches Ok(p) ==> p.1.len() > 0 ==> spec_parse_node(
            ts + ext,
            tail,
        ) == Ok::<(NodeV, Seq<TokenV>), ParseError>((p.0, p.1 + ext)),
    decreases ts.len(), 0int,
{
    if spec_parse_node(ts, tail) matches Ok(p) && p.1.len() > 0 {
        assert((ts + ext)[0] == ts[0]);
        assert((ts + ext).skip(1) =~= ts.skip(1) + ext);
        match ts[0] {
            TokenV::Open => {
                lemma_parse_list_extend(ts.skip(1), ext, tail);
            },
            TokenV::Quote => {
                lemma_parse_node_extend(ts.skip(1), ext, tail);
            },
            _ => {},
        }
    }
}

/// A list parse that leaves tokens over is oblivious to anything appended
/// after them.
proof fn lemma_parse_list_extend(ts: Seq<TokenV>, ext: Seq<TokenV>, tail: Option<ParseError>)
    ensures
        spec_parse_list(ts, tail) matches Ok(q) ==> q.1.len() > 0 ==> spec_parse_list(
            ts + ext,
            tail,
        ) == Ok::<(Seq<NodeV>, Seq<TokenV>), ParseError>((q.0, q.1 + ext)),
    decreases ts.len(), 1int,
{
    if spec_parse_list(ts, tail) matches Ok(q) && q.1.len() > 0 {
        assert(ts.len() > 0);
        assert((ts + ext)[0] == ts[0]);
        if ts[0] is Close {
            assert((ts + ext).skip(1) =~= ts.skip(1) + ext);
        } else {
            lemma_parse_list_unfold(ts, tail);
            lemma_parse_node_consumes(ts, tail);
            let p = spec_parse_node(ts, tail)->Ok_0;
            lemma_parse_list_consumes(p.1, tail);
            lemma_parse_node_extend(ts, ext, tail);
            lemma_parse_list_extend(p.1, ext, tail);
            lemma_parse_list_unfold(ts + ext, tail);
        }
    }
}

/// Appending one closing bracket to tokens that parse to a node with
/// nothing left over never changes the node: the bracket is either left
/// over or absorbed by a list the lenient end-of-input policy had already
/// closed.
proof fn lemma_parse_node_close(ts: Seq<TokenV>, tail: Option<ParseError>)
    ensures
        spec_parse_node(ts, tail) matches Ok(p) ==> p.1.len() == 0 ==> (spec_parse_node(
            ts + seq![TokenV::Close],
            tail,
        ) matches Ok(p2) && p2.0 == p.0 && (p2.1.len() == 0 || p2.1 == seq![TokenV::Close])),
    decreases ts.len(), 0int,
{
    if spec_parse_node(ts, tail) matches Ok(p) && p.1.len() == 0 {
        let ext = seq![TokenV::Close];
        assert((ts + ext)[0] == ts[0]);
        assert((ts + ext).skip(1) =~= ts.skip(1) + ext);
        match ts[0] {
            TokenV::Open => {
                lemma_parse_list_close(ts.skip(1), tail);
            },
            TokenV::Quote => {
                lemma_parse_node_close(ts.skip(1), tail);
            },
            _ => {
                assert(ts.skip(1).len() == 0);
                assert(ts.skip(1) + ext =~= ext);
            },
        }
    }
}

/// Appending one closing bracket to tokens that parse to a list with
/// nothing left over never changes the list's elements.
proof fn lemma_parse_list_close(ts: Seq<TokenV>, tail: Option<ParseError>)
    ensures
        spec_parse_list(ts, tail) matches Ok(q) ==> q.1.len() == 0 ==> (spec_parse_list(
            ts + seq![TokenV::Close],
            tail,
        ) matches Ok(q2) && q2.0 == q.0 && (q2.1.len() == 0 || q2.1 == seq![TokenV::Close])),
    decreases ts.len(), 1int,
{
    if spec_parse_list(ts, tail) matches Ok(q) && q.1.len() == 0 {
        let ext = seq![TokenV::Close];
        if ts.len() == 0 {
            assert(ts + ext =~= ext);
            assert(ext.skip(1).len() == 0);
        } else {
            assert((ts + ext)[0] == ts[0]);
            if ts[0] is Close {
                assert(ts.skip(1).len() == 0);
                assert((ts + ext).skip(1) =~= ts.skip(1) + ext);
                assert(ts.skip(1) + ext =~= ext);
            } else {
                lemma_parse_list_unfold(ts, tail);
                lemma_parse_node_consumes(ts, tail);
                let p = spec_parse_node(ts, tail)->Ok_0;
                lemma_parse_list_unfold(ts + ext, tail);
                if p.1.len() > 0 {
                    lemma_parse_node_extend(ts, ext, tail);
                    lemma_parse_list_close(p.1, tail);
                } else {
                    lemma_parse_node_close(ts, tail);
                    let p2 = spec_parse_node(ts + ext, tail)->Ok_0;
                    if p2.1.len() > 0 {
                        assert(p2.1 == ext);
                        assert(ext[0] is Close);
                        assert(ext.skip(1).len() == 0);
                    }
                    assert((spec_parse_list(ts, tail)->Ok_0).0 =~= seq![p.0]
                        + Seq::<NodeV>::empty());
                    assert(spec_parse_list(p2.1, tail) == Ok::<
                        (Seq<NodeV>, Seq<TokenV>),
                        ParseError,
                    >((Seq::empty(), Seq::empty())) || spec_parse_list(p2.1, tail) == Ok::<
                        (Seq<NodeV>, Seq<TokenV>),
                        ParseError,
                    >((Seq::empty(), ext.skip(1))));
                }
            }
        }
    }
}

/// Symbol scanning stops exactly at the first terminating character.
proof fn lemma_scan_sym_prefix(a: Seq<char>, rest: Seq<char>, acc: Seq<char>)
    requires
        forall|k: int| 0 <= k < a.len() ==> !ends_symbol(#[trigger] a[k]),
        rest.len() > 0,
        ends_symbol(rest[0]),
    ensures
        spec_scan_sym(a + rest, acc) == (acc + a, rest),
    decreases a.len(),
{
    if a.len() == 0 {
        assert(a + rest =~= rest);
        assert(acc + a =~= acc);
    } else {
        assert((a + rest)[0] == a[0]);
        assert((a + rest).skip(1) =~= a.skip(1) + rest);
        assert(forall|k: int|
            0 <= k < a.skip(1).len() ==> !ends_symbol(#[trigger] a.skip(1)[k]));
        lemma_scan_sym_prefix(a.skip(1), rest, acc.push(a[0]));
        assert(acc.push(a[0]) + a.skip(1) =~= acc + a);
    }
}

/// Quote desugaring at the text level, for a well-formed symbol `s`: the
/// shorthand source `'s` and the spelled-out source `(quote s)` tokenize
/// cleanly and parse to the very same tree, the two-element list of the
/// quote symbol and the symbol `s`.
pub proof fn lemma_quote_desugar_symbol(s: Seq<char>)
    requires
        s.len() > 0,
        forall|k: int|
            0 <= k < s.len() ==> !is_whitespace_char(#[trigger] s[k]) && !is_bracket_char(s[k]),
        !is_digit_char(s[0]),
        s[0] != '\'',
        s[0] != '"',
    ensures
        ({
            let shorthand = spec_tokens(seq!['\''] + s);
            let spelled = spec_tokens(seq!['(', 'q', 'u', 'o', 't', 'e', ' '] + s + seq![')']);
            let tree = NodeV::List(seq![NodeV::Sym(quote_sym()), NodeV::Sym(s)]);
            &&& shorthand.1 is None
            &&& spec_parse_node(shorthand.0, None) matches Ok(p) && p.0 == tree && p.1.len() == 0
            &&& spelled.1 is None
            &&& spec_parse_node(spelled.0, None) matches Ok(q) && q.0 == tree && q.1.len() == 0
        }),
{
    let none: Option<ParseError> = None;
    // The shorthand tokenizes to a quote token and the symbol.
    let sh = seq!['\''] + s;
    assert(sh[0] == '\'');
    assert(sh.skip(1) =~= s);
    lemma_single_symbol(s);
    assert(spec_tokens(sh).0 =~= seq![TokenV::Quote, TokenV::Sym(s)]);
    // The spelled-out form tokenizes to open, the quote symbol, the
    // symbol, close.
    let sp = seq!['(', 'q', 'u', 'o', 't', 'e', ' '] + s + seq![')'];
    assert(sp[0] == '(');
    let after_open = seq!['q', 'u', 'o', 't', 'e', ' '] + s + seq![')'];
    assert(sp.skip(1) =~= after_open);
    let ws_tail = seq![' '] + s + seq![')'];
    assert(after_open =~= quote_sym() + ws_tail);
    assert(forall|k: int|
        0 <= k < quote_sym().len() ==> !ends_symbol(#[trigger] quote_sym()[k]));
    lemma_scan_sym_prefix(quote_sym(), ws_tail, Seq::empty());
    assert(Seq::empty() + quote_sym() =~= quote_sym());
    assert(after_open[0] == 'q');
    assert(spec_next_token(after_open) == Ok::<Option<(TokenV, Seq<char>)>, ParseError>(
        Some((TokenV::Sym(quote_sym()), ws_tail)),
    ));
    let sym_tail = s + seq![')'];
    assert(ws_tail[0] == ' ');
    assert(ws_tail.skip(1) =~= sym_tail);
    lemma_scan_sym_prefix(s, seq![')'], Seq::empty());
    assert(Seq::empty() + s =~= s);
    assert(sym_tail[0] == s[0]);
    assert(spec_next_token(sym_tail) == Ok::<Option<(TokenV, Seq<char>)>, ParseError>(
        Some((TokenV::Sym(s), seq![')'])),
    ));
    assert(seq![')'][0] == ')');
    assert(seq![')'].skip(1).len() == 0);
    assert(spec_next_token(seq![')']) == Ok::<Option<(TokenV, Seq<char>)>, ParseError>(
        Some((TokenV::Close, seq![')'].skip(1))),
    ));
    assert(spec_tokens(seq![')'].skip(1)) == (Seq::<TokenV>::empty(), None::<ParseError>));
    assert(spec_tokens(seq![')']).0 =~= seq![TokenV::Close]);
    assert(spec_tokens(seq![')']).1 is None);
    assert(spec_tokens(sym_tail).0 =~= seq![TokenV::Sym(s), TokenV::Close]);
    assert(spec_tokens(sym_tail).1 is None);
    assert(spec_next_token(ws_tail) == spec_next_token(sym_tail));
    assert(spec_tokens(ws_tail).0 =~= seq![TokenV::Sym(s), TokenV::Close]);
    assert(spec_tokens(ws_tail).1 is None);
    assert(spec_tokens(after_open).0 =~= seq![
        TokenV::Sym(quote_sym()),
        TokenV::Sym(s),
        TokenV::Close,
    ]);
    assert(spec_tokens(after_open).1 is None);
    assert(spec_tokens(sp).0 =~= seq![
        TokenV::Open,
        TokenV::Sym(quote_sym()),
        TokenV::Sym(s),
        TokenV::Close,
    ]);
    assert(spec_tokens(sp).1 is None);
    // Both token sequences parse to the same desugared tree.
    assert(seq![TokenV::Sym(s)].skip(1).len() == 0);
    assert(spec_parse_node(seq![TokenV::Sym(s)], none) == Ok::<(NodeV, Seq<TokenV>), ParseError>(
        (NodeV::Sym(s), seq![TokenV::Sym(s)].skip(1)),
    ));
    lemma_quote_desugar(seq![TokenV::Sym(s)], NodeV::Sym(s));
    assert(seq![TokenV::Quote] + seq![TokenV::Sym(s)] =~= spec_tokens(sh).0);
    assert(seq![TokenV::Open, TokenV::Sym(quote_sym())] + seq![TokenV::Sym(s)] + seq![
        TokenV::Close,
    ] =~= spec_tokens(sp).0);
}

/// Quote desugaring, in general: whenever a token sequence `ts` parses to
/// a whole node `n`, the shorthand `' ts` and the spelled-out form
/// `( quote ts )` parse to the same tree, the two-element list holding the
/// quote symbol and `n`.
pub proof fn lemma_quote_desugar(ts: Seq<TokenV>, n: NodeV)
    requires
        spec_parse_node(ts, None) matches Ok(p) && p.0 == n && p.1.len() == 0,
    ensures
        spec_parse_node(seq![TokenV::Quote] + ts, None) matches Ok(p) && p.0 == NodeV::List(
            seq![NodeV::Sym(quote_sym()), n],
        ) && p.1.len() == 0,
        spec_parse_node(
            seq![TokenV::Open, TokenV::Sym(quote_sym())] + ts + seq![TokenV::Close],
            None,
        ) matches Ok(q) && q.0 == NodeV::List(seq![NodeV::Sym(quote_sym()), n]) && q.1.len() == 0,
{
    let none: Option<ParseError> = None;
    let close = seq![TokenV::Close];
    // The shorthand: a quote token, then the node.
    let dts = seq![TokenV::Quote] + ts;
    assert(dts[0] is Quote);
    assert(dts.skip(1) =~= ts);
    // The spelled-out form: an opening bracket, the quote symbol, the
    // node's tokens, a closing bracket.
    let sts = seq![TokenV::Open, TokenV::Sym(quote_sym())] + ts + close;
    assert(sts[0] is Open);
    let l1 = seq![TokenV::Sym(quote_sym())] + ts + close;
    assert(sts.skip(1) =~= l1);
    assert(l1[0] == TokenV::Sym(quote_sym()));
    let l2 = ts + close;
    assert(l1.skip(1) =~= l2);
    assert(spec_parse_node(l1, none) == Ok::<(NodeV, Seq<TokenV>), ParseError>(
        (NodeV::Sym(quote_sym()), l2),
    ));
    // Inside the list: the node's tokens, then the closing bracket.
    assert(ts.len() > 0 && !(ts[0] is Close));
    assert(l2[0] == ts[0]);
    lemma_parse_node_close(ts, none);
    let p2 = spec_parse_node(l2, none)->Ok_0;
    if p2.1.len() > 0 {
        assert(p2.1 == close);
        assert(close.skip(1).len() == 0);
    }
    assert(spec_parse_list(p2.1, none) == Ok::<(Seq<NodeV>, Seq<TokenV>), ParseError>(
        (Seq::empty(), Seq::empty()),
    ) || spec_parse_list(p2.1, none) == Ok::<(Seq<NodeV>, Seq<TokenV>), ParseError>(
        (Seq::empty(), close.skip(1)),
    ));
    lemma_parse_list_unfold(l2, none);
    lemma_parse_list_unfold(l1, none);
    assert(seq![NodeV::Sym(quote_sym())] + (seq![n] + Seq::<NodeV>::empty()) =~= seq![
        NodeV::Sym(quote_sym()),
        n,
    ]);
}

} // verus!
