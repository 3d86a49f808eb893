//! Recursive-descent construction of a node tree from the token stream.

use crate::lexer::{Lexer, Number, Token, TokenV};
use crate::ParseError;
use vstd::prelude::*;

verus! {

broadcast use vstd::std_specs::vec::axiom_vec_index_decreases;

/// The characters of the symbol a quote shorthand expands to.
pub open spec fn quote_sym() -> Seq<char> {
    seq!['q', 'u', 'o', 't', 'e']
}

/// The view of a sequence of nodes.
pub open spec fn nodes_view(items: Seq<Node>) -> Seq<NodeV> {
    Seq::new(items.len(), |k: int| items[k]@)
}

/// The view of a sequence of nodes, built by structural recursion; this
/// form lets `View::view` recurse through a list's children.
pub open spec fn nodes_view_rec(items: Seq<Node>) -> Seq<NodeV>
    decreases items,
{
    if items.len() == 0 {
        Seq::empty()
    } else {
        seq![items[0]@] + nodes_view_rec(items.subrange(1, items.len() as int))
    }
}

/// One node of the tree: a leaf, or an ordered list of child nodes that
/// this node exclusively owns.
#[derive(Debug, PartialEq)]
pub enum Node {
    /// A string literal body, escapes already resolved.
    Str(Vec<char>),
    /// An identifier or operator name.
    Sym(Vec<char>),
    /// A decimal numeric literal.
    Number(Number),
    /// An ordered list of nodes; insertion order is preserved.
    List(Vec<Node>),
}

/// The mathematical shape of a node.
pub enum NodeV {
    Str(Seq<char>),
    Sym(Seq<char>),
    Number(Number),
    List(Seq<NodeV>),
}

impl View for Node {
    type V = NodeV;

    open spec fn view(&self) -> NodeV
        decreases self,
    {
        match self {
            Node::Str(s) => NodeV::Str(s@),
            Node::Sym(s) => NodeV::Sym(s@),
            Node::Number(n) => NodeV::Number(*n),
            Node::List(items) => NodeV::List(nodes_view_rec(items@)),
        }
    }
}

/// The two forms of a node sequence's view agree.
pub proof fn lemma_nodes_view_rec(s: Seq<Node>)
    ensures
        nodes_view_rec(s) == nodes_view(s),
    decreases s.len(),
{
    if s.len() == 0 {
        assert(nodes_view_rec(s) =~= nodes_view(s));
    } else {
        let tl = s.subrange(1, s.len() as int);
        lemma_nodes_view_rec(tl);
        assert(nodes_view_rec(s) == seq![s[0]@] + nodes_view_rec(s.subrange(1, s.len() as int)));
        assert forall|k: int| 0 <= k < s.len() implies nodes_view_rec(s)[k] == s[k]@ by {
            if k > 0 {
                assert(nodes_view_rec(s)[k] == nodes_view(tl)[k - 1]);
                assert(tl[k - 1] == s[k]);
            }
        }
        assert(nodes_view_rec(s) =~= nodes_view(s));
    }
}

/// A list node's view is the list of its children's views.
pub proof fn lemma_list_view(items: Vec<Node>)
    ensures
        Node::List(items)@ == NodeV::List(nodes_view(items@)),
{
    lemma_nodes_view_rec(items@);
}

/// Parse exactly one node from the front of the token sequence.  `tail`
/// is the failure that cut the token sequence short, if any: reaching the
/// end of a cleanly terminated sequence where a node is expected is
/// `UnexpectedEof`, while reaching the end of a failed one surfaces the
/// scan failure itself.
pub open spec fn spec_parse_node(ts: Seq<TokenV>, tail: Option<ParseError>) -> Result<
    (NodeV, Seq<TokenV>),
    ParseError,
>
    decreases ts.len(), 0int,
{
    if ts.len() == 0 {
        match tail {
            Some(e) => Err(e),
            None => Err(ParseError::UnexpectedEof),
        }
    } else {
        match ts[0] {
            TokenV::Eof => Err(ParseError::UnexpectedEof),
            TokenV::Open => match spec_parse_list(ts.skip(1), tail) {
                Ok(p) => Ok((NodeV::List(p.0), p.1)),
                Err(e) => Err(e),
            },
            TokenV::Close => Err(ParseError::UnexpectedToken),
            TokenV::Quote => match spec_parse_node(ts.skip(1), tail) {
                Ok(p) => Ok((NodeV::List(seq![NodeV::Sym(quote_sym()), p.0]), p.1)),
                Err(e) => Err(e),
            },
            TokenV::Sym(s) => Ok((NodeV::Sym(s), ts.skip(1))),
            TokenV::Str(s) => Ok((NodeV::Str(s), ts.skip(1))),
            TokenV::Number(n) => Ok((NodeV::Number(n), ts.skip(1))),
        }
    }
}

/// Parse nodes until a closing bracket (consumed) or the end of the token
/// sequence.  A clean end of input before the closing bracket is an
/// implicit successful close: this library deliberately keeps the lenient
/// policy for unterminated lists.  The guard on the recursive call only
/// bounds the recursion; `lemma_parse_node_consumes` shows it never alters
/// the result.
pub open spec fn spec_parse_list(ts: Seq<TokenV>, tail: Option<ParseError>) -> Result<
    (Seq<NodeV>, Seq<TokenV>),
    ParseError,
>
    decreases ts.len(), 1int,
{
    if ts.len() == 0 {
        match tail {
            Some(e) => Err(e),
            None => Ok((Seq::empty(), Seq::empty())),
        }
    } else if ts[0] is Close {
        Ok((Seq::empty(), ts.skip(1)))
    } else {
        match spec_parse_node(ts, tail) {
            Ok(p) => {
                let rest = if p.1.len() < ts.len() {
                    p.1
                } else {
                    Seq::empty()
                };
                match spec_parse_list(rest, tail) {
                    Ok(q) => Ok((seq![p.0] + q.0, q.1)),
                    Err(e) => Err(e),
                }
            },
            Err(e) => Err(e),
        }
    }
}

/// Parsing one node always consumes at least one token.
pub proof fn lemma_parse_node_consumes(ts: Seq<TokenV>, tail: Option<ParseError>)
    ensures
        spec_parse_node(ts, tail) matches Ok(p) ==> p.1.len() < ts.len(),
    decreases ts.len(), 0int,
{
    if ts.len() > 0 {
        match ts[0] {
            TokenV::Open => {
                lemma_parse_list_consumes(ts.skip(1), tail);
            },
            TokenV::Quote => {
                lemma_parse_node_consumes(ts.skip(1), tail);
            },
            _ => {},
        }
    }
}

/// Parsing a list never hands back more tokens than it was given.
pub proof fn lemma_parse_list_consumes(ts: Seq<TokenV>, tail: Option<ParseError>)
    ensures
        spec_parse_list(ts, tail) matches Ok(q) ==> q.1.len() <= ts.len(),
    decreases ts.len(), 1int,
{
    if ts.len() == 0 || ts[0] is Close {
    } else {
        lemma_parse_node_consumes(ts, tail);
        match spec_parse_node(ts, tail) {
            Ok(p) => {
                let rest = if p.1.len() < ts.len() {
                    p.1
                } else {
                    Seq::empty()
                };
                lemma_parse_list_consumes(rest, tail);
            },
            Err(_e) => {},
        }
    }
}

/// Unfold one step of `spec_parse_list` past its recursion guard.
pub proof fn lemma_parse_list_unfold(ts: Seq<TokenV>, tail: Option<ParseError>)
    requires
        ts.len() > 0,
        !(ts[0] is Close),
    ensures
        spec_parse_list(ts, tail) == (match spec_parse_node(ts, tail) {
            Ok(p) => match spec_parse_list(p.1, tail) {
                Ok(q) => Ok::<(Seq<NodeV>, Seq<TokenV>), ParseError>((seq![p.0] + q.0, q.1)),
                Err(e) => Err(e),
            },
            Err(e) => Err(e),
        }),
{
    lemma_parse_node_consumes(ts, tail);
}

/// The tree builder: a recursive-descent parser drawing tokens from the
/// tokenizer it exclusively owns.
pub struct Parser {
    lexer: Lexer,
}

impl Parser {
    pub closed spec fn wf(self) -> bool {
        self.lexer.wf()
    }

    /// The tokens the parser has not yet consumed, with the scan failure
    /// that will cut them short, if any.
    pub closed spec fn stream(self) -> (Seq<TokenV>, Option<ParseError>) {
        self.lexer.stream()
    }

    pub closed spec fn measure(self) -> nat {
        self.lexer.measure()
    }

    /// Take ownership of an initialized tokenizer.
    pub fn new(lexer: Lexer) -> (r: Parser)
        requires
            lexer.wf(),
        ensures
            r.wf(),
            r.stream() == lexer.stream(),
    {
        Parser { lexer }
    }

    /// Consume and build exactly one node.
    pub fn parse_node(&mut self) -> (r: Result<Node, ParseError>)
        requires
            old(self).wf(),
        ensures
            final(self).wf(),
            ({
                let (ts, tail) = old(self).stream();
                match spec_parse_node(ts, tail) {
                    Ok(p) => {
                        &&& r matches Ok(n) && n@ == p.0
                        &&& final(self).stream() == (p.1, tail)
                        &&& final(self).measure() < old(self).measure()
                    },
                    Err(e) => r == Err::<Node, ParseError>(e),
                }
            }),
        decreases self.measure(), 0int,
    {
        match self.lexer.next() {
            Err(e) => Err(e),
            Ok(None) => Err(ParseError::UnexpectedEof),
            Ok(Some(t)) => match t {
                Token::Eof => Err(ParseError::UnexpectedEof),
                Token::Open => match self.parse_list() {
                    Ok(n) => Ok(n),
                    Err(e) => Err(e),
                },
                Token::Close => Err(ParseError::UnexpectedToken),
                Token::Quote => match self.parse_node() {
                    Ok(n) => {
                        let mut items: Vec<Node> = Vec::new();
                        items.push(Node::Sym(quote_sym_text()));
                        items.push(n);
                        proof {
                            lemma_list_view(items);
                            assert(nodes_view(items@) =~= seq![NodeV::Sym(quote_sym()), n@]);
                        }
                        Ok(Node::List(items))
                    },
                    Err(e) => Err(e),
                },
                Token::Sym(s) => Ok(Node::Sym(s)),
                Token::Str(s) => Ok(Node::Str(s)),
                Token::Number(n) => Ok(Node::Number(n)),
            },
        }
    }

    /// Consume nodes up to and including the closing bracket of the
    /// current list (or the end of input, leniently) and build the list.
    #[verifier::loop_isolation(false)]
    pub fn parse_list(&mut self) -> (r: Result<Node, ParseError>)
        requires
            old(self).wf(),
        ensures
            final(self).wf(),
            ({
                let (ts, tail) = old(self).stream();
                match spec_parse_list(ts, tail) {
                    Ok(p) => {
                        &&& r matches Ok(n) && n@ == NodeV::List(p.0)
                        &&& final(self).stream() == (p.1, tail)
                        &&& final(self).measure() <= old(self).measure()
                    },
                    Err(e) => r == Err::<Node, ParseError>(e),
                }
            }),
        decreases self.measure(), 1int,
    {
        let ghost ts0 = self.stream().0;
        let ghost tail0 = self.stream().1;
        let mut items: Vec<Node> = Vec::new();
        proof {
            assert(nodes_view(items@) =~= Seq::<NodeV>::empty());
            if let Ok(q) = spec_parse_list(ts0, tail0) {
                assert(nodes_view(items@) + q.0 =~= q.0);
            }
        }
        loop
            invariant
                self.wf(),
                self.stream().1 == tail0,
                self.measure() <= old(self).measure(),
                spec_parse_list(ts0, tail0) == (match spec_parse_list(self.stream().0, tail0) {
                    Ok(q) => Ok::<(Seq<NodeV>, Seq<TokenV>), ParseError>((
                        nodes_view(items@) + q.0,
                        q.1,
                    )),
                    Err(e) => Err(e),
                }),
            decreases self.measure(),
        {
            let at_close = match self.lexer.peek() {
                Err(e) => {
                    return Err(*e);
                },
                Ok(None) => {
                    proof {
                        lemma_list_view(items);
                        assert(nodes_view(items@) + Seq::<NodeV>::empty() =~= nodes_view(items@));
                    }
                    return Ok(Node::List(items));
                },
                Ok(Some(t)) => matches!(t, Token::Close),
            };
            if at_close {
                self.lexer.next();
                proof {
                    lemma_list_view(items);
                    assert(nodes_view(items@) + Seq::<NodeV>::empty() =~= nodes_view(items@));
                }
                return Ok(Node::List(items));
            }
            let ghost ts_here = self.stream().0;
            proof {
                lemma_parse_list_unfold(ts_here, tail0);
            }
            match self.parse_node() {
                Ok(n) => {
                    let ghost prev = items@;
                    items.push(n);
                    proof {
                        assert(items@ == prev.push(n));
                        assert(nodes_view(items@) =~= nodes_view(prev) + seq![n@]);
                        match spec_parse_list(self.stream().0, tail0) {
                            Ok(q2) => {
                                assert(nodes_view(prev) + (seq![n@] + q2.0) =~= (nodes_view(prev)
                                    + seq![n@]) + q2.0);
                                assert(nodes_view(items@) + q2.0 == nodes_view(prev) + (seq![n@]
                                    + q2.0));
                            },
                            Err(_e) => {},
                        }
                    }
                },
                Err(e) => {
                    return Err(e);
                },
            }
        }
    }
}

/// The characters of the symbol a quote shorthand expands to.
fn quote_sym_text() -> (r: Vec<char>)
    ensures
        r@ == quote_sym(),
{
    let mut v: Vec<char> = Vec::new();
    v.push('q');
    v.push('u');
    v.push('o');
    v.push('t');
    v.push('e');
    proof {
        assert(v@ =~= quote_sym());
    }
    v
}

} // verus!
