//! Precedence-climbing parsing: from a stream of tokens to an AST.
//!
//! The mathematical model is a family of specification functions over
//! `Seq<Token>`: [`spec_parse_atom`] parses one primary expression,
//! [`spec_climb`] folds binary operators into a growing left subtree as
//! long as they bind tighter than a minimum precedence, and
//! [`spec_parse_expr`] combines the two. Each consumes tokens from the
//! front of the sequence and returns the node built together with the
//! unconsumed remainder, or the kind of the first error. The executable
//! [`Parser`] is proved to return exactly what the model says.
//!
//! The sequences handed to these functions model a parser's view of its
//! input: the lookahead token followed by everything not yet pulled from
//! the lexer, closed by [`Token::EOF`] on a fully lexable text and cut
//! short otherwise. Reading past the end of such a sequence models a
//! lexer that fails to yield a token, which is an `InvalidOperator`
//! error. Trailing tokens after one complete expression are not an
//! error: `parse` returns the expression and leaves them unconsumed, as
//! the climbing loop simply stops on them.

use vstd::prelude::*;

use crate::ast::Node;
use crate::token::{spec_level, spec_prec_of, OperPrec, Token};
use crate::tokenizer::{lemma_tok_next_bounds, spec_tokenize, tok_next, toks_from, TokenStep, Tokenizer};

verus! {

broadcast use vstd::seq_lib::group_seq_properties;

/// The two kinds of parse failure: a token source that yields nothing
/// (empty, exhausted, or stopped on an unlexable character) versus a
/// token that the grammar cannot accept where it stands.
#[derive(Debug, Clone, Copy, PartialEq, Eq, Structural)]
pub enum ParseErrorKind {
    InvalidOperator,
    UnableToParse,
}

/// A parse failure, tagged with its kind and carrying a short
/// human-readable description of the offending condition.
#[derive(Debug)]
pub enum ParseError {
    InvalidOperator(String),
    UnableToParse(String),
}

/// Does the executable error `e` carry the kind `k`?
pub open spec fn matches_kind(e: ParseError, k: ParseErrorKind) -> bool {
    match (e, k) {
        (ParseError::InvalidOperator(_), ParseErrorKind::InvalidOperator) => true,
        (ParseError::UnableToParse(_), ParseErrorKind::UnableToParse) => true,
        _ => false,
    }
}

/// Does the executable result `r` agree with the model's result `m`:
/// the same node on success, an error of the stated kind on failure?
pub open spec fn res_matches(r: Result<Node, ParseError>, m: Result<Node, ParseErrorKind>) -> bool {
    match (r, m) {
        (Ok(n), Ok(m_n)) => n == m_n,
        (Err(e), Err(k)) => matches_kind(e, k),
        _ => false,
    }
}

/// The minimum precedence for the right-hand operand of binary operator
/// `t`. Left-associative operators climb from their own level;
/// exponentiation climbs from one level below its own, which makes it
/// right-associative.
pub open spec fn spec_rhs_prec(t: Token) -> OperPrec {
    match t {
        Token::Add | Token::Subtract => OperPrec::AddSub,
        Token::Multiply | Token::Divide => OperPrec::MulDiv,
        Token::Caret => OperPrec::MulDiv,
        _ => OperPrec::DefaultZero,
    }
}

/// The binary AST node built by operator token `t` from operands `l`
/// and `r`. Meaningful only for the five binary operator tokens.
pub open spec fn spec_binary_node(t: Token, l: Node, r: Node) -> Node {
    match t {
        Token::Add => Node::Add(Box::new(l), Box::new(r)),
        Token::Subtract => Node::Subtract(Box::new(l), Box::new(r)),
        Token::Multiply => Node::Multiply(Box::new(l), Box::new(r)),
        Token::Divide => Node::Divide(Box::new(l), Box::new(r)),
        Token::Caret => Node::Power(Box::new(l), Box::new(r)),
        _ => arbitrary(),
    }
}

/// Parses one atom (primary expression) from the front of `toks`: a
/// numeric leaf, a unary-negated sub-expression, or a parenthesized
/// group, the last optionally followed by a second group that is folded
/// in as an implicit multiplication. Any other leading token is an
/// `UnableToParse` error; a sequence too short to go on is the lexer
/// failing to yield, an `InvalidOperator` error.
///
/// The `rest.len() < toks.len()` tests only justify termination: parsing
/// always consumes at least one token, so they always pass.
pub open spec fn spec_parse_atom(toks: Seq<Token>) -> Result<(Node, Seq<Token>), ParseErrorKind>
    decreases toks.len(), 0int,
{
    if toks.len() == 0 {
        Err(ParseErrorKind::InvalidOperator)
    } else {
        match toks[0] {
            Token::Subtract => if toks.len() >= 2 {
                match spec_parse_expr(toks.skip(1), OperPrec::Negative) {
                    Ok(p) => Ok((Node::Negative(Box::new(p.0)), p.1)),
                    Err(k) => Err(k),
                }
            } else {
                Err(ParseErrorKind::InvalidOperator)
            },
            Token::Num(v) => if toks.len() >= 2 {
                Ok((Node::Number(v), toks.skip(1)))
            } else {
                Err(ParseErrorKind::InvalidOperator)
            },
            Token::LeftParen => if toks.len() >= 2 {
                match spec_parse_expr(toks.skip(1), OperPrec::DefaultZero) {
                    Ok(p) => {
                        let inner = p.0;
                        let rest = p.1;
                        if rest.len() >= 1 && rest[0] == Token::RightParen {
                            if rest.len() >= 2 {
                                let rest2 = rest.skip(1);
                                if rest2[0] == Token::LeftParen {
                                    if rest2.len() < toks.len() {
                                        match spec_parse_expr(rest2, OperPrec::MulDiv) {
                                            Ok(q) => Ok(
                                                (
                                                    Node::Multiply(
                                                        Box::new(inner),
                                                        Box::new(q.0),
                                                    ),
                                                    q.1,
                                                ),
                                            ),
                                            Err(k) => Err(k),
                                        }
                                    } else {
                                        Err(ParseErrorKind::InvalidOperator)
                                    }
                                } else {
                                    Ok((inner, rest2))
                                }
                            } else {
                                Err(ParseErrorKind::InvalidOperator)
                            }
                        } else {
                            Err(ParseErrorKind::UnableToParse)
                        }
                    },
                    Err(k) => Err(k),
                }
            } else {
                Err(ParseErrorKind::InvalidOperator)
            },
            _ => Err(ParseErrorKind::UnableToParse),
        }
    }
}

/// Parses a full expression from the front of `toks`, consuming binary
/// operators only while they bind strictly tighter than `min`: first an
/// atom, then the climbing loop.
pub open spec fn spec_parse_expr(toks: Seq<Token>, min: OperPrec) -> Result<
    (Node, Seq<Token>),
    ParseErrorKind,
>
    decreases toks.len(), 1int,
{
    match spec_parse_atom(toks) {
        Ok(p) => if p.1.len() < toks.len() {
            spec_climb(p.1, p.0, min)
        } else {
            Err(ParseErrorKind::InvalidOperator)
        },
        Err(k) => Err(k),
    }
}

/// The climbing loop: while the lookahead is a binary operator binding
/// strictly tighter than `min` (and not the end marker), consume it,
/// parse its right-hand operand at the precedence [`spec_rhs_prec`]
/// gives, and fold both into `left`; otherwise return `left` with the
/// lookahead unconsumed.
pub open spec fn spec_climb(toks: Seq<Token>, left: Node, min: OperPrec) -> Result<
    (Node, Seq<Token>),
    ParseErrorKind,
>
    decreases toks.len(), 2int,
{
    if toks.len() == 0 {
        Err(ParseErrorKind::InvalidOperator)
    } else {
        let t = toks[0];
        if t == Token::EOF {
            Ok((left, toks))
        } else if spec_level(spec_prec_of(t)) > spec_level(min) {
            if toks.len() >= 2 {
                match spec_parse_expr(toks.skip(1), spec_rhs_prec(t)) {
                    Ok(p) => if p.1.len() < toks.len() {
                        spec_climb(p.1, spec_binary_node(t, left, p.0), min)
                    } else {
                        Err(ParseErrorKind::InvalidOperator)
                    },
                    Err(k) => Err(k),
                }
            } else {
                Err(ParseErrorKind::InvalidOperator)
            }
        } else {
            Ok((left, toks))
        }
    }
}

/// The node a whole token stream parses to, starting the climb at the
/// floor precedence. Tokens left over after the expression are ignored.
pub open spec fn spec_parse_toks(toks: Seq<Token>) -> Result<Node, ParseErrorKind> {
    match spec_parse_expr(toks, OperPrec::DefaultZero) {
        Ok(p) => Ok(p.0),
        Err(k) => Err(k),
    }
}

/// What parsing a whole expression text yields: an `InvalidOperator`
/// error when not even a first token can be lexed, else the parse of
/// the text's token stream.
pub open spec fn spec_parse_text(s: Seq<char>) -> Result<Node, ParseErrorKind> {
    if spec_tokenize(s).len() == 0 {
        Err(ParseErrorKind::InvalidOperator)
    } else {
        spec_parse_toks(spec_tokenize(s))
    }
}

/// A single-use parser: exclusive access to a lexer plus the one-token
/// lookahead not yet folded into the tree.
pub struct Parser<'a> {
    tokenizer: Tokenizer<'a>,
    current_token: Token,
}

impl<'a> Parser<'a> {
    /// The tokens the parser has not consumed yet: the lookahead
    /// followed by whatever the lexer will still yield. Once the
    /// lookahead is the end marker nothing further is ever pulled, so
    /// the stream is just that marker.
    pub closed spec fn stream(self) -> Seq<Token> {
        if self.current_token == Token::EOF {
            seq![Token::EOF]
        } else {
            seq![self.current_token] + toks_from(self.tokenizer.text(), self.tokenizer.cursor())
        }
    }

    /// The lexer is within its text and has yielded at least one token
    /// (the one that became the first lookahead).
    pub closed spec fn wf(self) -> bool {
        self.tokenizer.wf() && self.tokenizer.has_started()
    }

    /// Builds a parser over `expr` and eagerly pulls the first token as
    /// lookahead. Fails with `InvalidOperator` exactly when no first
    /// token can be lexed, i.e. on an empty, blank, or immediately
    /// unlexable text.
    pub fn new(expr: &'a str) -> (r: Result<Parser<'a>, ParseError>)
        ensures
            match r {
                Ok(p) => p.wf() && p.stream() == spec_tokenize(expr@) && spec_tokenize(
                    expr@,
                ).len() > 0,
                Err(e) => spec_tokenize(expr@).len() == 0 && e is InvalidOperator,
            },
    {
        let mut tokenizer = Tokenizer::new(expr);
        proof {
            lemma_tok_next_bounds(expr@, 0);
        }
        let current_token = match tokenizer.next() {
            Some(token) => token,
            None => return Err(ParseError::InvalidOperator("Invalid character".to_string())),
        };
        Ok(Parser { tokenizer, current_token })
    }

    /// Consumes the token stream and returns the AST of one complete
    /// expression, or the first error, exactly as the model
    /// [`spec_parse_toks`] says. Trailing tokens after the expression
    /// are left unconsumed.
    pub fn parse(&mut self) -> (r: Result<Node, ParseError>)
        requires
            old(self).wf(),
        ensures
            final(self).wf(),
            res_matches(r, spec_parse_toks(old(self).stream())),
    {
        self.generate_ast(OperPrec::DefaultZero)
    }

    /// Replaces the lookahead with the next token from the lexer; fails
    /// with `InvalidOperator` when the lexer yields nothing, which is
    /// when the unconsumed stream holds nothing beyond the lookahead.
    fn get_next_token(&mut self) -> (r: Result<(), ParseError>)
        requires
            old(self).wf(),
            old(self).stream()[0] != Token::EOF,
        ensures
            final(self).wf(),
            old(self).stream().len() >= 2 ==> r is Ok
                && final(self).stream() == old(self).stream().skip(1),
            old(self).stream().len() < 2 ==> r is Err && final(self).stream() == old(self).stream(),
            r matches Err(e) ==> e is InvalidOperator,
    {
        let ghost s = self.tokenizer.text();
        let ghost i0 = self.tokenizer.cursor();
        proof {
            lemma_tok_next_bounds(s, i0);
        }
        let next_token = match self.tokenizer.next() {
            Some(token) => token,
            None => {
                proof {
                    assert(old(self).stream() =~= final(self).stream());
                }
                return Err(ParseError::InvalidOperator("Invalid character".to_string()));
            },
        };
        proof {
            if let TokenStep::Lexed(t, j) = tok_next(s, i0) {
                lemma_tok_next_bounds(s, j);
                assert(toks_from(s, i0) == seq![t] + toks_from(s, j));
                assert(old(self).stream().skip(1) =~= toks_from(s, i0));
            } else {
                assert(old(self).stream().skip(1) =~= seq![Token::EOF]);
            }
        }
        self.current_token = next_token;
        Ok(())
    }

    /// The precedence-climbing expression builder: parses one atom, then
    /// folds in binary operators binding strictly tighter than
    /// `oper_prec`, exactly as the model [`spec_parse_expr`] says.
    #[verifier::loop_isolation(false)]
    fn generate_ast(&mut self, oper_prec: OperPrec) -> (r: Result<Node, ParseError>)
        requires
            old(self).wf(),
        ensures
            final(self).wf(),
            final(self).stream().len() <= old(self).stream().len(),
            match (r, spec_parse_expr(old(self).stream(), oper_prec)) {
                (Ok(n), Ok(p)) => n == p.0 && final(self).stream() == p.1
                    && p.1.len() < old(self).stream().len(),
                (Err(e), Err(k)) => matches_kind(e, k),
                _ => false,
            },
        decreases old(self).stream().len(), 1int,
    {
        let ghost toks0 = old(self).stream();
        let mut left_expr = self.parse_number()?;
        let mut done = false;
        while !done
            invariant
                self.wf(),
                1 <= self.stream().len() < toks0.len(),
                spec_climb(self.stream(), left_expr, oper_prec) == spec_parse_expr(
                    toks0,
                    oper_prec,
                ),
                done ==> spec_parse_expr(toks0, oper_prec) == Ok::<
                    (Node, Seq<Token>),
                    ParseErrorKind,
                >((left_expr, self.stream())),
            decreases self.stream().len(), (if done {
                0int
            } else {
                1int
            }),
        {
            let cur = self.current_token;
            assert(self.stream()[0] == cur);
            if cur == Token::EOF {
                done = true;
            } else if !(cur.get_oper_prec().level() > oper_prec.level()) {
                done = true;
            } else {
                let ghost stream_i = self.stream();
                proof {
                    if stream_i.len() < 2 {
                        assert(spec_climb(stream_i, left_expr, oper_prec) == Err::<
                            (Node, Seq<Token>),
                            ParseErrorKind,
                        >(ParseErrorKind::InvalidOperator));
                    }
                }
                self.get_next_token()?;
                let rhs_prec = if cur == Token::Caret {
                    OperPrec::MulDiv
                } else {
                    cur.get_oper_prec()
                };
                assert(rhs_prec == spec_rhs_prec(cur));
                assert(self.stream() == stream_i.skip(1));
                assert(self.stream().len() < stream_i.len());
                let right_expr = self.generate_ast(rhs_prec)?;
                assert(spec_climb(stream_i, left_expr, oper_prec) == spec_climb(
                    self.stream(),
                    spec_binary_node(cur, left_expr, right_expr),
                    oper_prec,
                ));
                left_expr = match cur {
                    Token::Add => Node::Add(Box::new(left_expr), Box::new(right_expr)),
                    Token::Subtract => Node::Subtract(Box::new(left_expr), Box::new(right_expr)),
                    Token::Multiply => Node::Multiply(Box::new(left_expr), Box::new(right_expr)),
                    Token::Divide => Node::Divide(Box::new(left_expr), Box::new(right_expr)),
                    _ => Node::Power(Box::new(left_expr), Box::new(right_expr)),
                };
            }
        }
        Ok(left_expr)
    }

    /// Parses one atom: on `-` a negated sub-expression at the unary
    /// level, on a literal a numeric leaf, on `(` a grouped expression
    /// re-started at the floor precedence and closed by a matching `)`,
    /// with an immediately following `(` folded in as an implicit
    /// multiplication. Exactly as the model [`spec_parse_atom`] says.
    fn parse_number(&mut self) -> (r: Result<Node, ParseError>)
        requires
            old(self).wf(),
        ensures
            final(self).wf(),
            final(self).stream().len() <= old(self).stream().len(),
            match (r, spec_parse_atom(old(self).stream())) {
                (Ok(n), Ok(p)) => n == p.0 && final(self).stream() == p.1
                    && p.1.len() < old(self).stream().len(),
                (Err(e), Err(k)) => matches_kind(e, k),
                _ => false,
            },
        decreases old(self).stream().len(), 0int,
    {
        let token = self.current_token;
        assert(self.stream()[0] == token);
        match token {
            Token::Subtract => {
                self.get_next_token()?;
                let expr = self.generate_ast(OperPrec::Negative)?;
                Ok(Node::Negative(Box::new(expr)))
            },
            Token::Num(i) => {
                self.get_next_token()?;
                Ok(Node::Number(i))
            },
            Token::LeftParen => {
                self.get_next_token()?;
                let expr = self.generate_ast(OperPrec::DefaultZero)?;
                self.check_paren(Token::RightParen)?;
                if self.current_token == Token::LeftParen {
                    assert(self.stream()[0] == Token::LeftParen);
                    let right = self.generate_ast(OperPrec::MulDiv)?;
                    return Ok(Node::Multiply(Box::new(expr), Box::new(right)));
                }
                Ok(expr)
            },
            _ => Err(ParseError::UnableToParse("Unable to parse".to_string())),
        }
    }

    /// If the lookahead equals `expected`, consume it; otherwise fail
    /// with `UnableToParse` naming the mismatch. Used to enforce
    /// balanced parentheses.
    fn check_paren(&mut self, expected: Token) -> (r: Result<(), ParseError>)
        requires
            old(self).wf(),
            expected != Token::EOF,
        ensures
            final(self).wf(),
            old(self).stream()[0] == expected && old(self).stream().len() >= 2 ==> r is Ok
                && final(self).stream() == old(self).stream().skip(1),
            old(self).stream()[0] == expected && old(self).stream().len() < 2 ==> r is Err && (
            r matches Err(e) ==> e is InvalidOperator) && final(self).stream() == old(self).stream(),
            old(self).stream()[0] != expected ==> (r matches Err(e) && e is UnableToParse)
                && final(self).stream() == old(self).stream(),
    {
        if self.current_token == expected {
            assert(old(self).stream()[0] == expected);
            self.get_next_token()?;
            Ok(())
        } else {
            assert(old(self).stream()[0] != expected);
            Err(ParseError::UnableToParse("Mismatched parenthesis".to_string()))
        }
    }
}

/// Parses a whole expression text in one call: builds a [`Parser`] and
/// runs it, returning the AST root or the first error, exactly as the
/// model [`spec_parse_text`] says.
pub fn parse_expression(expr: &str) -> (r: Result<Node, ParseError>)
    ensures
        res_matches(r, spec_parse_text(expr@)),
{
    let mut parser = match Parser::new(expr) {
        Ok(p) => p,
        Err(e) => return Err(e),
    };
    parser.parse()
}

} // verus!
