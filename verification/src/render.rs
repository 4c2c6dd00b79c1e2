//! Re-rendering an AST back to an expression text.
//!
//! The rendering is fully parenthesized: every binary node is written
//! `(left OP right)` and a negation is written `-operand`, so the text
//! re-parses without relying on precedence. [`render_toks`] gives the
//! token sequence of a tree, [`render_chars`] the character sequence,
//! and the executable [`render`] is proved to produce exactly the
//! latter.

use vstd::prelude::*;

use crate::ast::Node;
use crate::token::Token;

verus! {

broadcast use vstd::seq_lib::group_seq_properties;

/// The number of nodes in a tree; at least one.
pub open spec fn node_size(n: Node) -> nat
    decreases n,
{
    match n {
        Node::Number(_) => 1,
        Node::Negative(e) => 1 + node_size(*e),
        Node::Add(l, r) => 1 + node_size(*l) + node_size(*r),
        Node::Subtract(l, r) => 1 + node_size(*l) + node_size(*r),
        Node::Multiply(l, r) => 1 + node_size(*l) + node_size(*r),
        Node::Divide(l, r) => 1 + node_size(*l) + node_size(*r),
        Node::Power(l, r) => 1 + node_size(*l) + node_size(*r),
    }
}

/// Every tree has positive size.
pub proof fn lemma_node_size_pos(n: Node)
    ensures
        node_size(n) >= 1,
    decreases n,
{
    match n {
        Node::Number(_) => {},
        Node::Negative(e) => lemma_node_size_pos(*e),
        Node::Add(l, r) | Node::Subtract(l, r) | Node::Multiply(l, r) | Node::Divide(l, r)
            | Node::Power(l, r) => {
            lemma_node_size_pos(*l);
            lemma_node_size_pos(*r);
        },
    }
}

/// A fully parenthesized binary rendering: `( left OP right )`.
pub open spec fn render_binary(op: Token, l: Seq<Token>, r: Seq<Token>) -> Seq<Token> {
    seq![Token::LeftParen] + l + seq![op] + r + seq![Token::RightParen]
}

/// The token sequence of a tree's fully parenthesized rendering.
pub open spec fn render_toks(n: Node) -> Seq<Token>
    decreases n,
{
    match n {
        Node::Number(v) => seq![Token::Num(v)],
        Node::Negative(e) => seq![Token::Subtract] + render_toks(*e),
        Node::Add(l, r) => render_binary(Token::Add, render_toks(*l), render_toks(*r)),
        Node::Subtract(l, r) => render_binary(Token::Subtract, render_toks(*l), render_toks(*r)),
        Node::Multiply(l, r) => render_binary(Token::Multiply, render_toks(*l), render_toks(*r)),
        Node::Divide(l, r) => render_binary(Token::Divide, render_toks(*l), render_toks(*r)),
        Node::Power(l, r) => render_binary(Token::Caret, render_toks(*l), render_toks(*r)),
    }
}

/// A rendering holds at least one token.
pub proof fn lemma_render_toks_len(n: Node)
    ensures
        render_toks(n).len() >= 1,
{
    match n {
        Node::Number(_) => {},
        Node::Negative(_) => {},
        Node::Add(_, _) | Node::Subtract(_, _) | Node::Multiply(_, _) | Node::Divide(_, _)
            | Node::Power(_, _) => {},
    }
}

/// The digit character of a value between 0 and 9.
pub open spec fn digit_char(d: int) -> char {
    if d == 0 {
        '0'
    } else if d == 1 {
        '1'
    } else if d == 2 {
        '2'
    } else if d == 3 {
        '3'
    } else if d == 4 {
        '4'
    } else if d == 5 {
        '5'
    } else if d == 6 {
        '6'
    } else if d == 7 {
        '7'
    } else if d == 8 {
        '8'
    } else {
        '9'
    }
}

/// The decimal digits of a non-negative value, most significant first.
pub open spec fn num_chars(v: int) -> Seq<char>
    decreases v,
{
    if v < 10 {
        seq![digit_char(v)]
    } else {
        num_chars(v / 10) + seq![digit_char(v % 10)]
    }
}

/// The characters one token is written with: an operator or parenthesis
/// as its symbol, a literal as its decimal digits, the end marker as
/// nothing.
pub open spec fn token_chars(t: Token) -> Seq<char> {
    match t {
        Token::Add => seq!['+'],
        Token::Subtract => seq!['-'],
        Token::Multiply => seq!['*'],
        Token::Divide => seq!['/'],
        Token::Caret => seq!['^'],
        Token::LeftParen => seq!['('],
        Token::RightParen => seq![')'],
        Token::Num(v) => num_chars(v as int),
        Token::EOF => Seq::empty(),
    }
}

/// The canonical spelling of a token stream: each token's characters,
/// each followed by one blank.
pub open spec fn toks_chars(toks: Seq<Token>) -> Seq<char>
    decreases toks.len(),
{
    if toks.len() == 0 {
        Seq::empty()
    } else {
        token_chars(toks[0]) + seq![' '] + toks_chars(toks.skip(1))
    }
}

/// A fully parenthesized binary rendering, in characters:
/// `( left OP right )`.
pub open spec fn binary_chars(opc: char, l: Seq<char>, r: Seq<char>) -> Seq<char> {
    seq!['('] + l + seq![opc] + r + seq![')']
}

/// The character sequence of a tree's fully parenthesized rendering.
pub open spec fn render_chars(n: Node) -> Seq<char>
    decreases n,
{
    match n {
        Node::Number(v) => num_chars(v as int),
        Node::Negative(e) => seq!['-'] + render_chars(*e),
        Node::Add(l, r) => binary_chars('+', render_chars(*l), render_chars(*r)),
        Node::Subtract(l, r) => binary_chars('-', render_chars(*l), render_chars(*r)),
        Node::Multiply(l, r) => binary_chars('*', render_chars(*l), render_chars(*r)),
        Node::Divide(l, r) => binary_chars('/', render_chars(*l), render_chars(*r)),
        Node::Power(l, r) => binary_chars('^', render_chars(*l), render_chars(*r)),
    }
}

/// The digit character of `d`, as an executable value.
fn digit_char_exec(d: u64) -> (c: char)
    requires
        d < 10,
    ensures
        c == digit_char(d as int),
{
    if d == 0 {
        '0'
    } else if d == 1 {
        '1'
    } else if d == 2 {
        '2'
    } else if d == 3 {
        '3'
    } else if d == 4 {
        '4'
    } else if d == 5 {
        '5'
    } else if d == 6 {
        '6'
    } else if d == 7 {
        '7'
    } else if d == 8 {
        '8'
    } else {
        '9'
    }
}

/// Appends the decimal digits of `v` to `out`.
fn push_num(v: u64, out: &mut Vec<char>)
    ensures
        final(out)@ == old(out)@ + num_chars(v as int),
    decreases v,
{
    if v < 10 {
        let c = digit_char_exec(v);
        out.push(c);
        assert(out@ =~= old(out)@ + num_chars(v as int));
    } else {
        push_num(v / 10, out);
        let c = digit_char_exec(v % 10);
        out.push(c);
        assert(out@ =~= old(out)@ + num_chars(v as int));
    }
}

/// Appends the rendering of `node` to `out`.
fn render_into(node: &Node, out: &mut Vec<char>)
    ensures
        final(out)@ == old(out)@ + render_chars(*node),
    decreases *node,
{
    match node {
        Node::Number(v) => {
            push_num(*v, out);
        },
        Node::Negative(e) => {
            out.push('-');
            render_into(&**e, out);
            assert(out@ =~= old(out)@ + render_chars(*node));
        },
        Node::Add(l, r) => {
            out.push('(');
            render_into(&**l, out);
            out.push('+');
            render_into(&**r, out);
            out.push(')');
            assert(out@ =~= old(out)@ + render_chars(*node));
        },
        Node::Subtract(l, r) => {
            out.push('(');
            render_into(&**l, out);
            out.push('-');
            render_into(&**r, out);
            out.push(')');
            assert(out@ =~= old(out)@ + render_chars(*node));
        },
        Node::Multiply(l, r) => {
            out.push('(');
            render_into(&**l, out);
            out.push('*');
            render_into(&**r, out);
            out.push(')');
            assert(out@ =~= old(out)@ + render_chars(*node));
        },
        Node::Divide(l, r) => {
            out.push('(');
            render_into(&**l, out);
            out.push('/');
            render_into(&**r, out);
            out.push(')');
            assert(out@ =~= old(out)@ + render_chars(*node));
        },
        Node::Power(l, r) => {
            out.push('(');
            render_into(&**l, out);
            out.push('^');
            render_into(&**r, out);
            out.push(')');
            assert(out@ =~= old(out)@ + render_chars(*node));
        },
    }
}

/// The fully parenthesized rendering of a tree, as the characters of an
/// expression text that re-parses to the same tree.
pub fn render(node: &Node) -> (r: Vec<char>)
    ensures
        r@ == render_chars(*node),
{
    let mut out: Vec<char> = Vec::new();
    render_into(node, &mut out);
    out
}

} // verus!
