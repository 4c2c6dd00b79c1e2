//! The grammar's headline properties, stated and proved once and for
//! all over the specification parser: what single literals and single
//! binary operations parse to, associativity, precedence, grouping,
//! implicit multiplication, how unary minus binds, which inputs fail
//! with which error, and the render/re-parse round trip.

use vstd::prelude::*;

use crate::ast::Node;
use crate::parser::{
    spec_binary_node, spec_climb, spec_parse_atom, spec_parse_expr, spec_parse_text,
    spec_parse_toks, spec_rhs_prec, ParseErrorKind,
};
use crate::render::{
    binary_chars, digit_char, lemma_node_size_pos, lemma_render_toks_len, node_size, num_chars,
    render_binary, render_chars, render_toks, toks_chars, token_chars,
};
use crate::token::{spec_level, spec_prec_of, OperPrec, Token};
use crate::tokenizer::{
    digit_val, digits_end, digits_value, is_digit_char, lemma_tok_next_bounds, spec_tokenize,
    tok_next, toks_from, TokenStep,
};

verus! {

broadcast use vstd::seq_lib::group_seq_properties;

/// Is `t` one of the five binary operator tokens?
pub open spec fn is_binary_op(t: Token) -> bool {
    match t {
        Token::Add | Token::Subtract | Token::Multiply | Token::Divide | Token::Caret => true,
        _ => false,
    }
}

/// The climbing loop consumes nothing when the lookahead is the end
/// marker or binds no tighter than the minimum precedence.
proof fn lemma_climb_stops(toks: Seq<Token>, left: Node, min: OperPrec)
    requires
        toks.len() >= 1,
        toks[0] == Token::EOF || spec_level(spec_prec_of(toks[0])) <= spec_level(min),
    ensures
        spec_climb(toks, left, min) == Ok::<(Node, Seq<Token>), ParseErrorKind>((left, toks)),
{
}

/// A fully parenthesized binary rendering parses as one atom: the group
/// re-parses to the node it was rendered from, with `rest` untouched.
proof fn lemma_binary_round_trip(op: Token, l: Node, r: Node, rest: Seq<Token>)
    requires
        is_binary_op(op),
        rest.len() >= 1,
        rest[0] != Token::LeftParen,
    ensures
        spec_parse_atom(render_binary(op, render_toks(l), render_toks(r)) + rest) == Ok::<
            (Node, Seq<Token>),
            ParseErrorKind,
        >((spec_binary_node(op, l, r), rest)),
    decreases node_size(l) + node_size(r),
{
    let l_toks = render_toks(l);
    let r_toks = render_toks(r);
    let toks = render_binary(op, l_toks, r_toks) + rest;
    lemma_node_size_pos(l);
    lemma_node_size_pos(r);
    lemma_render_toks_len(l);
    lemma_render_toks_len(r);
    assert(toks[0] == Token::LeftParen);
    let tail_r = seq![Token::RightParen] + rest;
    let tail_l = seq![op] + r_toks + tail_r;
    assert(toks.skip(1) =~= l_toks + tail_l);
    lemma_atom_round_trip(l, tail_l);
    assert(spec_level(spec_prec_of(op)) >= 1);
    lemma_climb_stops(tail_l, l, OperPrec::Negative);
    assert(spec_parse_atom(l_toks + tail_l) == Ok::<(Node, Seq<Token>), ParseErrorKind>(
        (l, tail_l),
    ));
    assert(tail_l.skip(1) =~= r_toks + tail_r);
    lemma_atom_round_trip(r, tail_r);
    lemma_climb_stops(tail_r, r, spec_rhs_prec(op));
    assert(spec_parse_expr(r_toks + tail_r, spec_rhs_prec(op)) == Ok::<
        (Node, Seq<Token>),
        ParseErrorKind,
    >((r, tail_r)));
    let folded = spec_binary_node(op, l, r);
    lemma_climb_stops(tail_r, folded, OperPrec::DefaultZero);
    assert(spec_climb(tail_l, l, OperPrec::DefaultZero) == Ok::<
        (Node, Seq<Token>),
        ParseErrorKind,
    >((folded, tail_r)));
    assert(spec_parse_expr(l_toks + tail_l, OperPrec::DefaultZero) == Ok::<
        (Node, Seq<Token>),
        ParseErrorKind,
    >((folded, tail_r)));
    assert(tail_r.skip(1) =~= rest);
}

/// The round trip at the heart of re-parsing: the fully parenthesized
/// rendering of any tree, followed by any remainder that does not open
/// a new group, parses as one atom back to exactly that tree, leaving
/// the remainder untouched.
pub proof fn lemma_atom_round_trip(t: Node, rest: Seq<Token>)
    requires
        rest.len() >= 1,
        rest[0] != Token::LeftParen,
    ensures
        spec_parse_atom(render_toks(t) + rest) == Ok::<(Node, Seq<Token>), ParseErrorKind>(
            (t, rest),
        ),
    decreases node_size(t),
{
    let toks = render_toks(t) + rest;
    match t {
        Node::Number(v) => {
            assert(toks[0] == Token::Num(v));
            assert(toks.skip(1) =~= rest);
        },
        Node::Negative(e) => {
            lemma_node_size_pos(*e);
            lemma_render_toks_len(*e);
            assert(toks[0] == Token::Subtract);
            assert(toks.skip(1) =~= render_toks(*e) + rest);
            lemma_atom_round_trip(*e, rest);
            lemma_climb_stops(rest, *e, OperPrec::Negative);
            assert(spec_parse_expr(render_toks(*e) + rest, OperPrec::Negative) == Ok::<
                (Node, Seq<Token>),
                ParseErrorKind,
            >((*e, rest)));
        },
        Node::Add(l, r) => {
            assert(node_size(t) == 1 + node_size(*l) + node_size(*r));
            lemma_binary_round_trip(Token::Add, *l, *r, rest);
        },
        Node::Subtract(l, r) => {
            assert(node_size(t) == 1 + node_size(*l) + node_size(*r));
            lemma_binary_round_trip(Token::Subtract, *l, *r, rest);
        },
        Node::Multiply(l, r) => {
            assert(node_size(t) == 1 + node_size(*l) + node_size(*r));
            lemma_binary_round_trip(Token::Multiply, *l, *r, rest);
        },
        Node::Divide(l, r) => {
            assert(node_size(t) == 1 + node_size(*l) + node_size(*r));
            lemma_binary_round_trip(Token::Divide, *l, *r, rest);
        },
        Node::Power(l, r) => {
            assert(node_size(t) == 1 + node_size(*l) + node_size(*r));
            lemma_binary_round_trip(Token::Caret, *l, *r, rest);
        },
    }
}

/// Re-parsing a rendered tree, at the token level: the rendering of any
/// tree, closed by the end marker, parses back to exactly that tree.
pub proof fn lemma_round_trip_toks(t: Node)
    ensures
        spec_parse_toks(render_toks(t) + seq![Token::EOF]) == Ok::<Node, ParseErrorKind>(t),
{
    let rest = seq![Token::EOF];
    lemma_atom_round_trip(t, rest);
    lemma_render_toks_len(t);
    lemma_climb_stops(rest, t, OperPrec::DefaultZero);
}

/// An expression that is a single numeric literal followed by a token
/// the climb stops on parses to that literal's leaf.
proof fn lemma_number_then_stop(v: u64, tail: Seq<Token>, min: OperPrec)
    requires
        tail.len() >= 1,
        tail[0] != Token::LeftParen,
        tail[0] == Token::EOF || spec_level(spec_prec_of(tail[0])) <= spec_level(min),
    ensures
        spec_parse_expr(seq![Token::Num(v)] + tail, min) == Ok::<
            (Node, Seq<Token>),
            ParseErrorKind,
        >((Node::Number(v), tail)),
{
    assert(render_toks(Node::Number(v)) =~= seq![Token::Num(v)]);
    lemma_atom_round_trip(Node::Number(v), tail);
    lemma_climb_stops(tail, Node::Number(v), min);
}

/// Any input consisting solely of a numeric literal parses to exactly
/// that literal's leaf.
pub proof fn lemma_number_literal(n: u64)
    ensures
        spec_parse_toks(seq![Token::Num(n), Token::EOF]) == Ok::<Node, ParseErrorKind>(
            Node::Number(n),
        ),
{
    assert(seq![Token::Num(n), Token::EOF] =~= seq![Token::Num(n)] + seq![Token::EOF]);
    lemma_number_then_stop(n, seq![Token::EOF], OperPrec::DefaultZero);
}

/// `a OP b` parses to the binary node of OP with `a`'s leaf on the left
/// and `b`'s leaf on the right, for every binary operator and every pair
/// of literals.
pub proof fn lemma_binary_operation(op: Token, a: u64, b: u64)
    requires
        is_binary_op(op),
    ensures
        spec_parse_toks(seq![Token::Num(a), op, Token::Num(b), Token::EOF]) == Ok::<
            Node,
            ParseErrorKind,
        >(spec_binary_node(op, Node::Number(a), Node::Number(b))),
{
    let toks = seq![Token::Num(a), op, Token::Num(b), Token::EOF];
    let tail1 = seq![op, Token::Num(b), Token::EOF];
    assert(toks =~= seq![Token::Num(a)] + tail1);
    assert(render_toks(Node::Number(a)) =~= seq![Token::Num(a)]);
    lemma_atom_round_trip(Node::Number(a), tail1);
    let a_n = Node::Number(a);
    let b_n = Node::Number(b);
    assert(tail1.skip(1) =~= seq![Token::Num(b)] + seq![Token::EOF]);
    lemma_number_then_stop(b, seq![Token::EOF], spec_rhs_prec(op));
    let folded = spec_binary_node(op, a_n, b_n);
    lemma_climb_stops(seq![Token::EOF], folded, OperPrec::DefaultZero);
    assert(spec_climb(tail1, a_n, OperPrec::DefaultZero) == Ok::<
        (Node, Seq<Token>),
        ParseErrorKind,
    >((folded, seq![Token::EOF])));
}

/// Subtraction is left-associative: `a - b - c` parses as `(a - b) - c`.
pub proof fn lemma_subtract_left_associative(a: u64, b: u64, c: u64)
    ensures
        spec_parse_toks(
            seq![
                Token::Num(a),
                Token::Subtract,
                Token::Num(b),
                Token::Subtract,
                Token::Num(c),
                Token::EOF,
            ],
        ) == Ok::<Node, ParseErrorKind>(
            Node::Subtract(
                Box::new(Node::Subtract(Box::new(Node::Number(a)), Box::new(Node::Number(b)))),
                Box::new(Node::Number(c)),
            ),
        ),
{
    let a_n = Node::Number(a);
    let b_n = Node::Number(b);
    let c_n = Node::Number(c);
    let toks = seq![
        Token::Num(a),
        Token::Subtract,
        Token::Num(b),
        Token::Subtract,
        Token::Num(c),
        Token::EOF,
    ];
    let tail1 = seq![Token::Subtract, Token::Num(b), Token::Subtract, Token::Num(c), Token::EOF];
    let tail2 = seq![Token::Subtract, Token::Num(c), Token::EOF];
    assert(toks =~= seq![Token::Num(a)] + tail1);
    assert(render_toks(a_n) =~= seq![Token::Num(a)]);
    lemma_atom_round_trip(a_n, tail1);
    assert(tail1.skip(1) =~= seq![Token::Num(b)] + tail2);
    lemma_number_then_stop(b, tail2, OperPrec::AddSub);
    let ab = Node::Subtract(Box::new(a_n), Box::new(b_n));
    assert(spec_climb(tail1, a_n, OperPrec::DefaultZero) == spec_climb(
        tail2,
        ab,
        OperPrec::DefaultZero,
    ));
    assert(tail2.skip(1) =~= seq![Token::Num(c)] + seq![Token::EOF]);
    lemma_number_then_stop(c, seq![Token::EOF], OperPrec::AddSub);
    let abc = Node::Subtract(Box::new(ab), Box::new(c_n));
    lemma_climb_stops(seq![Token::EOF], abc, OperPrec::DefaultZero);
    assert(spec_climb(tail2, ab, OperPrec::DefaultZero) == Ok::<
        (Node, Seq<Token>),
        ParseErrorKind,
    >((abc, seq![Token::EOF])));
}

/// Exponentiation is right-associative: `a ^ b ^ c` parses as
/// `a ^ (b ^ c)`.
pub proof fn lemma_power_right_associative(a: u64, b: u64, c: u64)
    ensures
        spec_parse_toks(
            seq![
                Token::Num(a),
                Token::Caret,
                Token::Num(b),
                Token::Caret,
                Token::Num(c),
                Token::EOF,
            ],
        ) == Ok::<Node, ParseErrorKind>(
            Node::Power(
                Box::new(Node::Number(a)),
                Box::new(Node::Power(Box::new(Node::Number(b)), Box::new(Node::Number(c)))),
            ),
        ),
{
    let a_n = Node::Number(a);
    let b_n = Node::Number(b);
    let c_n = Node::Number(c);
    let toks = seq![
        Token::Num(a),
        Token::Caret,
        Token::Num(b),
        Token::Caret,
        Token::Num(c),
        Token::EOF,
    ];
    let tail1 = seq![Token::Caret, Token::Num(b), Token::Caret, Token::Num(c), Token::EOF];
    let tail2 = seq![Token::Caret, Token::Num(c), Token::EOF];
    assert(toks =~= seq![Token::Num(a)] + tail1);
    assert(render_toks(a_n) =~= seq![Token::Num(a)]);
    lemma_atom_round_trip(a_n, tail1);
    assert(tail1.skip(1) =~= seq![Token::Num(b)] + tail2);
    assert(render_toks(b_n) =~= seq![Token::Num(b)]);
    lemma_atom_round_trip(b_n, tail2);
    assert(tail2.skip(1) =~= seq![Token::Num(c)] + seq![Token::EOF]);
    lemma_number_then_stop(c, seq![Token::EOF], OperPrec::MulDiv);
    let bc = Node::Power(Box::new(b_n), Box::new(c_n));
    lemma_climb_stops(seq![Token::EOF], bc, OperPrec::MulDiv);
    assert(spec_climb(tail2, b_n, OperPrec::MulDiv) == Ok::<(Node, Seq<Token>), ParseErrorKind>(
        (bc, seq![Token::EOF]),
    ));
    assert(spec_parse_expr(seq![Token::Num(b)] + tail2, OperPrec::MulDiv) == Ok::<
        (Node, Seq<Token>),
        ParseErrorKind,
    >((bc, seq![Token::EOF])));
    let abc = Node::Power(Box::new(a_n), Box::new(bc));
    lemma_climb_stops(seq![Token::EOF], abc, OperPrec::DefaultZero);
    assert(spec_climb(tail1, a_n, OperPrec::DefaultZero) == Ok::<
        (Node, Seq<Token>),
        ParseErrorKind,
    >((abc, seq![Token::EOF])));
}

/// Multiplication binds tighter than addition: `a + b * c` parses as
/// `a + (b * c)`, never `(a + b) * c`.
pub proof fn lemma_multiplication_binds_tighter(a: u64, b: u64, c: u64)
    ensures
        spec_parse_toks(
            seq![
                Token::Num(a),
                Token::Add,
                Token::Num(b),
                Token::Multiply,
                Token::Num(c),
                Token::EOF,
            ],
        ) == Ok::<Node, ParseErrorKind>(
            Node::Add(
                Box::new(Node::Number(a)),
                Box::new(Node::Multiply(Box::new(Node::Number(b)), Box::new(Node::Number(c)))),
            ),
        ),
{
    let a_n = Node::Number(a);
    let b_n = Node::Number(b);
    let c_n = Node::Number(c);
    let toks = seq![
        Token::Num(a),
        Token::Add,
        Token::Num(b),
        Token::Multiply,
        Token::Num(c),
        Token::EOF,
    ];
    let tail1 = seq![Token::Add, Token::Num(b), Token::Multiply, Token::Num(c), Token::EOF];
    let tail2 = seq![Token::Multiply, Token::Num(c), Token::EOF];
    assert(toks =~= seq![Token::Num(a)] + tail1);
    assert(render_toks(a_n) =~= seq![Token::Num(a)]);
    lemma_atom_round_trip(a_n, tail1);
    assert(tail1.skip(1) =~= seq![Token::Num(b)] + tail2);
    assert(render_toks(b_n) =~= seq![Token::Num(b)]);
    lemma_atom_round_trip(b_n, tail2);
    assert(tail2.skip(1) =~= seq![Token::Num(c)] + seq![Token::EOF]);
    lemma_number_then_stop(c, seq![Token::EOF], OperPrec::MulDiv);
    let bc = Node::Multiply(Box::new(b_n), Box::new(c_n));
    lemma_climb_stops(seq![Token::EOF], bc, OperPrec::AddSub);
    assert(spec_climb(tail2, b_n, OperPrec::AddSub) == Ok::<(Node, Seq<Token>), ParseErrorKind>(
        (bc, seq![Token::EOF]),
    ));
    assert(spec_parse_expr(seq![Token::Num(b)] + tail2, OperPrec::AddSub) == Ok::<
        (Node, Seq<Token>),
        ParseErrorKind,
    >((bc, seq![Token::EOF])));
    let abc = Node::Add(Box::new(a_n), Box::new(bc));
    lemma_climb_stops(seq![Token::EOF], abc, OperPrec::DefaultZero);
    assert(spec_climb(tail1, a_n, OperPrec::DefaultZero) == Ok::<
        (Node, Seq<Token>),
        ParseErrorKind,
    >((abc, seq![Token::EOF])));
}

/// Parentheses override precedence: `( a + b ) * c` parses as
/// `(a + b) * c`, the grouped sum multiplied by `c`.
pub proof fn lemma_grouping_overrides_precedence(a: u64, b: u64, c: u64)
    ensures
        spec_parse_toks(
            seq![
                Token::LeftParen,
                Token::Num(a),
                Token::Add,
                Token::Num(b),
                Token::RightParen,
                Token::Multiply,
                Token::Num(c),
                Token::EOF,
            ],
        ) == Ok::<Node, ParseErrorKind>(
            Node::Multiply(
                Box::new(Node::Add(Box::new(Node::Number(a)), Box::new(Node::Number(b)))),
                Box::new(Node::Number(c)),
            ),
        ),
{
    let ab = Node::Add(Box::new(Node::Number(a)), Box::new(Node::Number(b)));
    let toks = seq![
        Token::LeftParen,
        Token::Num(a),
        Token::Add,
        Token::Num(b),
        Token::RightParen,
        Token::Multiply,
        Token::Num(c),
        Token::EOF,
    ];
    let tail1 = seq![Token::Multiply, Token::Num(c), Token::EOF];
    assert(render_toks(Node::Number(a)) =~= seq![Token::Num(a)]);
    assert(render_toks(Node::Number(b)) =~= seq![Token::Num(b)]);
    assert(render_toks(ab) == render_binary(
        Token::Add,
        render_toks(Node::Number(a)),
        render_toks(Node::Number(b)),
    ));
    assert(render_toks(ab) =~= seq![
        Token::LeftParen,
        Token::Num(a),
        Token::Add,
        Token::Num(b),
        Token::RightParen,
    ]);
    assert(toks =~= render_toks(ab) + tail1);
    lemma_atom_round_trip(ab, tail1);
    assert(tail1.skip(1) =~= seq![Token::Num(c)] + seq![Token::EOF]);
    lemma_number_then_stop(c, seq![Token::EOF], OperPrec::MulDiv);
    let abc = Node::Multiply(Box::new(ab), Box::new(Node::Number(c)));
    lemma_climb_stops(seq![Token::EOF], abc, OperPrec::DefaultZero);
    assert(spec_climb(tail1, ab, OperPrec::DefaultZero) == Ok::<
        (Node, Seq<Token>),
        ParseErrorKind,
    >((abc, seq![Token::EOF])));
}

/// A group left unclosed fails with `UnableToParse`: `( a + b` with no
/// closing parenthesis.
pub proof fn lemma_unclosed_group_fails(a: u64, b: u64)
    ensures
        spec_parse_toks(
            seq![Token::LeftParen, Token::Num(a), Token::Add, Token::Num(b), Token::EOF],
        ) == Err::<Node, ParseErrorKind>(ParseErrorKind::UnableToParse),
{
    let toks = seq![Token::LeftParen, Token::Num(a), Token::Add, Token::Num(b), Token::EOF];
    let inner = seq![Token::Num(a), Token::Add, Token::Num(b), Token::EOF];
    assert(toks.skip(1) =~= inner);
    let tail1 = seq![Token::Add, Token::Num(b), Token::EOF];
    assert(inner =~= seq![Token::Num(a)] + tail1);
    assert(render_toks(Node::Number(a)) =~= seq![Token::Num(a)]);
    lemma_atom_round_trip(Node::Number(a), tail1);
    assert(tail1.skip(1) =~= seq![Token::Num(b)] + seq![Token::EOF]);
    lemma_number_then_stop(b, seq![Token::EOF], OperPrec::AddSub);
    let ab = Node::Add(Box::new(Node::Number(a)), Box::new(Node::Number(b)));
    lemma_climb_stops(seq![Token::EOF], ab, OperPrec::DefaultZero);
    assert(spec_parse_expr(inner, OperPrec::DefaultZero) == Ok::<
        (Node, Seq<Token>),
        ParseErrorKind,
    >((ab, seq![Token::EOF])));
}

/// Two adjacent groups multiply: `( a ) ( b )` parses as `a * b`.
pub proof fn lemma_adjacent_groups_multiply(a: u64, b: u64)
    ensures
        spec_parse_toks(
            seq![
                Token::LeftParen,
                Token::Num(a),
                Token::RightParen,
                Token::LeftParen,
                Token::Num(b),
                Token::RightParen,
                Token::EOF,
            ],
        ) == Ok::<Node, ParseErrorKind>(
            Node::Multiply(Box::new(Node::Number(a)), Box::new(Node::Number(b))),
        ),
{
    let a_n = Node::Number(a);
    let b_n = Node::Number(b);
    let toks = seq![
        Token::LeftParen,
        Token::Num(a),
        Token::RightParen,
        Token::LeftParen,
        Token::Num(b),
        Token::RightParen,
        Token::EOF,
    ];
    let group_b = seq![Token::LeftParen, Token::Num(b), Token::RightParen, Token::EOF];
    let tail_a = seq![Token::RightParen] + group_b;
    assert(toks.skip(1) =~= seq![Token::Num(a)] + tail_a);
    lemma_number_then_stop(a, tail_a, OperPrec::DefaultZero);
    assert(tail_a.skip(1) =~= group_b);
    assert(group_b.skip(1) =~= seq![Token::Num(b)] + seq![Token::RightParen, Token::EOF]);
    lemma_number_then_stop(
        b,
        seq![Token::RightParen, Token::EOF],
        OperPrec::DefaultZero,
    );
    assert(seq![Token::RightParen, Token::EOF].skip(1) =~= seq![Token::EOF]);
    assert(spec_parse_atom(group_b) == Ok::<(Node, Seq<Token>), ParseErrorKind>(
        (b_n, seq![Token::EOF]),
    ));
    lemma_climb_stops(seq![Token::EOF], b_n, OperPrec::MulDiv);
    assert(spec_parse_expr(group_b, OperPrec::MulDiv) == Ok::<(Node, Seq<Token>), ParseErrorKind>(
        (b_n, seq![Token::EOF]),
    ));
    let prod = Node::Multiply(Box::new(a_n), Box::new(b_n));
    assert(spec_parse_atom(toks) == Ok::<(Node, Seq<Token>), ParseErrorKind>(
        (prod, seq![Token::EOF]),
    ));
    lemma_climb_stops(seq![Token::EOF], prod, OperPrec::DefaultZero);
}

/// Unary minus binds tighter than any binary operator: `- a + b` parses
/// as `(-a) + b`.
pub proof fn lemma_unary_minus_binds_tightest(a: u64, b: u64)
    ensures
        spec_parse_toks(
            seq![Token::Subtract, Token::Num(a), Token::Add, Token::Num(b), Token::EOF],
        ) == Ok::<Node, ParseErrorKind>(
            Node::Add(
                Box::new(Node::Negative(Box::new(Node::Number(a)))),
                Box::new(Node::Number(b)),
            ),
        ),
{
    let neg_a = Node::Negative(Box::new(Node::Number(a)));
    let toks = seq![Token::Subtract, Token::Num(a), Token::Add, Token::Num(b), Token::EOF];
    let tail1 = seq![Token::Add, Token::Num(b), Token::EOF];
    assert(render_toks(Node::Number(a)) =~= seq![Token::Num(a)]);
    assert(render_toks(neg_a) =~= seq![Token::Subtract, Token::Num(a)]);
    assert(toks =~= render_toks(neg_a) + tail1);
    lemma_atom_round_trip(neg_a, tail1);
    assert(tail1.skip(1) =~= seq![Token::Num(b)] + seq![Token::EOF]);
    lemma_number_then_stop(b, seq![Token::EOF], OperPrec::AddSub);
    let sum = Node::Add(Box::new(neg_a), Box::new(Node::Number(b)));
    lemma_climb_stops(seq![Token::EOF], sum, OperPrec::DefaultZero);
    assert(spec_climb(tail1, neg_a, OperPrec::DefaultZero) == Ok::<
        (Node, Seq<Token>),
        ParseErrorKind,
    >((sum, seq![Token::EOF])));
}

/// Unary minus also binds tighter than exponentiation: `- a ^ b` parses
/// as `(-a) ^ b`.
pub proof fn lemma_unary_minus_under_power(a: u64, b: u64)
    ensures
        spec_parse_toks(
            seq![Token::Subtract, Token::Num(a), Token::Caret, Token::Num(b), Token::EOF],
        ) == Ok::<Node, ParseErrorKind>(
            Node::Power(
                Box::new(Node::Negative(Box::new(Node::Number(a)))),
                Box::new(Node::Number(b)),
            ),
        ),
{
    let neg_a = Node::Negative(Box::new(Node::Number(a)));
    let toks = seq![Token::Subtract, Token::Num(a), Token::Caret, Token::Num(b), Token::EOF];
    let tail1 = seq![Token::Caret, Token::Num(b), Token::EOF];
    assert(render_toks(Node::Number(a)) =~= seq![Token::Num(a)]);
    assert(render_toks(neg_a) =~= seq![Token::Subtract, Token::Num(a)]);
    assert(toks =~= render_toks(neg_a) + tail1);
    lemma_atom_round_trip(neg_a, tail1);
    assert(tail1.skip(1) =~= seq![Token::Num(b)] + seq![Token::EOF]);
    lemma_number_then_stop(b, seq![Token::EOF], OperPrec::MulDiv);
    let pow = Node::Power(Box::new(neg_a), Box::new(Node::Number(b)));
    lemma_climb_stops(seq![Token::EOF], pow, OperPrec::DefaultZero);
    assert(spec_climb(tail1, neg_a, OperPrec::DefaultZero) == Ok::<
        (Node, Seq<Token>),
        ParseErrorKind,
    >((pow, seq![Token::EOF])));
}

/// The empty text fails with `InvalidOperator`: not even a first token
/// can be lexed.
pub proof fn lemma_empty_text_fails()
    ensures
        spec_parse_text(Seq::<char>::empty()) == Err::<Node, ParseErrorKind>(
            ParseErrorKind::InvalidOperator,
        ),
{
    assert(tok_next(Seq::<char>::empty(), 0) == TokenStep::EndOfText);
    assert(spec_tokenize(Seq::<char>::empty()) == Seq::<Token>::empty());
}

/// A text consisting of one character that no token starts with fails
/// with `InvalidOperator`. A lone blank counts too: it is skipped and
/// leaves nothing to lex.
pub proof fn lemma_unlexable_char_fails(c: char)
    requires
        !crate::tokenizer::is_digit_char(c),
        c != '+' && c != '-' && c != '*' && c != '/' && c != '^' && c != '(' && c != ')',
    ensures
        spec_parse_text(seq![c]) == Err::<Node, ParseErrorKind>(ParseErrorKind::InvalidOperator),
{
    let s = seq![c];
    if c == ' ' {
        assert(tok_next(s, 0) == tok_next(s, 1));
        assert(tok_next(s, 1) == TokenStep::EndOfText);
    } else {
        assert(tok_next(s, 0) == TokenStep::BadChar);
    }
    assert(spec_tokenize(s) == Seq::<Token>::empty());
}

/// A digit's character is a digit character and reads back as its value.
proof fn lemma_digit_char_val(d: int)
    requires
        0 <= d <= 9,
    ensures
        is_digit_char(digit_char(d)),
        digit_val(digit_char(d)) == d,
{
}

/// The decimal rendering of a non-negative value is a non-empty run of
/// digit characters.
proof fn lemma_num_chars_digits(v: int)
    requires
        v >= 0,
    ensures
        num_chars(v).len() >= 1,
        forall|k: int| 0 <= k < num_chars(v).len() ==> is_digit_char(num_chars(v)[k]),
    decreases v,
{
    if v < 10 {
        lemma_digit_char_val(v);
    } else {
        lemma_num_chars_digits(v / 10);
        lemma_digit_char_val(v % 10);
        assert forall|k: int| 0 <= k < num_chars(v).len() implies is_digit_char(
            num_chars(v)[k],
        ) by {
            if k < num_chars(v / 10).len() {
                assert(num_chars(v)[k] == num_chars(v / 10)[k]);
            } else {
                assert(num_chars(v)[k] == digit_char(v % 10));
            }
        }
    }
}

/// A digit run that sits exactly where a value's decimal rendering was
/// written reads back as that value.
proof fn lemma_digits_value_of_num(s: Seq<char>, i: int, v: int)
    requires
        v >= 0,
        0 <= i,
        i + num_chars(v).len() <= s.len(),
        s.subrange(i, i + num_chars(v).len() as int) == num_chars(v),
    ensures
        digits_value(s, i, i + num_chars(v).len() as int) == v,
    decreases v,
{
    let m = num_chars(v).len() as int;
    if v < 10 {
        lemma_digit_char_val(v);
        assert(s[i] == num_chars(v)[0]);
        assert(digits_value(s, i, i) == 0);
    } else {
        let m0 = num_chars(v / 10).len() as int;
        assert(s.subrange(i, i + m0) =~= num_chars(v / 10));
        lemma_digits_value_of_num(s, i, v / 10);
        lemma_digit_char_val(v % 10);
        assert(s[i + m - 1] == num_chars(v)[m - 1]);
        assert(num_chars(v)[m - 1] == digit_char(v % 10));
        assert(digits_value(s, i, i + m) == digits_value(s, i, i + m - 1) * 10 + digit_val(
            s[i + m - 1],
        ));
    }
}

/// A maximal digit run ends exactly where the digits stop.
proof fn lemma_digits_end_range(s: Seq<char>, i: int, j: int)
    requires
        0 <= i <= j <= s.len(),
        forall|k: int| i <= k < j ==> is_digit_char(s[k]),
        j == s.len() || !is_digit_char(s[j]),
    ensures
        digits_end(s, i) == j,
    decreases j - i,
{
    if i < j {
        assert(is_digit_char(s[i]));
        lemma_digits_end_range(s, i + 1, j);
    }
}

/// Where a value's decimal rendering was written, followed by no further
/// digit, the lexer finds exactly the numeric token of that value.
proof fn lemma_tok_next_num(s: Seq<char>, i: int, v: u64)
    requires
        0 <= i,
        i + num_chars(v as int).len() <= s.len(),
        s.subrange(i, i + num_chars(v as int).len() as int) == num_chars(v as int),
        i + num_chars(v as int).len() == s.len() || !is_digit_char(
            s[i + num_chars(v as int).len()],
        ),
    ensures
        tok_next(s, i) == TokenStep::Lexed(Token::Num(v), i + num_chars(v as int).len() as int),
{
    let m = num_chars(v as int).len() as int;
    lemma_num_chars_digits(v as int);
    assert forall|k: int| i <= k < i + m implies is_digit_char(s[k]) by {
        assert(s[k] == num_chars(v as int)[k - i]);
    }
    lemma_digits_end_range(s, i, i + m);
    lemma_digits_value_of_num(s, i, v as int);
    assert(s[i] == num_chars(v as int)[0]);
    assert(is_digit_char(s[i]));
}

/// The token stream at a position where a tree's rendering was written,
/// with no digit immediately after it, continues with exactly the
/// tree's tokens.
proof fn lemma_toks_of_render(s: Seq<char>, i: int, t: Node)
    requires
        0 <= i,
        i + render_chars(t).len() <= s.len(),
        s.subrange(i, i + render_chars(t).len() as int) == render_chars(t),
        i + render_chars(t).len() == s.len() || !is_digit_char(s[i + render_chars(t).len()]),
    ensures
        toks_from(s, i) == render_toks(t) + toks_from(s, i + render_chars(t).len() as int),
    decreases node_size(t),
{
    let m = render_chars(t).len() as int;
    match t {
        Node::Number(v) => {
            lemma_num_chars_digits(v as int);
            lemma_tok_next_num(s, i, v);
            assert(toks_from(s, i) =~= seq![Token::Num(v)] + toks_from(s, i + m));
        },
        Node::Negative(e) => {
            let em = render_chars(*e).len() as int;
            lemma_node_size_pos(*e);
            assert(s[i] == render_chars(t)[0]);
            assert(render_chars(t)[0] == '-');
            assert(tok_next(s, i) == TokenStep::Lexed(Token::Subtract, i + 1));
            assert forall|k: int| 0 <= k < em implies s.subrange(i + 1, i + 1 + em)[k]
                == render_chars(*e)[k] by {
                assert(render_chars(t)[1 + k] == render_chars(*e)[k]);
                assert(s.subrange(i, i + m)[1 + k] == s[i + 1 + k]);
            }
            assert(s.subrange(i + 1, i + 1 + em) =~= render_chars(*e));
            lemma_toks_of_render(s, i + 1, *e);
            assert(toks_from(s, i) =~= seq![Token::Subtract] + toks_from(s, i + 1));
            assert(render_toks(t) == seq![Token::Subtract] + render_toks(*e));
            assert(toks_from(s, i) =~= render_toks(t) + toks_from(s, i + m));
        },
        Node::Add(l, r) => {
            assert(node_size(t) == 1 + node_size(*l) + node_size(*r));
            lemma_toks_of_render_binary(s, i, '+', Token::Add, *l, *r);
        },
        Node::Subtract(l, r) => {
            assert(node_size(t) == 1 + node_size(*l) + node_size(*r));
            lemma_toks_of_render_binary(s, i, '-', Token::Subtract, *l, *r);
        },
        Node::Multiply(l, r) => {
            assert(node_size(t) == 1 + node_size(*l) + node_size(*r));
            lemma_toks_of_render_binary(s, i, '*', Token::Multiply, *l, *r);
        },
        Node::Divide(l, r) => {
            assert(node_size(t) == 1 + node_size(*l) + node_size(*r));
            lemma_toks_of_render_binary(s, i, '/', Token::Divide, *l, *r);
        },
        Node::Power(l, r) => {
            assert(node_size(t) == 1 + node_size(*l) + node_size(*r));
            lemma_toks_of_render_binary(s, i, '^', Token::Caret, *l, *r);
        },
    }
}

/// One binary arm of [`lemma_toks_of_render`]: the group's opening
/// parenthesis, the two operand renderings, the operator character
/// between them, and the closing parenthesis lex to exactly the group's
/// tokens.
proof fn lemma_toks_of_render_binary(
    s: Seq<char>,
    i: int,
    opc: char,
    opt: Token,
    l: Node,
    r: Node,
)
    requires
        0 <= i,
        (opc == '+' && opt == Token::Add) || (opc == '-' && opt == Token::Subtract) || (opc == '*'
            && opt == Token::Multiply) || (opc == '/' && opt == Token::Divide) || (opc == '^'
            && opt == Token::Caret),
        i + binary_chars(opc, render_chars(l), render_chars(r)).len() <= s.len(),
        s.subrange(i, i + binary_chars(opc, render_chars(l), render_chars(r)).len() as int)
            == binary_chars(opc, render_chars(l), render_chars(r)),
    ensures
        toks_from(s, i) == render_binary(opt, render_toks(l), render_toks(r)) + toks_from(
            s,
            i + binary_chars(opc, render_chars(l), render_chars(r)).len() as int,
        ),
    decreases node_size(l) + node_size(r),
{
    let lm = render_chars(l).len() as int;
    let rm = render_chars(r).len() as int;
    let seg = binary_chars(opc, render_chars(l), render_chars(r));
    let m = seg.len() as int;
    assert(m == 3 + lm + rm);
    lemma_node_size_pos(l);
    lemma_node_size_pos(r);
    assert(s[i] == seg[0]);
    assert(seg[0] == '(');
    assert(tok_next(s, i) == TokenStep::Lexed(Token::LeftParen, i + 1));
    assert(toks_from(s, i) =~= seq![Token::LeftParen] + toks_from(s, i + 1));
    assert forall|k: int| 0 <= k < lm implies s.subrange(i + 1, i + 1 + lm)[k]
        == render_chars(l)[k] by {
        assert(seg[1 + k] == render_chars(l)[k]);
        assert(s.subrange(i, i + m)[1 + k] == s[i + 1 + k]);
    }
    assert(s.subrange(i + 1, i + 1 + lm) =~= render_chars(l));
    assert(s[i + 1 + lm] == seg[1 + lm]);
    assert(seg[1 + lm] == opc);
    assert(!is_digit_char(opc));
    lemma_toks_of_render(s, i + 1, l);
    assert(tok_next(s, i + 1 + lm) == TokenStep::Lexed(opt, i + 2 + lm));
    assert(toks_from(s, i + 1 + lm) =~= seq![opt] + toks_from(s, i + 2 + lm));
    assert forall|k: int| 0 <= k < rm implies s.subrange(i + 2 + lm, i + 2 + lm + rm)[k]
        == render_chars(r)[k] by {
        assert(seg[2 + lm + k] == render_chars(r)[k]);
        assert(s.subrange(i, i + m)[2 + lm + k] == s[i + 2 + lm + k]);
    }
    assert(s.subrange(i + 2 + lm, i + 2 + lm + rm) =~= render_chars(r));
    assert(s[i + 2 + lm + rm] == seg[2 + lm + rm]);
    assert(seg[2 + lm + rm] == ')');
    lemma_toks_of_render(s, i + 2 + lm, r);
    assert(tok_next(s, i + 2 + lm + rm) == TokenStep::Lexed(Token::RightParen, i + 3 + lm + rm));
    assert(toks_from(s, i + 2 + lm + rm) =~= seq![Token::RightParen] + toks_from(s, i + m));
    assert(toks_from(s, i) =~= render_binary(opt, render_toks(l), render_toks(r)) + toks_from(
        s,
        i + m,
    ));
}

/// Lexing a rendered tree gives back exactly the tree's tokens, closed
/// by the end marker.
pub proof fn lemma_tokenize_render(t: Node)
    ensures
        spec_tokenize(render_chars(t)) == render_toks(t) + seq![Token::EOF],
{
    let s = render_chars(t);
    assert(s.subrange(0, s.len() as int) =~= s);
    lemma_toks_of_render(s, 0, t);
    assert(tok_next(s, s.len() as int) == TokenStep::EndOfText);
    assert(toks_from(s, s.len() as int) =~= seq![Token::EOF]);
    lemma_render_toks_len(t);
    assert(toks_from(s, 0) == render_toks(t) + seq![Token::EOF]);
    assert(toks_from(s, 0).len() >= 2);
    match tok_next(s, 0) {
        TokenStep::Lexed(_, _) => {},
        TokenStep::EndOfText => {
            assert(toks_from(s, 0) =~= seq![Token::EOF]);
            assert(false);
        },
        TokenStep::BadChar => {
            assert(toks_from(s, 0) =~= Seq::<Token>::empty());
            assert(false);
        },
    }
}

/// The round trip: re-rendering any tree to an expression text and
/// re-parsing that text yields a structurally identical tree.
pub proof fn lemma_round_trip(t: Node)
    ensures
        spec_parse_text(render_chars(t)) == Ok::<Node, ParseErrorKind>(t),
{
    lemma_tokenize_render(t);
    lemma_round_trip_toks(t);
    lemma_render_toks_len(t);
}

/// At the text level too, an input that is exactly the decimal rendering
/// of a literal parses to that literal's leaf.
pub proof fn lemma_number_literal_text(n: u64)
    ensures
        spec_parse_text(num_chars(n as int)) == Ok::<Node, ParseErrorKind>(Node::Number(n)),
{
    assert(render_chars(Node::Number(n)) == num_chars(n as int));
    lemma_round_trip(Node::Number(n));
}

/// A stream beginning with a binary operator other than `-`, or with a
/// closing parenthesis, fails with `UnableToParse`: no atom starts with
/// such a token.
pub proof fn lemma_leading_operator_fails(toks: Seq<Token>)
    requires
        toks.len() >= 1,
        toks[0] == Token::Add || toks[0] == Token::Multiply || toks[0] == Token::Divide || toks[0]
            == Token::Caret || toks[0] == Token::RightParen,
    ensures
        spec_parse_toks(toks) == Err::<Node, ParseErrorKind>(ParseErrorKind::UnableToParse),
{
    assert(spec_parse_atom(toks) == Err::<(Node, Seq<Token>), ParseErrorKind>(
        ParseErrorKind::UnableToParse,
    ));
}

/// A blank changes nothing about the token stream from a position.
proof fn lemma_toks_from_space(s: Seq<char>, j: int)
    requires
        0 <= j < s.len(),
        s[j] == ' ',
    ensures
        toks_from(s, j) == toks_from(s, j + 1),
{
    assert(tok_next(s, j) == tok_next(s, j + 1));
    match tok_next(s, j + 1) {
        TokenStep::Lexed(t, p) => {
            lemma_tok_next_bounds(s, j + 1);
            assert(toks_from(s, j) =~= seq![t] + toks_from(s, p));
            assert(toks_from(s, j + 1) =~= seq![t] + toks_from(s, p));
        },
        TokenStep::EndOfText => {},
        TokenStep::BadChar => {},
    }
}

/// The token stream at a position where a stream's canonical spelling
/// was written continues with exactly those tokens.
proof fn lemma_toks_of_flat(s: Seq<char>, i: int, toks: Seq<Token>)
    requires
        0 <= i,
        i + toks_chars(toks).len() <= s.len(),
        s.subrange(i, i + toks_chars(toks).len() as int) == toks_chars(toks),
        forall|k: int| 0 <= k < toks.len() ==> toks[k] != Token::EOF,
    ensures
        toks_from(s, i) == toks + toks_from(s, i + toks_chars(toks).len() as int),
    decreases toks.len(),
{
    let m = toks_chars(toks).len() as int;
    if toks.len() == 0 {
        assert(toks_from(s, i) =~= toks + toks_from(s, i + m));
    } else {
        let t = toks[0];
        let tl = token_chars(t).len() as int;
        let rest = toks.skip(1);
        assert(toks_chars(toks) == token_chars(t) + seq![' '] + toks_chars(rest));
        assert(m == tl + 1 + toks_chars(rest).len());
        assert(s[i + tl] == toks_chars(toks)[tl]);
        assert(s[i + tl] == ' ');
        match t {
            Token::Num(v) => {
                assert(s.subrange(i, i + tl) =~= num_chars(v as int));
                lemma_num_chars_digits(v as int);
                lemma_tok_next_num(s, i, v);
            },
            _ => {
                assert(s[i] == toks_chars(toks)[0]);
                assert(s[i] == token_chars(t)[0]);
                assert(tok_next(s, i) == TokenStep::Lexed(t, i + 1));
            },
        }
        assert(tok_next(s, i) == TokenStep::Lexed(t, i + tl));
        assert(toks_from(s, i) =~= seq![t] + toks_from(s, i + tl));
        lemma_toks_from_space(s, i + tl);
        assert forall|k: int| 0 <= k < toks_chars(rest).len() implies s.subrange(
            i + tl + 1,
            i + m,
        )[k] == toks_chars(rest)[k] by {
            assert(toks_chars(toks)[tl + 1 + k] == toks_chars(rest)[k]);
            assert(s.subrange(i, i + m)[tl + 1 + k] == s[i + tl + 1 + k]);
        }
        assert(s.subrange(i + tl + 1, i + m) =~= toks_chars(rest));
        lemma_toks_of_flat(s, i + tl + 1, rest);
        assert(toks_from(s, i) =~= toks + toks_from(s, i + m));
    }
}

/// Lexing the canonical spelling of a stream of tokens (none of them the
/// end marker) gives back exactly those tokens, closed by the end
/// marker.
pub proof fn lemma_tokenize_flat(toks: Seq<Token>)
    requires
        toks.len() >= 1,
        forall|k: int| 0 <= k < toks.len() ==> toks[k] != Token::EOF,
    ensures
        spec_tokenize(toks_chars(toks)) == toks + seq![Token::EOF],
{
    let s = toks_chars(toks);
    assert(s.subrange(0, s.len() as int) =~= s);
    lemma_toks_of_flat(s, 0, toks);
    assert(tok_next(s, s.len() as int) == TokenStep::EndOfText);
    assert(toks_from(s, s.len() as int) =~= seq![Token::EOF]);
    assert(toks_from(s, 0) == toks + seq![Token::EOF]);
    assert(toks_from(s, 0).len() >= 2);
    match tok_next(s, 0) {
        TokenStep::Lexed(_, _) => {},
        TokenStep::EndOfText => {
            assert(toks_from(s, 0) =~= seq![Token::EOF]);
            assert(false);
        },
        TokenStep::BadChar => {
            assert(toks_from(s, 0) =~= Seq::<Token>::empty());
            assert(false);
        },
    }
}

/// Every law stated over a token stream holds of that stream's spelled
/// out text as well: what the text parses to is what the tokens (closed
/// by the end marker) parse to.
pub proof fn lemma_parse_text_of_flat(toks: Seq<Token>)
    requires
        toks.len() >= 1,
        forall|k: int| 0 <= k < toks.len() ==> toks[k] != Token::EOF,
    ensures
        spec_parse_text(toks_chars(toks)) == spec_parse_toks(toks + seq![Token::EOF]),
{
    lemma_tokenize_flat(toks);
}

/// The text `a OP b` parses to the binary node of OP over the two
/// literals' leaves.
pub proof fn lemma_binary_operation_text(op: Token, a: u64, b: u64)
    requires
        is_binary_op(op),
    ensures
        spec_parse_text(toks_chars(seq![Token::Num(a), op, Token::Num(b)])) == Ok::<
            Node,
            ParseErrorKind,
        >(spec_binary_node(op, Node::Number(a), Node::Number(b))),
{
    let toks = seq![Token::Num(a), op, Token::Num(b)];
    lemma_parse_text_of_flat(toks);
    assert(toks + seq![Token::EOF] =~= seq![Token::Num(a), op, Token::Num(b), Token::EOF]);
    lemma_binary_operation(op, a, b);
}

/// The text `a - b - c` parses as `(a - b) - c`.
pub proof fn lemma_subtract_left_associative_text(a: u64, b: u64, c: u64)
    ensures
        spec_parse_text(
            toks_chars(
                seq![Token::Num(a), Token::Subtract, Token::Num(b), Token::Subtract, Token::Num(c)],
            ),
        ) == Ok::<Node, ParseErrorKind>(
            Node::Subtract(
                Box::new(Node::Subtract(Box::new(Node::Number(a)), Box::new(Node::Number(b)))),
                Box::new(Node::Number(c)),
            ),
        ),
{
    let toks = seq![Token::Num(a), Token::Subtract, Token::Num(b), Token::Subtract, Token::Num(c)];
    lemma_parse_text_of_flat(toks);
    assert(toks + seq![Token::EOF] =~= seq![
        Token::Num(a),
        Token::Subtract,
        Token::Num(b),
        Token::Subtract,
        Token::Num(c),
        Token::EOF,
    ]);
    lemma_subtract_left_associative(a, b, c);
}

/// The text `a ^ b ^ c` parses as `a ^ (b ^ c)`.
pub proof fn lemma_power_right_associative_text(a: u64, b: u64, c: u64)
    ensures
        spec_parse_text(
            toks_chars(
                seq![Token::Num(a), Token::Caret, Token::Num(b), Token::Caret, Token::Num(c)],
            ),
        ) == Ok::<Node, ParseErrorKind>(
            Node::Power(
                Box::new(Node::Number(a)),
                Box::new(Node::Power(Box::new(Node::Number(b)), Box::new(Node::Number(c)))),
            ),
        ),
{
    let toks = seq![Token::Num(a), Token::Caret, Token::Num(b), Token::Caret, Token::Num(c)];
    lemma_parse_text_of_flat(toks);
    assert(toks + seq![Token::EOF] =~= seq![
        Token::Num(a),
        Token::Caret,
        Token::Num(b),
        Token::Caret,
        Token::Num(c),
        Token::EOF,
    ]);
    lemma_power_right_associative(a, b, c);
}

/// The text `a + b * c` parses as `a + (b * c)`, never `(a + b) * c`.
pub proof fn lemma_multiplication_binds_tighter_text(a: u64, b: u64, c: u64)
    ensures
        spec_parse_text(
            toks_chars(
                seq![Token::Num(a), Token::Add, Token::Num(b), Token::Multiply, Token::Num(c)],
            ),
        ) == Ok::<Node, ParseErrorKind>(
            Node::Add(
                Box::new(Node::Number(a)),
                Box::new(Node::Multiply(Box::new(Node::Number(b)), Box::new(Node::Number(c)))),
            ),
        ),
{
    let toks = seq![Token::Num(a), Token::Add, Token::Num(b), Token::Multiply, Token::Num(c)];
    lemma_parse_text_of_flat(toks);
    assert(toks + seq![Token::EOF] =~= seq![
        Token::Num(a),
        Token::Add,
        Token::Num(b),
        Token::Multiply,
        Token::Num(c),
        Token::EOF,
    ]);
    lemma_multiplication_binds_tighter(a, b, c);
}

/// The text `( a + b ) * c` parses as the grouped sum multiplied by `c`.
pub proof fn lemma_grouping_overrides_precedence_text(a: u64, b: u64, c: u64)
    ensures
        spec_parse_text(
            toks_chars(
                seq![
                    Token::LeftParen,
                    Token::Num(a),
                    Token::Add,
                    Token::Num(b),
                    Token::RightParen,
                    Token::Multiply,
                    Token::Num(c),
                ],
            ),
        ) == Ok::<Node, ParseErrorKind>(
            Node::Multiply(
                Box::new(Node::Add(Box::new(Node::Number(a)), Box::new(Node::Number(b)))),
                Box::new(Node::Number(c)),
            ),
        ),
{
    let toks = seq![
        Token::LeftParen,
        Token::Num(a),
        Token::Add,
        Token::Num(b),
        Token::RightParen,
        Token::Multiply,
        Token::Num(c),
    ];
    lemma_parse_text_of_flat(toks);
    assert(toks + seq![Token::EOF] =~= seq![
        Token::LeftParen,
        Token::Num(a),
        Token::Add,
        Token::Num(b),
        Token::RightParen,
        Token::Multiply,
        Token::Num(c),
        Token::EOF,
    ]);
    lemma_grouping_overrides_precedence(a, b, c);
}

/// The text `( a + b` with no closing parenthesis fails with
/// `UnableToParse`.
pub proof fn lemma_unclosed_group_fails_text(a: u64, b: u64)
    ensures
        spec_parse_text(
            toks_chars(seq![Token::LeftParen, Token::Num(a), Token::Add, Token::Num(b)]),
        ) == Err::<Node, ParseErrorKind>(ParseErrorKind::UnableToParse),
{
    let toks = seq![Token::LeftParen, Token::Num(a), Token::Add, Token::Num(b)];
    lemma_parse_text_of_flat(toks);
    assert(toks + seq![Token::EOF] =~= seq![
        Token::LeftParen,
        Token::Num(a),
        Token::Add,
        Token::Num(b),
        Token::EOF,
    ]);
    lemma_unclosed_group_fails(a, b);
}

/// The text `( a ) ( b )` parses as `a * b`.
pub proof fn lemma_adjacent_groups_multiply_text(a: u64, b: u64)
    ensures
        spec_parse_text(
            toks_chars(
                seq![
                    Token::LeftParen,
                    Token::Num(a),
                    Token::RightParen,
                    Token::LeftParen,
                    Token::Num(b),
                    Token::RightParen,
                ],
            ),
        ) == Ok::<Node, ParseErrorKind>(
            Node::Multiply(Box::new(Node::Number(a)), Box::new(Node::Number(b))),
        ),
{
    let toks = seq![
        Token::LeftParen,
        Token::Num(a),
        Token::RightParen,
        Token::LeftParen,
        Token::Num(b),
        Token::RightParen,
    ];
    lemma_parse_text_of_flat(toks);
    assert(toks + seq![Token::EOF] =~= seq![
        Token::LeftParen,
        Token::Num(a),
        Token::RightParen,
        Token::LeftParen,
        Token::Num(b),
        Token::RightParen,
        Token::EOF,
    ]);
    lemma_adjacent_groups_multiply(a, b);
}

/// The text `- a + b` parses as `(-a) + b`.
pub proof fn lemma_unary_minus_binds_tightest_text(a: u64, b: u64)
    ensures
        spec_parse_text(
            toks_chars(seq![Token::Subtract, Token::Num(a), Token::Add, Token::Num(b)]),
        ) == Ok::<Node, ParseErrorKind>(
            Node::Add(
                Box::new(Node::Negative(Box::new(Node::Number(a)))),
                Box::new(Node::Number(b)),
            ),
        ),
{
    let toks = seq![Token::Subtract, Token::Num(a), Token::Add, Token::Num(b)];
    lemma_parse_text_of_flat(toks);
    assert(toks + seq![Token::EOF] =~= seq![
        Token::Subtract,
        Token::Num(a),
        Token::Add,
        Token::Num(b),
        Token::EOF,
    ]);
    lemma_unary_minus_binds_tightest(a, b);
}

/// The text `- a ^ b` parses as `(-a) ^ b`.
pub proof fn lemma_unary_minus_under_power_text(a: u64, b: u64)
    ensures
        spec_parse_text(
            toks_chars(seq![Token::Subtract, Token::Num(a), Token::Caret, Token::Num(b)]),
        ) == Ok::<Node, ParseErrorKind>(
            Node::Power(
                Box::new(Node::Negative(Box::new(Node::Number(a)))),
                Box::new(Node::Number(b)),
            ),
        ),
{
    let toks = seq![Token::Subtract, Token::Num(a), Token::Caret, Token::Num(b)];
    lemma_parse_text_of_flat(toks);
    assert(toks + seq![Token::EOF] =~= seq![
        Token::Subtract,
        Token::Num(a),
        Token::Caret,
        Token::Num(b),
        Token::EOF,
    ]);
    lemma_unary_minus_under_power(a, b);
}

/// A text beginning with a binary operator other than `-`, or with a
/// closing parenthesis, fails with `UnableToParse`, whatever follows.
pub proof fn lemma_leading_operator_fails_text(toks: Seq<Token>)
    requires
        toks.len() >= 1,
        forall|k: int| 0 <= k < toks.len() ==> toks[k] != Token::EOF,
        toks[0] == Token::Add || toks[0] == Token::Multiply || toks[0] == Token::Divide || toks[0]
            == Token::Caret || toks[0] == Token::RightParen,
    ensures
        spec_parse_text(toks_chars(toks)) == Err::<Node, ParseErrorKind>(
            ParseErrorKind::UnableToParse,
        ),
{
    lemma_parse_text_of_flat(toks);
    assert((toks + seq![Token::EOF])[0] == toks[0]);
    lemma_leading_operator_fails(toks + seq![Token::EOF]);
}

} // verus!
