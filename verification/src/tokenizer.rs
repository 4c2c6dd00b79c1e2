//! Lexical scanning: from the characters of an expression string to a
//! stream of [`Token`] values.
//!
//! The mathematical model is [`tok_next`], which says which token starts
//! at a given character position, and [`toks_from`], the whole stream
//! from a position on. The executable [`Tokenizer`] is proved to follow
//! that model exactly. Blanks (`' '`) between tokens are skipped. A
//! numeric literal is a maximal run of decimal digits; one whose value
//! exceeds `u64::MAX` is treated as unlexable. On a well-formed tail the
//! stream ends with one explicit [`Token::EOF`]; an unlexable character
//! cuts the stream short with no end marker.

use vstd::prelude::*;

use crate::token::Token;

verus! {

/// Is `c` a decimal digit?
pub open spec fn is_digit_char(c: char) -> bool {
    48 <= c as u32 && c as u32 <= 57
}

/// The numeric value of a digit character.
pub open spec fn digit_val(c: char) -> int {
    c as u32 - 48
}

/// The first position at or after `i` holding a non-digit (or the end).
pub open spec fn digits_end(s: Seq<char>, i: int) -> int
    decreases s.len() - i,
{
    if i < s.len() && is_digit_char(s[i]) {
        digits_end(s, i + 1)
    } else {
        i
    }
}

/// The value of the digit run `s[i..j]`, read in base ten.
pub open spec fn digits_value(s: Seq<char>, i: int, j: int) -> int
    decreases j - i,
{
    if i < j {
        digits_value(s, i, j - 1) * 10 + digit_val(s[j - 1])
    } else {
        0
    }
}

/// What the lexer finds at position `i`: a token and the position just
/// past it, the end of the text, or a character no token starts with.
pub enum TokenStep {
    Lexed(Token, int),
    EndOfText,
    BadChar,
}

/// The token starting at position `i` of `s`, after skipping blanks.
pub open spec fn tok_next(s: Seq<char>, i: int) -> TokenStep
    decreases s.len() - i,
{
    if i >= s.len() {
        TokenStep::EndOfText
    } else if s[i] == ' ' {
        tok_next(s, i + 1)
    } else if s[i] == '+' {
        TokenStep::Lexed(Token::Add, i + 1)
    } else if s[i] == '-' {
        TokenStep::Lexed(Token::Subtract, i + 1)
    } else if s[i] == '*' {
        TokenStep::Lexed(Token::Multiply, i + 1)
    } else if s[i] == '/' {
        TokenStep::Lexed(Token::Divide, i + 1)
    } else if s[i] == '^' {
        TokenStep::Lexed(Token::Caret, i + 1)
    } else if s[i] == '(' {
        TokenStep::Lexed(Token::LeftParen, i + 1)
    } else if s[i] == ')' {
        TokenStep::Lexed(Token::RightParen, i + 1)
    } else if is_digit_char(s[i]) {
        if digits_value(s, i, digits_end(s, i)) <= u64::MAX {
            TokenStep::Lexed(
                Token::Num(digits_value(s, i, digits_end(s, i)) as u64),
                digits_end(s, i),
            )
        } else {
            TokenStep::BadChar
        }
    } else {
        TokenStep::BadChar
    }
}

/// The token stream of `s` from position `i` on: the lexed tokens in
/// order, closed by one `EOF` if the end of the text is reached, and cut
/// short with no `EOF` if an unlexable character is hit first.
pub open spec fn toks_from(s: Seq<char>, i: int) -> Seq<Token>
    decreases s.len() - i,
{
    match tok_next(s, i) {
        TokenStep::EndOfText => seq![Token::EOF],
        TokenStep::BadChar => Seq::empty(),
        TokenStep::Lexed(t, j) => if i < j && j <= s.len() {
            seq![t] + toks_from(s, j)
        } else {
            Seq::empty()
        },
    }
}

/// The token stream of the whole text. It is empty exactly when no token
/// at all can be lexed: an empty or blank text, or one starting with an
/// unlexable character.
pub open spec fn spec_tokenize(s: Seq<char>) -> Seq<Token> {
    match tok_next(s, 0) {
        TokenStep::Lexed(_, _) => toks_from(s, 0),
        _ => Seq::empty(),
    }
}

/// Every position of the digit run starting at `i` holds a digit, and
/// the run's end lies between `i` and the end of the text.
pub proof fn lemma_digits_end(s: Seq<char>, i: int)
    requires
        0 <= i <= s.len(),
    ensures
        i <= digits_end(s, i) <= s.len(),
        forall|k: int| i <= k < digits_end(s, i) ==> is_digit_char(s[k]),
    decreases s.len() - i,
{
    if i < s.len() && is_digit_char(s[i]) {
        lemma_digits_end(s, i + 1);
    }
}

/// The value of a digit run is non-negative and grows (weakly) as the
/// run is extended to the right by further digits.
pub proof fn lemma_digits_value_grows(s: Seq<char>, i: int, j: int, k: int)
    requires
        i <= j <= k,
        digits_value(s, i, j) >= 0,
        forall|m: int| j <= m < k ==> is_digit_char(s[m]),
    ensures
        digits_value(s, i, k) >= digits_value(s, i, j),
    decreases k - j,
{
    if j < k {
        assert(is_digit_char(s[k - 1]));
        lemma_digits_value_grows(s, i, j, k - 1);
    }
}

/// A successfully lexed token sits strictly past its starting position,
/// within the text, and is never the `EOF` marker.
pub proof fn lemma_tok_next_bounds(s: Seq<char>, i: int)
    requires
        0 <= i,
    ensures
        tok_next(s, i) matches TokenStep::Lexed(t, j) ==> i < j <= s.len() && t != Token::EOF,
    decreases s.len() - i,
{
    if i < s.len() {
        if s[i] == ' ' {
            lemma_tok_next_bounds(s, i + 1);
        } else if is_digit_char(s[i]) {
            lemma_digits_end(s, i + 1);
            assert(digits_end(s, i) == digits_end(s, i + 1));
        }
    }
}

/// A lazy lexer over a borrowed expression string: the verified
/// counterpart of [`tok_next`], advancing one token per call.
pub struct Tokenizer<'a> {
    expr: &'a str,
    pos: usize,
    started: bool,
}

impl<'a> Tokenizer<'a> {
    /// The characters being lexed.
    pub closed spec fn text(self) -> Seq<char> {
        self.expr@
    }

    /// The current character position.
    pub closed spec fn cursor(self) -> int {
        self.pos as int
    }

    /// Whether at least one token has been yielded so far. Only then does
    /// the lexer close the stream with an `EOF` token; a source that is
    /// exhausted before yielding anything yields nothing at all.
    pub closed spec fn has_started(self) -> bool {
        self.started
    }

    /// The cursor never passes the end of the text.
    pub open spec fn wf(self) -> bool {
        0 <= self.cursor() <= self.text().len()
    }

    /// A fresh lexer at the start of `expr`.
    pub fn new(expr: &'a str) -> (t: Self)
        ensures
            t.text() == expr@,
            t.cursor() == 0,
            !t.has_started(),
            t.wf(),
    {
        Tokenizer { expr, pos: 0, started: false }
    }

    /// Scans the remainder of a digit run. `acc` is the value of the
    /// digits read so far, from `start` up to `i`; the result is the
    /// value and end of the full run, or `None` if it exceeds `u64::MAX`.
    fn scan_number(expr: &str, i: usize, acc: u64, start: Ghost<int>) -> (r: Option<(u64, usize)>)
        requires
            0 <= start@ <= i as int <= expr@.len(),
            acc as int == digits_value(expr@, start@, i as int),
        ensures
            match r {
                Some(p) => p.1 as int == digits_end(expr@, i as int)
                    && p.0 as int == digits_value(expr@, start@, digits_end(expr@, i as int))
                    && digits_value(expr@, start@, digits_end(expr@, i as int)) <= u64::MAX,
                None => digits_value(expr@, start@, digits_end(expr@, i as int)) > u64::MAX,
            },
        decreases expr@.len() - i,
    {
        let ghost s = expr@;
        if i < expr.unicode_len() {
            let c = expr.get_char(i);
            let u: u32 = c as u32;
            if 48 <= u && u <= 57 {
                let d: u64 = (u - 48) as u64;
                let wide: u128 = (acc as u128) * 10 + (d as u128);
                assert(digits_end(s, i as int) == digits_end(s, i as int + 1));
                assert(digits_value(s, start@, i as int + 1) == acc * 10 + d);
                if wide > u64::MAX as u128 {
                    proof {
                        lemma_digits_end(s, i as int + 1);
                        lemma_digits_value_grows(
                            s,
                            start@,
                            i as int + 1,
                            digits_end(s, i as int + 1),
                        );
                    }
                    None
                } else {
                    Self::scan_number(expr, i + 1, wide as u64, Ghost(start@))
                }
            } else {
                assert(digits_end(s, i as int) == i as int);
                Some((acc, i))
            }
        } else {
            assert(digits_end(s, i as int) == i as int);
            Some((acc, i))
        }
    }

    /// The next token of the stream: `Some` of a lexed token, `Some(EOF)`
    /// once the text is exhausted after at least one token, and `None`
    /// when the text is exhausted before any token or an unlexable
    /// character is reached.
    pub fn next(&mut self) -> (r: Option<Token>)
        requires
            old(self).wf(),
        ensures
            final(self).wf(),
            final(self).text() == old(self).text(),
            old(self).has_started() ==> final(self).has_started(),
            match tok_next(old(self).text(), old(self).cursor()) {
                TokenStep::Lexed(t, j) => r == Some(t) && final(self).cursor() == j
                    && final(self).has_started(),
                TokenStep::EndOfText => final(self).has_started() == old(self).has_started()
                    && (if old(self).has_started() {
                    r == Some(Token::EOF)
                } else {
                    r == None::<Token>
                }),
                TokenStep::BadChar => r == None::<Token>
                    && final(self).has_started() == old(self).has_started()
                    && toks_from(final(self).text(), final(self).cursor())
                    == Seq::<Token>::empty(),
            },
    {
        let ghost s = self.expr@;
        let ghost i0 = self.pos as int;
        let len = self.expr.unicode_len();
        while self.pos < len && self.expr.get_char(self.pos) == ' '
            invariant
                self.expr@ == s,
                len == s.len(),
                i0 <= self.pos as int <= len as int,
                self.started == old(self).started,
                tok_next(s, self.pos as int) == tok_next(s, i0),
            decreases len - self.pos,
        {
            assert(tok_next(s, self.pos as int) == tok_next(s, self.pos as int + 1));
            self.pos = self.pos + 1;
        }
        if self.pos == len {
            assert(tok_next(s, i0) == TokenStep::EndOfText);
            if self.started {
                return Some(Token::EOF);
            } else {
                return None;
            }
        }
        let c = self.expr.get_char(self.pos);
        if c == '+' {
            self.pos = self.pos + 1;
            self.started = true;
            return Some(Token::Add);
        }
        if c == '-' {
            self.pos = self.pos + 1;
            self.started = true;
            return Some(Token::Subtract);
        }
        if c == '*' {
            self.pos = self.pos + 1;
            self.started = true;
            return Some(Token::Multiply);
        }
        if c == '/' {
            self.pos = self.pos + 1;
            self.started = true;
            return Some(Token::Divide);
        }
        if c == '^' {
            self.pos = self.pos + 1;
            self.started = true;
            return Some(Token::Caret);
        }
        if c == '(' {
            self.pos = self.pos + 1;
            self.started = true;
            return Some(Token::LeftParen);
        }
        if c == ')' {
            self.pos = self.pos + 1;
            self.started = true;
            return Some(Token::RightParen);
        }
        let u: u32 = c as u32;
        if 48 <= u && u <= 57 {
            let ghost start = self.pos as int;
            let d0: u64 = (u - 48) as u64;
            assert(digits_value(s, start, start) == 0);
            assert(digits_value(s, start, start + 1) == digit_val(s[start]));
            match Self::scan_number(self.expr, self.pos + 1, d0, Ghost(self.pos as int)) {
                Some(p) => {
                    proof {
                        assert(digits_end(s, start) == digits_end(s, start + 1));
                        lemma_digits_end(s, start + 1);
                    }
                    self.pos = p.1;
                    self.started = true;
                    return Some(Token::Num(p.0));
                },
                None => {
                    proof {
                        assert(digits_end(s, start) == digits_end(s, start + 1));
                        assert(tok_next(s, self.pos as int) == TokenStep::BadChar);
                        assert(toks_from(s, self.pos as int) == Seq::<Token>::empty());
                    }
                    return None;
                },
            }
        }
        assert(tok_next(s, self.pos as int) == TokenStep::BadChar);
        assert(toks_from(s, self.pos as int) == Seq::<Token>::empty());
        None
    }
}

} // verus!
