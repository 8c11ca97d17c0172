//! A scanned source line: its line number and its tokens.

use crate::lex::{lex, scan_line, DIRECT};
use crate::text::push_char;
use crate::token::{display, view_seq, Lexeme, Token};
use vstd::prelude::*;

verus! {

/// The digit character for `d` (below ten).
pub open spec fn digit_char(d: nat) -> char {
    ((48 + d) as u8) as char
}

/// The decimal spelling of `n`, without leading zeros.
pub open spec fn decimal(n: nat) -> Seq<char>
    decreases n,
{
    if n < 10 {
        seq![digit_char(n)]
    } else {
        decimal(n / 10).push(digit_char(n % 10))
    }
}

/// The display texts of `ts`, one after another.
pub open spec fn concat_display(ts: Seq<Lexeme>) -> Seq<char>
    decreases ts.len(),
{
    if ts.len() == 0 {
        seq![]
    } else {
        concat_display(ts.drop_last()) + display(ts.last())
    }
}

/// Appends the decimal spelling of `n` to `r`.
fn push_decimal(r: &mut String, n: u32)
    ensures
        final(r)@ == old(r)@ + decimal(n as nat),
    decreases n,
{
    if n >= 10 {
        push_decimal(r, n / 10);
    }
    push_char(r, ((48 + n % 10) as u8) as char);
    assert(final(r)@ =~= old(r)@ + decimal(n as nat));
}

/// One line of source text, scanned.
#[derive(Debug, PartialEq)]
pub struct Line {
    number: u16,
    tokens: Vec<Token>,
}

impl View for Line {
    type V = (u16, Seq<Lexeme>);

    closed spec fn view(&self) -> (u16, Seq<Lexeme>) {
        (self.number, view_seq(self.tokens@))
    }
}

impl Line {
    /// Scans the line `s`.
    pub fn from_str(s: &str) -> (r: Line)
        ensures
            r@ == scan_line(s@),
    {
        let (line_number, tokens) = lex(s);
        Line { tokens: tokens, number: line_number }
    }

    /// Whether the line has no line number (immediate mode).
    pub fn is_direct(&self) -> (r: bool)
        ensures
            r == (self@.0 == DIRECT),
    {
        self.number == DIRECT
    }

    /// The line number (`DIRECT` where the line has none).
    pub fn number(&self) -> (r: u16)
        ensures
            r == self@.0,
    {
        self.number
    }

    /// The tokens of the line.
    pub fn tokens(&self) -> (r: &Vec<Token>)
        ensures
            view_seq(r@) == self@.1,
    {
        &self.tokens
    }

    /// The line written out again: its line number, if any, then the display
    /// text of each token.
    pub fn text(&self) -> (r: String)
        ensures
            r@ == (if self@.0 == DIRECT {
                seq![]
            } else {
                decimal(self@.0 as nat)
            }) + concat_display(self@.1),
    {
        let mut r = String::new();
        if self.number != DIRECT {
            push_decimal(&mut r, self.number as u32);
        }
        let ghost head = r@;
        let mut i: usize = 0;
        while i < self.tokens.len()
            invariant
                i <= self.tokens@.len(),
                r@ == head + concat_display(view_seq(self.tokens@).subrange(0, i as int)),
            decreases self.tokens@.len() - i,
        {
            let t = self.tokens[i].text();
            r.append(t.as_str());
            i += 1;
            proof {
                let ts = view_seq(self.tokens@).subrange(0, i as int);
                assert(ts.drop_last() =~= view_seq(self.tokens@).subrange(0, i - 1));
            }
            assert(r@ =~= head + concat_display(view_seq(self.tokens@).subrange(0, i as int)));
        }
        assert(view_seq(self.tokens@).subrange(0, i as int) =~= view_seq(self.tokens@));
        r
    }
}

} // verus!
