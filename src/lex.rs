//! The line scanner: a pull-based tokenizer over one line of source text,
//! and the driver that scans a whole line and splits off its line number.

use crate::text::{
    all_digits, blank, digit, digits_value, is_blank, is_digit, is_letter, letter, push_char,
    small_value, to_upper, trim_end, trimmed_end, upper,
};
use crate::token::{
    lookup, view_opt, view_seq, Ident, IdentKind, Lexeme, Literal, LiteralKind, Token, Word,
};
use vstd::prelude::*;

verus! {

/// The line number of a line that has none (immediate mode).
pub const DIRECT: u16 = 65535;

/// The largest line number.
pub const MAX_LINE: u16 = 65529;

/// The scanner's state: the line, the read position, whether the rest of the
/// line is a comment, whether no token has been read yet, the line number
/// found so far, and a token held back for the next pull.
pub struct ScanState {
    pub input: Seq<char>,
    pub pos: int,
    pub remark: bool,
    pub starting: bool,
    pub line: u16,
    pub pending: Option<Lexeme>,
}

/// A state whose position lies within its line, and which has no line
/// number while no token has been read.
pub open spec fn state_ok(st: ScanState) -> bool {
    &&& 0 <= st.pos <= st.input.len()
    &&& st.starting ==> st.line == DIRECT
}

/// The state in which a line is scanned from its start.
pub open spec fn initial(s: Seq<char>) -> ScanState {
    ScanState { input: s, pos: 0, remark: false, starting: true, line: DIRECT, pending: None }
}

/// The line without its end-of-line sequence (`\r\n`, `\r` or `\n`).
pub open spec fn strip_eol(s: Seq<char>) -> Seq<char> {
    if s.len() >= 2 && s[s.len() - 2] == '\r' && s[s.len() - 1] == '\n' {
        s.subrange(0, s.len() - 2)
    } else if s.len() >= 1 && (s[s.len() - 1] == '\r' || s[s.len() - 1] == '\n') {
        s.subrange(0, s.len() - 1)
    } else {
        s
    }
}

/// The end of the run of blanks that starts at `i`.
pub open spec fn blank_end(s: Seq<char>, i: int) -> int
    decreases s.len() - i,
{
    if 0 <= i < s.len() && is_blank(s[i]) {
        blank_end(s, i + 1)
    } else {
        i
    }
}

/// The position of the first quote at or after `i`, or the end of the line.
pub open spec fn quote_end(s: Seq<char>, i: int) -> int
    decreases s.len() - i,
{
    if 0 <= i < s.len() && s[i] != '"' {
        quote_end(s, i + 1)
    } else {
        i
    }
}

/// The characters `e` and `d` of a number are written in upper case.
pub open spec fn exponent_upper(c: char) -> char {
    if c == 'e' {
        'E'
    } else if c == 'd' {
        'D'
    } else {
        c
    }
}

/// Whether a numeric literal whose last character is `c` goes on with `p`.
pub open spec fn number_goes_on(c: char, p: char, decimal: bool, exp: bool) -> bool {
    ((c == 'E' || c == 'D') && (p == '+' || p == '-')) || is_digit(p) || (!decimal && p == '.')
        || (!exp && p == 'E') || p == 'e' || p == 'D' || p == 'd' || p == '!' || p == '#' || p
        == '%'
}

/// The width of a numeric literal without a forcing suffix: more than seven
/// significant digits make it Double; a plain digit string that fits a 16-bit
/// signed integer is Integer; anything else is Single.
pub open spec fn number_kind(text: Seq<char>, digits: nat, decimal: bool, exp: bool) -> LiteralKind {
    if digits > 7 {
        LiteralKind::Double
    } else if !exp && !decimal && text.len() > 0 && all_digits(text) && digits_value(text) <= 32767 {
        LiteralKind::Integer
    } else {
        LiteralKind::Single
    }
}

/// Scanning a numeric literal on from `i`, with the text read so far, its
/// count of significant digits, and whether a decimal point or an exponent
/// was seen. Gives the end position and the token.
pub open spec fn number_from(
    s: Seq<char>,
    i: int,
    text: Seq<char>,
    digits: nat,
    decimal: bool,
    exp: bool,
) -> (int, Lexeme)
    decreases s.len() - i,
{
    if !(0 <= i < s.len()) {
        (i, Lexeme::Literal(LiteralKind::Single, text))
    } else {
        let c = exponent_upper(s[i]);
        let text = text.push(c);
        let digits = (if !exp && is_digit(c) {
            digits + 1
        } else {
            digits
        }) + (if c == 'D' {
            8nat
        } else {
            0nat
        });
        let decimal = decimal || c == '.';
        if c == '!' {
            (i + 1, Lexeme::Literal(LiteralKind::Single, text))
        } else if c == '#' {
            (i + 1, Lexeme::Literal(LiteralKind::Double, text))
        } else if c == '%' {
            (i + 1, Lexeme::Literal(LiteralKind::Integer, text))
        } else {
            let more = i + 1 < s.len();
            let exp = exp || (more && (c == 'E' || c == 'D'));
            if more && number_goes_on(c, s[i + 1], decimal, exp) {
                number_from(s, i + 1, text, digits, decimal, exp)
            } else {
                (i + 1, Lexeme::Literal(number_kind(text, digits, decimal, exp), text))
            }
        }
    }
}

/// Whether an alphabetic run goes on with `p`: a letter, unless a digit has
/// been seen; a digit; or a sigil.
pub open spec fn word_goes_on(p: char, digit: bool) -> bool {
    (is_letter(p) && !digit) || is_digit(p) || p == '$' || p == '!' || p == '#' || p == '%'
}

/// Scanning an alphabetic run on from `i`: characters are read in upper case
/// and the first prefix that is a reserved word is taken; a sigil ends an
/// identifier of its storage class.
pub open spec fn word_from(s: Seq<char>, i: int, text: Seq<char>, digit: bool) -> (int, Lexeme)
    decreases s.len() - i,
{
    if !(0 <= i < s.len()) {
        (i, Lexeme::Ident(IdentKind::Plain, text))
    } else {
        let c = upper(s[i]);
        let text = text.push(c);
        let digit = digit || is_digit(c);
        match lookup(text) {
            Some(t) => (i + 1, t),
            None => if c == '$' {
                (i + 1, Lexeme::Ident(IdentKind::String, text))
            } else if c == '!' {
                (i + 1, Lexeme::Ident(IdentKind::Single, text))
            } else if c == '#' {
                (i + 1, Lexeme::Ident(IdentKind::Double, text))
            } else if c == '%' {
                (i + 1, Lexeme::Ident(IdentKind::Integer, text))
            } else if i + 1 < s.len() && word_goes_on(s[i + 1], digit) {
                word_from(s, i + 1, text, digit)
            } else {
                (i + 1, Lexeme::Ident(IdentKind::Plain, text))
            },
        }
    }
}

/// Whether a run of other characters goes on with `p`.
pub open spec fn symbol_goes_on(p: char) -> bool {
    !is_letter(p) && !is_digit(p) && !is_blank(p)
}

/// Scanning a run of other characters on from `i`, until it spells a
/// reserved token or the next character is a letter, digit or blank.
pub open spec fn symbol_from(s: Seq<char>, i: int, text: Seq<char>) -> (int, Lexeme)
    decreases s.len() - i,
{
    if !(0 <= i < s.len()) {
        (i, Lexeme::Unknown(text))
    } else {
        let text = text.push(s[i]);
        match lookup(text) {
            Some(t) => (i + 1, t),
            None => if i + 1 < s.len() && symbol_goes_on(s[i + 1]) {
                symbol_from(s, i + 1, text)
            } else {
                (i + 1, Lexeme::Unknown(text))
            },
        }
    }
}

/// The line number that a first numeric token stands for: a digit string of
/// value at most `MAX_LINE`.
pub open spec fn line_number_of(t: Lexeme) -> Option<u16> {
    match t {
        Lexeme::Literal(_, text) => if text.len() > 0 && all_digits(text) && digits_value(text)
            <= MAX_LINE as nat {
            Some(digits_value(text) as u16)
        } else {
            None
        },
        _ => None,
    }
}

/// A run of blanks ends within the line, after its first blank.
pub proof fn lemma_blank_end(s: Seq<char>, i: int)
    requires
        0 <= i <= s.len(),
    ensures
        i <= blank_end(s, i) <= s.len(),
        i < s.len() && is_blank(s[i]) ==> i < blank_end(s, i),
        forall|j: int| i <= j < blank_end(s, i) ==> is_blank(#[trigger] s[j]),
        blank_end(s, i) < s.len() ==> !is_blank(s[blank_end(s, i)]),
    decreases s.len() - i,
{
    if i < s.len() && is_blank(s[i]) {
        lemma_blank_end(s, i + 1);
    }
}

/// The closing quote, if any, lies within the line.
pub proof fn lemma_quote_end(s: Seq<char>, i: int)
    requires
        0 <= i <= s.len(),
    ensures
        i <= quote_end(s, i) <= s.len(),
        quote_end(s, i) < s.len() ==> s[quote_end(s, i)] == '"',
        forall|j: int| i <= j < quote_end(s, i) ==> #[trigger] s[j] != '"',
    decreases s.len() - i,
{
    if i < s.len() && s[i] != '"' {
        lemma_quote_end(s, i + 1);
    }
}

/// A numeric literal takes at least one character and ends within the line.
pub proof fn lemma_number_end(s: Seq<char>, i: int, text: Seq<char>, digits: nat, decimal: bool, exp: bool)
    requires
        0 <= i < s.len(),
    ensures
        i < number_from(s, i, text, digits, decimal, exp).0 <= s.len(),
    decreases s.len() - i,
{
    let c = exponent_upper(s[i]);
    let text2 = text.push(c);
    let digits2 = (if !exp && is_digit(c) {
        digits + 1
    } else {
        digits
    }) + (if c == 'D' {
        8nat
    } else {
        0nat
    });
    let decimal2 = decimal || c == '.';
    let exp2 = exp || (i + 1 < s.len() && (c == 'E' || c == 'D'));
    if i + 1 < s.len() {
        lemma_number_end(s, i + 1, text2, digits2, decimal2, exp2);
    }
}

/// An alphabetic run takes at least one character and ends within the line.
pub proof fn lemma_word_end(s: Seq<char>, i: int, text: Seq<char>, digit: bool)
    requires
        0 <= i < s.len(),
    ensures
        i < word_from(s, i, text, digit).0 <= s.len(),
    decreases s.len() - i,
{
    let c = upper(s[i]);
    if i + 1 < s.len() {
        lemma_word_end(s, i + 1, text.push(c), digit || is_digit(c));
    }
}

/// A run of other characters takes at least one character and ends within
/// the line.
pub proof fn lemma_symbol_end(s: Seq<char>, i: int, text: Seq<char>)
    requires
        0 <= i < s.len(),
    ensures
        i < symbol_from(s, i, text).0 <= s.len(),
    decreases s.len() - i,
{
    if i + 1 < s.len() {
        lemma_symbol_end(s, i + 1, text.push(s[i]));
    }
}

/// One pull of the scanner: the state after it and the token it gives, if
/// any. A held-back token comes first; in comment mode the rest of the line
/// is one token. A first numeric token that is a line number is not given:
/// the blank after it is, or a single blank where none follows. In a numbered
/// line a single blank is held back between an alphabetic token and a letter
/// that follows it.
pub open spec fn step(st: ScanState) -> (ScanState, Option<Lexeme>)
    decreases st.input.len() - st.pos,
{
    let s = st.input;
    if st.pending is Some {
        (ScanState { pending: None, ..st }, st.pending)
    } else if !(0 <= st.pos < s.len()) {
        (st, None)
    } else if st.remark {
        (ScanState { pos: s.len() as int, ..st }, Some(Lexeme::Unknown(s.subrange(st.pos, s.len() as int))))
    } else {
        let c = s[st.pos];
        if is_blank(c) {
            let e = blank_end(s, st.pos);
            let tw = Lexeme::Whitespace((e - st.pos) as nat);
            let st1 = ScanState { pos: e, ..st };
            if st.starting {
                proof {
                    lemma_blank_end(s, st.pos);
                }
                let (st2, tn) = step(st1);
                if st2.line != DIRECT {
                    (st2, tn)
                } else {
                    (ScanState { pending: tn, ..st2 }, Some(tw))
                }
            } else {
                (st1, Some(tw))
            }
        } else if is_digit(c) || c == '.' {
            let (e, tn) = number_from(s, st.pos, seq![], 0, false, false);
            if st.starting {
                let st1 = ScanState { pos: e, starting: false, ..st };
                match line_number_of(tn) {
                    Some(n) => {
                        proof {
                            lemma_number_end(s, st.pos, seq![], 0, false, false);
                        }
                        let (st2, nt) = step(ScanState { line: n, ..st1 });
                        if nt matches Some(Lexeme::Whitespace(_)) {
                            (st2, nt)
                        } else {
                            (ScanState { pending: nt, ..st2 }, Some(Lexeme::Whitespace(1)))
                        }
                    },
                    None => (st1, Some(tn)),
                }
            } else {
                (ScanState { pos: e, ..st }, Some(tn))
            }
        } else if is_letter(c) {
            let (e, t) = word_from(s, st.pos, seq![], false);
            let pending = if e < s.len() && is_letter(s[e]) && st.line != DIRECT {
                Some(Lexeme::Whitespace(1))
            } else {
                None
            };
            (
                ScanState {
                    pos: e,
                    starting: false,
                    remark: t == Lexeme::Word(Word::Rem),
                    pending,
                    ..st
                },
                Some(t),
            )
        } else if c == '"' {
            let q = quote_end(s, st.pos + 1);
            let e = if q < s.len() {
                q + 1
            } else {
                q
            };
            (
                ScanState { pos: e, starting: false, ..st },
                Some(Lexeme::Literal(LiteralKind::String, s.subrange(st.pos + 1, q))),
            )
        } else {
            let (e, t) = symbol_from(s, st.pos, seq![]);
            (
                ScanState { pos: e, starting: false, remark: t == Lexeme::Word(Word::Rem2), ..st },
                Some(t),
            )
        }
    }
}

/// A measure that each pull that gives a token makes smaller.
pub open spec fn measure(st: ScanState) -> int {
    2 * (st.input.len() - st.pos) + if st.pending is Some {
        1int
    } else {
        0int
    }
}

/// A pull keeps the state well formed, never moves back, and when it gives a
/// token it makes the measure smaller; when it gives none it changes nothing.
/// Once a token has been read from the line, the scanner is past its start.
pub proof fn lemma_step(st: ScanState)
    requires
        state_ok(st),
    ensures
        state_ok(step(st).0),
        step(st).0.input == st.input,
        step(st).0.pos >= st.pos,
        step(st).1 is Some ==> 0 <= measure(step(st).0) < measure(st),
        step(st).1 is None ==> step(st).0 == st,
        step(st).0.starting ==> st.starting,
        step(st).1 is Some && st.pending is None && !st.remark && !is_blank(st.input[st.pos])
            ==> !step(st).0.starting,
    decreases st.input.len() - st.pos,
{
    let s = st.input;
    if st.pending is None && 0 <= st.pos < s.len() && !st.remark {
        let c = s[st.pos];
        if is_blank(c) {
            lemma_blank_end(s, st.pos);
            let e = blank_end(s, st.pos);
            if st.starting {
                lemma_step(ScanState { pos: e, ..st });
            }
        } else if is_digit(c) || c == '.' {
            lemma_number_end(s, st.pos, seq![], 0, false, false);
            let (e, tn) = number_from(s, st.pos, seq![], 0, false, false);
            if st.starting {
                if let Some(n) = line_number_of(tn) {
                    lemma_step(ScanState { pos: e, starting: false, line: n, ..st });
                }
            }
        } else if is_letter(c) {
            lemma_word_end(s, st.pos, seq![], false);
        } else if c == '"' {
            lemma_quote_end(s, st.pos + 1);
        } else {
            lemma_symbol_end(s, st.pos, seq![]);
        }
    }
}

/// All the tokens that pulls from `st` give until one gives none, and the
/// state after that.
pub open spec fn scan_all(st: ScanState) -> (Seq<Lexeme>, ScanState)
    decreases measure(st),
    when state_ok(st)
{
    let (st2, t) = step(st);
    match t {
        None => (seq![], st2),
        Some(t) => {
            proof {
                lemma_step(st);
            }
            let (rest, fin) = scan_all(st2);
            (seq![t] + rest, fin)
        },
    }
}

/// The clean-up at the end of a line: a trailing whitespace token is
/// dropped, and a trailing unknown token loses its trailing white space.
pub open spec fn tidy(ts: Seq<Lexeme>) -> Seq<Lexeme> {
    let ts = if ts.len() > 0 && ts.last() is Whitespace {
        ts.drop_last()
    } else {
        ts
    };
    if ts.len() > 0 {
        match ts.last() {
            Lexeme::Unknown(u) => ts.drop_last().push(Lexeme::Unknown(trim_end(u))),
            _ => ts,
        }
    } else {
        ts
    }
}

/// A scanned line: its line number (`DIRECT` where it has none) and its
/// tokens.
pub open spec fn scan_line(s: Seq<char>) -> (u16, Seq<Lexeme>) {
    let (ts, fin) = scan_all(initial(strip_eol(s)));
    (fin.line, tidy(ts))
}

/// A pull-based scanner over one line.
pub struct Lex {
    chars: Vec<char>,
    pos: usize,
    remark: bool,
    starting: bool,
    line_number: u16,
    next_token: Option<Token>,
}

impl View for Lex {
    type V = ScanState;

    closed spec fn view(&self) -> ScanState {
        ScanState {
            input: self.chars@,
            pos: self.pos as int,
            remark: self.remark,
            starting: self.starting,
            line: self.line_number,
            pending: view_opt(self.next_token),
        }
    }
}

impl Lex {
    /// The scanner is in a well-formed state.
    pub closed spec fn wf(&self) -> bool {
        state_ok(self@)
    }

    /// Reads a run of blanks.
    fn whitespace(&mut self) -> (t: Token)
        requires
            old(self).wf(),
            old(self).pos < old(self).chars.len(),
            is_blank(old(self).chars@[old(self).pos as int]),
        ensures
            final(self)@ == (ScanState { pos: blank_end(old(self)@.input, old(self)@.pos), ..old(self)@ }),
            t@ == Lexeme::Whitespace((blank_end(old(self)@.input, old(self)@.pos) - old(self)@.pos) as nat),
    {
        let ghost s = self.chars@;
        let ghost start = self.pos as int;
        let len = self.chars.len();
        let mut n: usize = 0;
        while self.pos < len && blank(self.chars[self.pos])
            invariant
                self.chars@ == s,
                s == old(self).chars@,
                start == old(self).pos,
                len == s.len(),
                start <= self.pos <= s.len(),
                n == self.pos - start,
                blank_end(s, self.pos as int) == blank_end(s, start),
                self.remark == old(self).remark,
                self.starting == old(self).starting,
                self.line_number == old(self).line_number,
                self.next_token == old(self).next_token,
            decreases s.len() - self.pos,
        {
            self.pos += 1;
            n += 1;
        }
        Token::Whitespace(n)
    }

    /// Reads a numeric literal.
    fn number(&mut self) -> (t: Token)
        requires
            old(self).wf(),
            old(self).pos < old(self).chars.len(),
        ensures
            final(self)@ == (ScanState {
                pos: number_from(old(self)@.input, old(self)@.pos, seq![], 0, false, false).0,
                ..old(self)@
            }),
            t@ == number_from(old(self)@.input, old(self)@.pos, seq![], 0, false, false).1,
    {
        let ghost s = self.chars@;
        let ghost start = self.pos as int;
        let mut text = String::new();
        let mut digits: usize = 0;
        let ghost mut all: nat = 0;
        let mut decimal = false;
        let mut exp = false;
        let len = self.chars.len();
        loop
            invariant
                self.chars@ == s,
                s == old(self).chars@,
                start == old(self).pos,
                len == s.len(),
                0 <= self.pos < s.len(),
                number_from(s, self.pos as int, text@, all, decimal, exp) == number_from(s, start, seq![], 0, false, false),
                digits == (if all > 8 { 8 } else { all }),
                self.remark == old(self).remark,
                self.starting == old(self).starting,
                self.line_number == old(self).line_number,
                self.next_token == old(self).next_token,
            decreases s.len() - self.pos,
        {
            let ghost i = self.pos as int;
            let c0 = self.chars[self.pos];
            let c = if c0 == 'e' {
                'E'
            } else if c0 == 'd' {
                'D'
            } else {
                c0
            };
            assert(c == exponent_upper(s[i]));
            self.pos += 1;
            push_char(&mut text, c);
            if !exp && digit(c) {
                proof {
                    all = all + 1;
                }
                if digits < 8 {
                    digits += 1;
                }
            }
            if c == '.' {
                decimal = true;
            }
            if c == 'D' {
                proof {
                    all = all + 8;
                }
                digits = 8;
            }
            if c == '!' {
                return Token::Literal(Literal::Single(text));
            }
            if c == '#' {
                return Token::Literal(Literal::Double(text));
            }
            if c == '%' {
                return Token::Literal(Literal::Integer(text));
            }
            if self.pos < self.chars.len() {
                let p = self.chars[self.pos];
                if c == 'E' || c == 'D' {
                    exp = true;
                }
                if ((c == 'E' || c == 'D') && (p == '+' || p == '-')) || digit(p) || (!decimal && p
                    == '.') || (!exp && p == 'E') || p == 'e' || p == 'D' || p == 'd' || p == '!'
                    || p == '#' || p == '%' {
                    continue;
                }
            }
            if digits > 7 {
                return Token::Literal(Literal::Double(text));
            }
            if !exp && !decimal {
                if small_value(text.as_str(), 32767).is_some() {
                    return Token::Literal(Literal::Integer(text));
                }
            }
            return Token::Literal(Literal::Single(text));
        }
    }
    /// Reads an alphabetic run: a reserved word or an identifier.
    fn alphabetic(&mut self) -> (t: Token)
        requires
            old(self).wf(),
            old(self).pos < old(self).chars.len(),
        ensures
            final(self)@ == (ScanState {
                pos: word_from(old(self)@.input, old(self)@.pos, seq![], false).0,
                ..old(self)@
            }),
            t@ == word_from(old(self)@.input, old(self)@.pos, seq![], false).1,
    {
        let ghost s = self.chars@;
        let ghost start = self.pos as int;
        let len = self.chars.len();
        let mut text = String::new();
        let mut seen_digit = false;
        loop
            invariant
                self.chars@ == s,
                s == old(self).chars@,
                start == old(self).pos,
                len == s.len(),
                0 <= self.pos < s.len(),
                word_from(s, self.pos as int, text@, seen_digit) == word_from(s, start, seq![], false),
                self.remark == old(self).remark,
                self.starting == old(self).starting,
                self.line_number == old(self).line_number,
                self.next_token == old(self).next_token,
            decreases s.len() - self.pos,
        {
            let c = to_upper(self.chars[self.pos]);
            self.pos += 1;
            push_char(&mut text, c);
            if digit(c) {
                seen_digit = true;
            }
            if let Some(t) = Token::from_string(text.as_str()) {
                return t;
            }
            if c == '$' {
                return Token::Ident(Ident::String(text));
            }
            if c == '!' {
                return Token::Ident(Ident::Single(text));
            }
            if c == '#' {
                return Token::Ident(Ident::Double(text));
            }
            if c == '%' {
                return Token::Ident(Ident::Integer(text));
            }
            if self.pos < len {
                let p = self.chars[self.pos];
                if (letter(p) && !seen_digit) || digit(p) || p == '$' || p == '!' || p == '#' || p
                    == '%' {
                    continue;
                }
            }
            return Token::Ident(Ident::Plain(text));
        }
    }

    /// Reads a run of other characters: a reserved symbol, or unknown text.
    fn symbol(&mut self) -> (t: Token)
        requires
            old(self).wf(),
            old(self).pos < old(self).chars.len(),
        ensures
            final(self)@ == (ScanState {
                pos: symbol_from(old(self)@.input, old(self)@.pos, seq![]).0,
                ..old(self)@
            }),
            t@ == symbol_from(old(self)@.input, old(self)@.pos, seq![]).1,
    {
        let ghost s = self.chars@;
        let ghost start = self.pos as int;
        let len = self.chars.len();
        let mut text = String::new();
        loop
            invariant
                self.chars@ == s,
                s == old(self).chars@,
                start == old(self).pos,
                len == s.len(),
                0 <= self.pos < s.len(),
                symbol_from(s, self.pos as int, text@) == symbol_from(s, start, seq![]),
                self.remark == old(self).remark,
                self.starting == old(self).starting,
                self.line_number == old(self).line_number,
                self.next_token == old(self).next_token,
            decreases s.len() - self.pos,
        {
            let c = self.chars[self.pos];
            self.pos += 1;
            push_char(&mut text, c);
            if let Some(t) = Token::from_string(text.as_str()) {
                return t;
            }
            if self.pos < len {
                let p = self.chars[self.pos];
                if !letter(p) && !digit(p) && !blank(p) {
                    continue;
                }
            }
            return Token::Unknown(text);
        }
    }

    /// Reads a string literal: the text up to the closing quote, or to the
    /// end of the line where there is none.
    fn string(&mut self) -> (t: Token)
        requires
            old(self).wf(),
            old(self).pos < old(self).chars.len(),
        ensures
            final(self)@ == (ScanState {
                pos: {
                    let q = quote_end(old(self)@.input, old(self)@.pos + 1);
                    if q < old(self)@.input.len() {
                        q + 1
                    } else {
                        q
                    }
                },
                ..old(self)@
            }),
            t@ == Lexeme::Literal(
                LiteralKind::String,
                old(self)@.input.subrange(
                    old(self)@.pos + 1,
                    quote_end(old(self)@.input, old(self)@.pos + 1),
                ),
            ),
    {
        let ghost s = self.chars@;
        let ghost start = self.pos as int;
        let len = self.chars.len();
        let mut text = String::new();
        self.pos += 1;
        while self.pos < len && self.chars[self.pos] != '"'
            invariant
                self.chars@ == s,
                s == old(self).chars@,
                start == old(self).pos,
                len == s.len(),
                start + 1 <= self.pos <= s.len(),
                quote_end(s, self.pos as int) == quote_end(s, start + 1),
                text@ == s.subrange(start + 1, self.pos as int),
                self.remark == old(self).remark,
                self.starting == old(self).starting,
                self.line_number == old(self).line_number,
                self.next_token == old(self).next_token,
            decreases s.len() - self.pos,
        {
            push_char(&mut text, self.chars[self.pos]);
            self.pos += 1;
            assert(text@ =~= s.subrange(start + 1, self.pos as int));
        }
        if self.pos < len {
            self.pos += 1;
        }
        Token::Literal(Literal::String(text))
    }

    /// Reads the rest of the line as one token.
    fn rest(&mut self) -> (t: Token)
        requires
            old(self).wf(),
        ensures
            final(self)@ == (ScanState { pos: old(self)@.input.len() as int, ..old(self)@ }),
            t@ == Lexeme::Unknown(old(self)@.input.subrange(old(self)@.pos, old(self)@.input.len() as int)),
    {
        let ghost s = self.chars@;
        let ghost start = self.pos as int;
        let len = self.chars.len();
        let mut text = String::new();
        while self.pos < len
            invariant
                self.chars@ == s,
                s == old(self).chars@,
                start == old(self).pos,
                len == s.len(),
                start <= self.pos <= s.len(),
                text@ == s.subrange(start, self.pos as int),
                self.remark == old(self).remark,
                self.starting == old(self).starting,
                self.line_number == old(self).line_number,
                self.next_token == old(self).next_token,
            decreases s.len() - self.pos,
        {
            push_char(&mut text, self.chars[self.pos]);
            self.pos += 1;
            assert(text@ =~= s.subrange(start, self.pos as int));
        }
        Token::Unknown(text)
    }
}

impl Lex {
    /// A scanner at the start of line `s`, without its end-of-line sequence.
    pub fn new(s: &str) -> (r: Lex)
        ensures
            r.wf(),
            r@ == initial(strip_eol(s@)),
    {
        let n = s.unicode_len();
        let mut t = n;
        if n >= 2 && s.get_char(n - 2) == '\r' && s.get_char(n - 1) == '\n' {
            t = n - 2;
        } else if n >= 1 && (s.get_char(n - 1) == '\r' || s.get_char(n - 1) == '\n') {
            t = n - 1;
        }
        assert(strip_eol(s@) =~= s@.subrange(0, t as int));
        let mut chars: Vec<char> = Vec::new();
        let mut i: usize = 0;
        while i < t
            invariant
                n == s@.len(),
                i <= t <= n,
                chars@ == s@.subrange(0, i as int),
            decreases t - i,
        {
            chars.push(s.get_char(i));
            i += 1;
            assert(chars@ =~= s@.subrange(0, i as int));
        }
        let r = Lex {
            chars,
            pos: 0,
            remark: false,
            starting: true,
            line_number: DIRECT,
            next_token: None,
        };
        assert(r@ == initial(strip_eol(s@)));
        r
    }

    /// The line number found so far (`DIRECT` while there is none).
    pub fn line_number(&self) -> (r: u16)
        ensures
            r == self@.line,
    {
        self.line_number
    }

    /// Whether no line number has been found: the line is in immediate mode.
    pub fn is_direct(&self) -> (r: bool)
        ensures
            r == (self@.line == DIRECT),
    {
        self.line_number == DIRECT
    }

    /// The next token of the line, if any is left.
    pub fn next(&mut self) -> (r: Option<Token>)
        requires
            old(self).wf(),
        ensures
            final(self).wf(),
            (final(self)@, view_opt(r)) == step(old(self)@),
        decreases old(self)@.input.len() - old(self)@.pos,
    {
        if self.next_token.is_some() {
            return self.next_token.take();
        }
        let len = self.chars.len();
        if self.pos >= len {
            return None;
        }
        if self.remark {
            return Some(self.rest());
        }
        let p = self.chars[self.pos];
        if blank(p) {
            proof {
                lemma_blank_end(self@.input, self@.pos);
            }
            let tw = self.whitespace();
            if self.starting {
                let tn = self.next();
                if self.line_number != DIRECT {
                    return tn;
                }
                self.next_token = tn;
            }
            return Some(tw);
        }
        if digit(p) || p == '.' {
            proof {
                lemma_number_end(self@.input, self@.pos, seq![], 0, false, false);
            }
            let tn = self.number();
            if self.starting {
                self.starting = false;
                if let Some(n) = line_number_in(&tn) {
                    self.line_number = n;
                    let nt = self.next();
                    if matches!(nt, Some(Token::Whitespace(_))) {
                        return nt;
                    }
                    self.next_token = nt;
                    return Some(Token::Whitespace(1));
                }
            }
            return Some(tn);
        }
        self.starting = false;
        if letter(p) {
            proof {
                lemma_word_end(self@.input, self@.pos, seq![], false);
            }
            let r = self.alphabetic();
            if matches!(r, Token::Word(Word::Rem)) {
                self.remark = true;
            }
            if self.pos < len && letter(self.chars[self.pos]) && self.line_number != DIRECT {
                self.next_token = Some(Token::Whitespace(1));
            }
            return Some(r);
        }
        if p == '"' {
            proof {
                lemma_quote_end(self@.input, self@.pos + 1);
            }
            return Some(self.string());
        }
        proof {
            lemma_symbol_end(self@.input, self@.pos, seq![]);
        }
        let r = self.symbol();
        if matches!(r, Token::Word(Word::Rem2)) {
            self.remark = true;
        }
        Some(r)
    }
}

/// The line number that a first numeric token stands for, if any.
fn line_number_in(t: &Token) -> (r: Option<u16>)
    ensures
        r == line_number_of(t@),
{
    match t {
        Token::Literal(l) => {
            let text = match l {
                Literal::Single(s) => s,
                Literal::Double(s) => s,
                Literal::Integer(s) => s,
                Literal::String(s) => s,
            };
            match small_value(text.as_str(), MAX_LINE as u32) {
                Some(v) => Some(v as u16),
                None => None,
            }
        },
        _ => None,
    }
}

/// Scans a whole line: its line number (`DIRECT` where it has none) and its
/// tokens, without a trailing whitespace token and with trailing white space
/// trimmed from a trailing unknown token.
pub fn lex(s: &str) -> (r: (u16, Vec<Token>))
    ensures
        r.0 == scan_line(s@).0,
        view_seq(r.1@) == scan_line(s@).1,
{
    let mut l = Lex::new(s);
    let ghost init = l@;
    let mut v: Vec<Token> = Vec::new();
    loop
        invariant
            l.wf(),
            state_ok(init),
            view_seq(v@) + scan_all(l@).0 == scan_all(init).0,
            scan_all(l@).1 == scan_all(init).1,
        ensures
            l.wf(),
            view_seq(v@) == scan_all(init).0,
            l@ == scan_all(init).1,
        decreases measure(l@),
    {
        let ghost before = l@;
        proof {
            lemma_step(before);
        }
        match l.next() {
            Some(t) => {
                let ghost tv = t@;
                let ghost v0 = v@;
                v.push(t);
                proof {
                    assert(view_seq(v@) =~= view_seq(v0).push(tv));
                    assert(view_seq(v0).push(tv) + scan_all(l@).0 =~= view_seq(v0) + scan_all(before).0);
                }
            },
            None => {
                assert(view_seq(v@) =~= view_seq(v@) + scan_all(before).0);
                break;
            },
        }
    }
    let n = l.line_number();
    let ghost raw = view_seq(v@);
    let len = v.len();
    if len > 0 && matches!(v[len - 1], Token::Whitespace(_)) {
        v.pop();
        assert(view_seq(v@) =~= raw.drop_last());
    }
    let ghost mid = view_seq(v@);
    let len = v.len();
    if len > 0 && matches!(v[len - 1], Token::Unknown(_)) {
        if let Some(Token::Unknown(u)) = v.pop() {
            v.push(Token::Unknown(trimmed_end(u.as_str())));
            assert(view_seq(v@) =~= mid.drop_last().push(Lexeme::Unknown(trim_end(u@))));
        }
    }
    (n, v)
}

} // verus!
