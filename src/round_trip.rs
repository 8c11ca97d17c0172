//! Reading a scanned line back: the display texts of its tokens give the
//! line again.

use crate::lex::{
    blank_end, exponent_upper, initial, measure, lemma_blank_end, lemma_number_end, lemma_quote_end,
    lemma_step, lemma_symbol_end, lemma_word_end, line_number_of, number_from, quote_end,
    scan_all, scan_line, state_ok, step, strip_eol, symbol_from, tidy, word_from, ScanState,
    DIRECT,
};
use crate::line::concat_display;
use crate::text::{
    all_digits, digits_value, is_blank, is_digit, is_letter, trim_end, unicode_space, upper,
};
use crate::token::{display, lookup, Lexeme, LiteralKind};
use vstd::prelude::*;

verus! {

/// A character as the scanner may give it back: ASCII letters in upper case,
/// a tab as a space.
pub open spec fn fold_char(c: char) -> char {
    if c == '\t' {
        ' '
    } else {
        upper(c)
    }
}

/// A text with each character folded.
pub open spec fn fold(s: Seq<char>) -> Seq<char> {
    s.map_values(|c: char| fold_char(c))
}

/// What a state has left to give: its held-back token's text, then the rest
/// of its line.
pub open spec fn pending_text(st: ScanState) -> Seq<char> {
    match st.pending {
        Some(t) => display(t),
        None => seq![],
    }
}

/// The unread rest of the line.
pub open spec fn rest(st: ScanState) -> Seq<char> {
    st.input.subrange(st.pos, st.input.len() as int)
}

proof fn lemma_fold_concat(a: Seq<char>, b: Seq<char>)
    ensures
        fold(a + b) == fold(a) + fold(b),
{
    assert(fold(a + b) =~= fold(a) + fold(b));
}

proof fn lemma_fold_split(s: Seq<char>, i: int, j: int, k: int)
    requires
        0 <= i <= j <= k <= s.len(),
    ensures
        fold(s.subrange(i, k)) == fold(s.subrange(i, j)) + fold(s.subrange(j, k)),
{
    assert(s.subrange(i, k) =~= s.subrange(i, j) + s.subrange(j, k));
    lemma_fold_concat(s.subrange(i, j), s.subrange(j, k));
}

/// The reserved token that a spelling looks up is displayed as that spelling.
pub proof fn lemma_lookup_spells(x: Seq<char>)
    ensures
        lookup(x) matches Some(t) ==> display(t) == x,
{
}

proof fn lemma_number_text(s: Seq<char>, i: int, text: Seq<char>, digits: nat, decimal: bool, exp: bool)
    requires
        0 <= i < s.len(),
    ensures
        fold(display(number_from(s, i, text, digits, decimal, exp).1)) == fold(text) + fold(
            s.subrange(i, number_from(s, i, text, digits, decimal, exp).0),
        ),
        number_from(s, i, text, digits, decimal, exp).1 matches Lexeme::Literal(k, _) && k
            != LiteralKind::String,
    decreases s.len() - i,
{
    lemma_number_end(s, i, text, digits, decimal, exp);
    let c = exponent_upper(s[i]);
    let text2 = text.push(c);
    let digits2 = (if !exp && is_digit(c) {
        digits + 1
    } else {
        digits
    }) + (if c == 'D' {
        8nat
    } else {
        0nat
    });
    let decimal2 = decimal || c == '.';
    let exp2 = exp || (i + 1 < s.len() && (c == 'E' || c == 'D'));
    assert(fold(text2) =~= fold(text) + fold(s.subrange(i, i + 1)));
    let e = number_from(s, i, text, digits, decimal, exp).0;
    if i + 1 < s.len() && number_from(s, i, text, digits, decimal, exp) == number_from(
        s,
        i + 1,
        text2,
        digits2,
        decimal2,
        exp2,
    ) && c != '!' && c != '#' && c != '%' {
        lemma_number_text(s, i + 1, text2, digits2, decimal2, exp2);
        lemma_fold_split(s, i, i + 1, e);
        assert(fold(text2) + fold(s.subrange(i + 1, e)) =~= fold(text) + fold(s.subrange(i, e)));
    }
}

proof fn lemma_word_text(s: Seq<char>, i: int, text: Seq<char>, digit: bool)
    requires
        0 <= i < s.len(),
    ensures
        fold(display(word_from(s, i, text, digit).1)) == fold(text) + fold(
            s.subrange(i, word_from(s, i, text, digit).0),
        ),
    decreases s.len() - i,
{
    lemma_word_end(s, i, text, digit);
    let c = upper(s[i]);
    let text2 = text.push(c);
    let digit2 = digit || is_digit(c);
    lemma_lookup_spells(text2);
    assert(fold(text2) =~= fold(text) + fold(s.subrange(i, i + 1)));
    let e = word_from(s, i, text, digit).0;
    if i + 1 < s.len() {
        lemma_word_end(s, i + 1, text2, digit2);
        if word_from(s, i, text, digit) == word_from(s, i + 1, text2, digit2) {
            lemma_word_text(s, i + 1, text2, digit2);
            lemma_fold_split(s, i, i + 1, e);
            assert(fold(text2) + fold(s.subrange(i + 1, e)) =~= fold(text) + fold(s.subrange(i, e)));
        }
    }
}

proof fn lemma_symbol_text(s: Seq<char>, i: int, text: Seq<char>)
    requires
        0 <= i < s.len(),
    ensures
        display(symbol_from(s, i, text).1) == text + s.subrange(i, symbol_from(s, i, text).0),
    decreases s.len() - i,
{
    lemma_symbol_end(s, i, text);
    let text2 = text.push(s[i]);
    lemma_lookup_spells(text2);
    assert(text2 =~= text + s.subrange(i, i + 1));
    let e = symbol_from(s, i, text).0;
    if i + 1 < s.len() {
        lemma_symbol_end(s, i + 1, text2);
        if symbol_from(s, i, text) == symbol_from(s, i + 1, text2) {
            lemma_symbol_text(s, i + 1, text2);
            assert(text2 + s.subrange(i + 1, e) =~= text + s.subrange(i, e));
        }
    }
}

/// Once found, the line number stays.
proof fn lemma_line_stays(st: ScanState)
    requires
        state_ok(st),
        st.line != DIRECT,
    ensures
        step(st).0.line == st.line,
{
}

proof fn lemma_scan_line_stays(st: ScanState)
    requires
        state_ok(st),
        st.line != DIRECT,
    ensures
        scan_all(st).1.line == st.line,
    decreases measure(st),
{
    lemma_step(st);
    lemma_line_stays(st);
    if step(st).1 is Some {
        lemma_scan_line_stays(step(st).0);
    }
}

/// One pull in a line without a line number: the token's text, then what
/// the new state has left, read back as the old state's rest; or, for a
/// string literal left open at the end of the line, that with its closing
/// quote.
proof fn lemma_step_text(st: ScanState)
    requires
        state_ok(st),
        st.pending is None,
        step(st).0.line == DIRECT,
        step(st).1 is Some,
    ensures
        ({
            let (st2, t) = step(st);
            ||| fold(display(t->0)) + fold(pending_text(st2)) + fold(rest(st2)) == fold(rest(st))
            ||| (fold(display(t->0)) + fold(pending_text(st2)) == fold(rest(st)).push('"') && rest(
                st2,
            ).len() == 0)
        }),
        st.remark || !is_blank(st.input[st.pos]) || !st.starting ==> step(st).0.pending is None,
    decreases st.input.len() - st.pos,
{
    let s = st.input;
    let len = s.len() as int;
    let (st2, t) = step(st);
    assert(0 <= st.pos < len);
    if st.remark {
        assert(rest(st2) =~= seq![]);
        assert(fold(display(t->0)) + fold(pending_text(st2)) + fold(rest(st2)) =~= fold(rest(st)));
    } else {
        let c = s[st.pos];
        if is_blank(c) {
            lemma_blank_end(s, st.pos);
            let e = blank_end(s, st.pos);
            let st1 = ScanState { pos: e, ..st };
            lemma_fold_split(s, st.pos, e, len);
            assert(fold(display(Lexeme::Whitespace((e - st.pos) as nat))) =~= fold(s.subrange(st.pos, e)));
            if st.starting {
                lemma_step(st1);
                let (st3, tn) = step(st1);
                if st3.line != DIRECT {
                    assert(false);
                } else {
                    match tn {
                        None => {
                            assert(st3 == st1);
                            assert(rest(st1) =~= seq![]);
                            assert(fold(display(t->0)) + fold(pending_text(st2)) + fold(rest(st2)) =~= fold(rest(st)));
                        },
                        Some(u) => {
                            lemma_step_text(st1);
                            assert(st3.pending is None);
                            if fold(display(u)) + fold(pending_text(st3)) + fold(rest(st3)) == fold(rest(st1)) {
                                assert(fold(display(t->0)) + fold(pending_text(st2)) + fold(rest(st2)) =~= fold(rest(st)));
                            } else {
                                assert(fold(display(t->0)) + fold(pending_text(st2)) =~= fold(rest(st)).push('"'));
                            }
                        },
                    }
                }
            } else {
                assert(fold(display(t->0)) + fold(pending_text(st2)) + fold(rest(st2)) =~= fold(rest(st)));
            }
        } else if is_digit(c) || c == '.' {
            lemma_number_text(s, st.pos, seq![], 0, false, false);
            lemma_number_end(s, st.pos, seq![], 0, false, false);
            let (e, tn) = number_from(s, st.pos, seq![], 0, false, false);
            if st.starting {
                if let Some(n) = line_number_of(tn) {
                    lemma_line_stays(ScanState { pos: e, starting: false, line: n, ..st });
                    assert(false);
                }
            }
            lemma_fold_split(s, st.pos, e, len);
            assert(fold(seq![]) =~= seq![]);
            assert(fold(display(t->0)) + fold(pending_text(st2)) + fold(rest(st2)) =~= fold(rest(st)));
        } else if is_letter(c) {
            lemma_word_text(s, st.pos, seq![], false);
            lemma_word_end(s, st.pos, seq![], false);
            let (e, tn) = word_from(s, st.pos, seq![], false);
            lemma_fold_split(s, st.pos, e, len);
            assert(fold(seq![]) =~= seq![]);
            assert(fold(display(t->0)) + fold(pending_text(st2)) + fold(rest(st2)) =~= fold(rest(st)));
        } else if c == '"' {
            lemma_quote_end(s, st.pos + 1);
            let q = quote_end(s, st.pos + 1);
            let content = s.subrange(st.pos + 1, q);
            if q < len {
                assert(display(t->0) =~= s.subrange(st.pos, q + 1));
                lemma_fold_split(s, st.pos, q + 1, len);
                assert(fold(display(t->0)) + fold(pending_text(st2)) + fold(rest(st2)) =~= fold(rest(st)));
            } else {
                assert(display(t->0) =~= s.subrange(st.pos, len).push('"'));
                assert(rest(st2) =~= seq![]);
                assert(fold(display(t->0)) + fold(pending_text(st2)) =~= fold(rest(st)).push('"'));
            }
        } else {
            lemma_symbol_text(s, st.pos, seq![]);
            lemma_symbol_end(s, st.pos, seq![]);
            let (e, tn) = symbol_from(s, st.pos, seq![]);
            lemma_fold_split(s, st.pos, e, len);
            assert(seq![] + s.subrange(st.pos, e) =~= s.subrange(st.pos, e));
            assert(fold(display(t->0)) + fold(pending_text(st2)) + fold(rest(st2)) =~= fold(rest(st)));
        }
    }
}

/// The text of two token sequences one after the other.
pub proof fn lemma_concat_display(a: Seq<Lexeme>, r: Seq<Lexeme>)
    ensures
        concat_display(a + r) == concat_display(a) + concat_display(r),
    decreases r.len(),
{
    if r.len() == 0 {
        assert(a + r =~= a);
        assert(concat_display(a) + concat_display(r) =~= concat_display(a));
    } else {
        assert((a + r).drop_last() =~= a + r.drop_last());
        lemma_concat_display(a, r.drop_last());
        assert(concat_display(a + r) =~= concat_display(a) + concat_display(r));
    }
}

proof fn lemma_scan_text(st: ScanState)
    requires
        state_ok(st),
        scan_all(st).1.line == DIRECT,
    ensures
        ({
            let got = fold(concat_display(scan_all(st).0));
            let want = fold(pending_text(st)) + fold(rest(st));
            ||| got == want
            ||| (rest(st).len() > 0 && got == want.push('"'))
        }),
    decreases measure(st),
{
    lemma_step(st);
    let (st2, t) = step(st);
    match t {
        None => {
            assert(rest(st) =~= seq![]);
            assert(concat_display(seq![]) =~= seq![]);
            assert(fold(seq![]) =~= seq![]);
        },
        Some(u) => {
            if st2.line != DIRECT {
                lemma_scan_line_stays(st2);
                assert(false);
            }
            lemma_scan_text(st2);
            let toks = scan_all(st2).0;
            assert(scan_all(st).0 == seq![u] + toks);
            lemma_concat_display(seq![u], toks);
            assert(concat_display(seq![u]) =~= display(u)) by {
                assert(seq![u].drop_last() =~= Seq::<Lexeme>::empty());
                assert(concat_display(Seq::<Lexeme>::empty()) == Seq::<char>::empty());
                assert(seq![u].last() == u);
                assert(Seq::<char>::empty() + display(u) =~= display(u));
            }
            lemma_fold_concat(display(u), concat_display(toks));
            if st.pending is Some {
                assert(rest(st2) == rest(st));
                assert(fold(pending_text(st2)) =~= seq![]);
            } else {
                lemma_step_text(st);
                if rest(st2).len() > 0 {
                    assert(rest(st).len() > 0) by {
                        assert(st2.pos >= st.pos);
                    }
                }
                assert(fold(seq![]) =~= Seq::<char>::empty());
            }
            let got = fold(concat_display(scan_all(st).0));
            let want = fold(pending_text(st)) + fold(rest(st));
            let a = fold(display(u));
            let b = fold(pending_text(st2)) + fold(rest(st2));
            assert((a + b).push('"') =~= a + b.push('"'));
        },
    }
}

/// Trimming keeps a prefix and drops only white space.
pub proof fn lemma_trim_end(u: Seq<char>)
    ensures
        trim_end(u).len() <= u.len(),
        trim_end(u) == u.subrange(0, trim_end(u).len() as int),
        forall|j: int| trim_end(u).len() <= j < u.len() ==> unicode_space(#[trigger] u[j]),
    decreases u.len(),
{
    if u.len() > 0 && unicode_space(u.last()) {
        lemma_trim_end(u.drop_last());
        assert(u.drop_last().subrange(0, trim_end(u).len() as int) =~= u.subrange(0, trim_end(u).len() as int));
        assert forall|j: int| trim_end(u).len() <= j < u.len() implies unicode_space(#[trigger] u[j]) by {
            if j < u.len() - 1 {
                assert(u[j] == u.drop_last()[j]);
            }
        }
    } else {
        assert(u.subrange(0, u.len() as int) =~= u);
    }
}

/// The clean-up at the end of a line only drops trailing white space from
/// the line's text.
pub proof fn lemma_tidy_text(ts: Seq<Lexeme>)
    ensures
        ({
            let kept = concat_display(tidy(ts));
            let full = concat_display(ts);
            &&& kept.len() <= full.len()
            &&& kept == full.subrange(0, kept.len() as int)
            &&& forall|j: int| kept.len() <= j < full.len() ==> unicode_space(#[trigger] full[j])
        }),
{
    let ts1 = if ts.len() > 0 && ts.last() is Whitespace {
        ts.drop_last()
    } else {
        ts
    };
    let full = concat_display(ts);
    let mid = concat_display(ts1);
    assert(mid.len() <= full.len() && mid == full.subrange(0, mid.len() as int) && forall|j: int|
        mid.len() <= j < full.len() ==> unicode_space(#[trigger] full[j])) by {
        if ts.len() > 0 && ts.last() is Whitespace {
            assert(full =~= mid + display(ts.last()));
        } else {
            assert(full.subrange(0, full.len() as int) =~= full);
        }
    }
    if ts1.len() > 0 {
        if let Lexeme::Unknown(u) = ts1.last() {
            lemma_trim_end(u);
            let t2 = ts1.drop_last().push(Lexeme::Unknown(trim_end(u)));
            assert(t2.drop_last() =~= ts1.drop_last());
            let kept = concat_display(t2);
            assert(kept =~= concat_display(ts1.drop_last()) + trim_end(u));
            assert(mid =~= concat_display(ts1.drop_last()) + u);
            assert(kept =~= full.subrange(0, kept.len() as int));
            assert forall|j: int| kept.len() <= j < full.len() implies unicode_space(#[trigger] full[j]) by {
                if j < mid.len() {
                    assert(full[j] == mid[j]);
                    assert(mid[j] == u[j - concat_display(ts1.drop_last()).len()]);
                }
            }
        }
    }
}

/// Reading a line back. For a line without a line number, the display
/// texts of the tokens that the scan gives, one after another, are the line
/// without its end-of-line sequence, up to the case of ASCII letters and
/// with tabs read as spaces; where the line ends inside a string literal,
/// its closing quote is added. The clean-up at the end of the line then
/// only drops trailing white space.
pub proof fn lemma_round_trip(s: Seq<char>)
    requires
        scan_line(s).0 == DIRECT,
    ensures
        ({
            let got = fold(concat_display(scan_all(initial(strip_eol(s))).0));
            got == fold(strip_eol(s)) || got == fold(strip_eol(s)).push('"')
        }),
        ({
            let kept = concat_display(scan_line(s).1);
            let full = concat_display(scan_all(initial(strip_eol(s))).0);
            &&& kept.len() <= full.len()
            &&& kept == full.subrange(0, kept.len() as int)
            &&& forall|j: int| kept.len() <= j < full.len() ==> unicode_space(#[trigger] full[j])
        }),
{
    let st = initial(strip_eol(s));
    lemma_scan_text(st);
    assert(rest(st) =~= strip_eol(s));
    assert(fold(pending_text(st)) =~= seq![]);
    assert(fold(pending_text(st)) + fold(rest(st)) =~= fold(strip_eol(s)));
    lemma_tidy_text(scan_all(st).0);
}

/// Tokens read back as `src`: each token's folded text comes next in the
/// folded source, except single blanks that the scanner inserted; a string
/// literal left open at the end gets its closing quote.
pub open spec fn reads_back(ts: Seq<Lexeme>, src: Seq<char>) -> bool
    decreases ts.len(),
{
    if ts.len() == 0 {
        src.len() == 0
    } else {
        let d = fold(display(ts[0]));
        ||| (d.len() <= src.len() && d == fold(src).subrange(0, d.len() as int) && reads_back(
            ts.drop_first(),
            src.subrange(d.len() as int, src.len() as int),
        ))
        ||| (ts[0] == Lexeme::Whitespace(1) && reads_back(ts.drop_first(), src))
        ||| (ts.len() == 1 && d == fold(src).push('"'))
    }
}

/// One pull in a numbered line, past the line number: the token's text, then
/// the rest of the line, read back as the old rest; a blank may be held back
/// as inserted; a string literal left open at the end gets its closing quote.
proof fn lemma_numbered_step_text(st: ScanState)
    requires
        state_ok(st),
        st.pending is None,
        !st.starting,
        st.line != DIRECT,
        step(st).1 is Some,
    ensures
        ({
            let (st2, t) = step(st);
            ||| (fold(display(t->0)) + fold(rest(st2)) == fold(rest(st)) && (st2.pending is None
                || st2.pending == Some(Lexeme::Whitespace(1))))
            ||| (fold(display(t->0)) == fold(rest(st)).push('"') && rest(st2).len() == 0
                && st2.pending is None)
        }),
        step(st).0.line == st.line,
        !step(st).0.starting,
{
    let s = st.input;
    let len = s.len() as int;
    let (st2, t) = step(st);
    assert(0 <= st.pos < len);
    if st.remark {
        assert(rest(st2) =~= seq![]);
        assert(fold(display(t->0)) + fold(rest(st2)) =~= fold(rest(st)));
    } else {
        let c = s[st.pos];
        if is_blank(c) {
            lemma_blank_end(s, st.pos);
            let e = blank_end(s, st.pos);
            lemma_fold_split(s, st.pos, e, len);
            assert(fold(display(Lexeme::Whitespace((e - st.pos) as nat))) =~= fold(s.subrange(st.pos, e)));
            assert(fold(display(t->0)) + fold(rest(st2)) =~= fold(rest(st)));
        } else if is_digit(c) || c == '.' {
            lemma_number_text(s, st.pos, seq![], 0, false, false);
            lemma_number_end(s, st.pos, seq![], 0, false, false);
            let (e, tn) = number_from(s, st.pos, seq![], 0, false, false);
            lemma_fold_split(s, st.pos, e, len);
            assert(fold(seq![]) =~= seq![]);
            assert(fold(display(t->0)) + fold(rest(st2)) =~= fold(rest(st)));
        } else if is_letter(c) {
            lemma_word_text(s, st.pos, seq![], false);
            lemma_word_end(s, st.pos, seq![], false);
            let (e, tn) = word_from(s, st.pos, seq![], false);
            lemma_fold_split(s, st.pos, e, len);
            assert(fold(seq![]) =~= seq![]);
            assert(fold(display(t->0)) + fold(rest(st2)) =~= fold(rest(st)));
        } else if c == '"' {
            lemma_quote_end(s, st.pos + 1);
            let q = quote_end(s, st.pos + 1);
            if q < len {
                assert(display(t->0) =~= s.subrange(st.pos, q + 1));
                lemma_fold_split(s, st.pos, q + 1, len);
                assert(fold(display(t->0)) + fold(rest(st2)) =~= fold(rest(st)));
            } else {
                assert(display(t->0) =~= s.subrange(st.pos, len).push('"'));
                assert(rest(st2) =~= seq![]);
                assert(fold(display(t->0)) =~= fold(rest(st)).push('"'));
            }
        } else {
            lemma_symbol_text(s, st.pos, seq![]);
            lemma_symbol_end(s, st.pos, seq![]);
            let (e, tn) = symbol_from(s, st.pos, seq![]);
            lemma_fold_split(s, st.pos, e, len);
            assert(seq![] + s.subrange(st.pos, e) =~= s.subrange(st.pos, e));
            assert(fold(display(t->0)) + fold(rest(st2)) =~= fold(rest(st)));
        }
    }
}

/// A token whose folded text starts the folded source, followed by tokens
/// that read back as the rest of it, reads back as the source.
proof fn lemma_reads_back_cons(t: Lexeme, ts: Seq<Lexeme>, src: Seq<char>, tail: Seq<char>)
    requires
        fold(display(t)) + fold(tail) == fold(src),
        tail.len() <= src.len(),
        tail == src.subrange(src.len() - tail.len(), src.len() as int),
        reads_back(ts, tail),
    ensures
        reads_back(seq![t] + ts, src),
{
    let all = seq![t] + ts;
    let d = fold(display(t));
    assert(fold(tail).len() == tail.len());
    assert(fold(src).len() == src.len());
    assert(d.len() + tail.len() == src.len());
    assert(all[0] == t);
    assert(all.drop_first() =~= ts);
    assert(fold(src).subrange(0, d.len() as int) =~= d);
    assert(src.subrange(d.len() as int, src.len() as int) =~= tail);
    assert(reads_back(all.drop_first(), src.subrange(d.len() as int, src.len() as int)));
}

/// The scan of a numbered line past its line number reads back as the rest
/// of the line.
proof fn lemma_numbered_scan(st: ScanState)
    requires
        state_ok(st),
        !st.starting,
        st.line != DIRECT,
        st.pending is None || st.pending == Some(Lexeme::Whitespace(1)),
    ensures
        reads_back(scan_all(st).0, rest(st)),
    decreases measure(st),
{
    lemma_step(st);
    let (st2, t) = step(st);
    match t {
        None => {
            assert(rest(st) =~= seq![]);
        },
        Some(u) => {
            let toks = scan_all(st2).0;
            assert(scan_all(st).0 == seq![u] + toks);
            let all = seq![u] + toks;
            assert(all[0] == u);
            assert(all.drop_first() =~= toks);
            if st.pending is Some {
                lemma_numbered_scan(st2);
                assert(rest(st2) == rest(st));
            } else {
                lemma_numbered_step_text(st);
                if fold(display(u)) + fold(rest(st2)) == fold(rest(st)) && (st2.pending is None
                    || st2.pending == Some(Lexeme::Whitespace(1))) {
                    lemma_numbered_scan(st2);
                    assert(rest(st2) =~= rest(st).subrange(
                        rest(st).len() - rest(st2).len(),
                        rest(st).len() as int,
                    ));
                    lemma_reads_back_cons(u, toks, rest(st), rest(st2));
                } else {
                    assert(st2.pending is None);
                    lemma_step(st2);
                    assert(step(st2).1 is None);
                    assert(toks =~= seq![]);
                    assert(all.len() == 1);
                }
            }
        },
    }
}

/// Past the first token, a line without a line number never gets one.
proof fn lemma_direct_stays(st: ScanState)
    requires
        state_ok(st),
        !st.starting,
        st.line == DIRECT,
    ensures
        scan_all(st).1.line == DIRECT,
    decreases measure(st),
{
    lemma_step(st);
    if step(st).1 is Some {
        lemma_direct_stays(step(st).0);
    }
}

/// A digit string read back up to folding is that digit string.
proof fn lemma_fold_digits(text: Seq<char>, src: Seq<char>)
    requires
        all_digits(text),
        fold(text) == fold(src),
    ensures
        src == text,
{
    assert(fold(text).len() == text.len());
    assert(fold(src).len() == src.len());
    assert forall|j: int| 0 <= j < src.len() implies src[j] == text[j] by {
        assert(fold(text)[j] == fold(src)[j]);
        assert(fold(text)[j] == fold_char(text[j]));
        assert(fold(src)[j] == fold_char(src[j]));
        assert(is_digit(text[j]));
        let x = src[j];
        if 'a' <= x <= 'z' {
            assert((((x as u32) - 32) as char) as u32 == (x as u32) - 32);
        }
    }
    assert(src =~= text);
}

/// A first pull that reads no line number leaves the line without one.
proof fn lemma_first_pull_direct(st: ScanState)
    requires
        state_ok(st),
        step(st).1 is Some,
        !step(st).0.starting,
        step(st).0.line == DIRECT,
    ensures
        scan_all(st).1.line == DIRECT,
{
    lemma_step(st);
    lemma_direct_stays(step(st).0);
}

/// In a numbered line, the first pull reads the line number: blanks, then
/// a numeric literal that is a line number.
proof fn lemma_numbered_start(line: Seq<char>)
    requires
        scan_all(initial(line)).1.line != DIRECT,
    ensures
        ({
            let b = blank_end(line, 0);
            let (e, tn) = number_from(line, b, seq![], 0, false, false);
            &&& 0 <= b < e <= line.len()
            &&& forall|j: int| 0 <= j < b ==> is_blank(#[trigger] line[j])
            &&& is_digit(line[b]) || line[b] == '.'
            &&& line_number_of(tn) is Some
            &&& step(initial(line)) == step(ScanState { pos: b, ..initial(line) })
        }),
{
    let len = line.len() as int;
    let st0 = initial(line);
    lemma_step(st0);
    lemma_blank_end(line, 0);
    let b = blank_end(line, 0);
    let sn = ScanState { pos: b, ..st0 };
    if len == 0 {
        assert(step(st0).1 is None);
        assert(false);
    }
    if b > 0 {
        lemma_step(sn);
        let (st2, tn2) = step(sn);
        if st2.line == DIRECT {
            let next = ScanState { pending: tn2, ..st2 };
            assert(step(st0) == (next, Some(Lexeme::Whitespace(b as nat))));
            lemma_step(next);
            if tn2 is None {
                assert(st2 == sn);
                assert(b == len);
                assert(step(next).1 is None);
                assert(scan_all(st0).1 == scan_all(next).1);
                assert(false);
            } else {
                assert(b < len) by {
                    if b >= len {
                        assert(step(sn).1 is None);
                    }
                }
                assert(!is_blank(line[b]));
                assert(!st2.starting);
                lemma_direct_stays(next);
                assert(scan_all(st0).1 == scan_all(next).1);
                assert(false);
            }
        }
    }
    assert(step(st0) == step(sn));
    assert(b < len) by {
        if b >= len {
            lemma_step(sn);
            assert(step(sn).1 is None);
            if b == 0 {
                assert(false);
            }
        }
    }
    let cn = line[b];
    lemma_step(sn);
    if !(is_digit(cn) || cn == '.') {
        lemma_first_pull_direct(st0);
        assert(false);
    }
    lemma_number_end(line, b, seq![], 0, false, false);
    let (e, tn) = number_from(line, b, seq![], 0, false, false);
    if line_number_of(tn) is None {
        lemma_first_pull_direct(st0);
        assert(false);
    }
}

/// Reading a numbered line back. A line with a line number is blanks, then
/// the digits of its line number, then a rest; the tokens that the scan
/// gives read back as that rest, up to the case of ASCII letters, tabs read
/// as spaces and single blanks inserted, with the closing quote of a string
/// literal left open at the end added. The clean-up at the end of the line
/// then only drops trailing white space.
#[verifier::rlimit(50)]
pub proof fn lemma_round_trip_numbered(s: Seq<char>)
    requires
        scan_line(s).0 != DIRECT,
    ensures
        ({
            let line = strip_eol(s);
            let b = blank_end(line, 0);
            let e = number_from(line, b, seq![], 0, false, false).0;
            &&& 0 <= b < e <= line.len()
            &&& forall|j: int| 0 <= j < b ==> is_blank(#[trigger] line[j])
            &&& all_digits(line.subrange(b, e))
            &&& digits_value(line.subrange(b, e)) == scan_line(s).0 as nat
            &&& reads_back(scan_all(initial(line)).0, line.subrange(e, line.len() as int))
        }),
        ({
            let kept = concat_display(scan_line(s).1);
            let full = concat_display(scan_all(initial(strip_eol(s))).0);
            &&& kept.len() <= full.len()
            &&& kept == full.subrange(0, kept.len() as int)
            &&& forall|j: int| kept.len() <= j < full.len() ==> unicode_space(#[trigger] full[j])
        }),
{
    let line = strip_eol(s);
    let len = line.len() as int;
    let st0 = initial(line);
    lemma_tidy_text(scan_all(st0).0);
    lemma_numbered_start(line);
    let b = blank_end(line, 0);
    let sn = ScanState { pos: b, ..st0 };
    lemma_number_end(line, b, seq![], 0, false, false);
    lemma_number_text(line, b, seq![], 0, false, false);
    let (en, tn) = number_from(line, b, seq![], 0, false, false);
    let n = line_number_of(tn)->0;
    let text = tn->Literal_1;
    assert(fold(Seq::<char>::empty()) =~= Seq::<char>::empty());
    assert(fold(Seq::<char>::empty()) + fold(line.subrange(b, en)) =~= fold(line.subrange(b, en)));
    lemma_fold_digits(text, line.subrange(b, en));
    let after = ScanState { pos: en, starting: false, line: n, ..sn };
    lemma_step(after);
    lemma_line_stays(after);
    let (st3, nt) = step(after);
    let first = step(st0);
    assert(first.0.line == n);
    lemma_step(st0);
    lemma_scan_line_stays(first.0);
    assert(scan_all(st0).1 == scan_all(first.0).1);
    let tail = line.subrange(en, len);
    assert(rest(after) =~= tail);
    lemma_numbered_tail(after);
    assert(forall|j: int| 0 <= j < b ==> is_blank(#[trigger] line[j]));
}

/// After the line number, the first pull and the rest of the scan read back
/// as the rest of the line.
proof fn lemma_numbered_tail(after: ScanState)
    requires
        state_ok(after),
        !after.starting,
        after.line != DIRECT,
        after.pending is None,
    ensures
        ({
            let (st3, nt) = step(after);
            let r = if nt matches Some(Lexeme::Whitespace(_)) {
                (st3, nt)
            } else {
                (ScanState { pending: nt, ..st3 }, Some(Lexeme::Whitespace(1)))
            };
            reads_back(seq![r.1->0] + scan_all(r.0).0, rest(after))
        }),
{
    lemma_step(after);
    let (st3, nt) = step(after);
    let tail = rest(after);
    let r = if nt matches Some(Lexeme::Whitespace(_)) {
        (st3, nt)
    } else {
        (ScanState { pending: nt, ..st3 }, Some(Lexeme::Whitespace(1)))
    };
    let raw = seq![r.1->0] + scan_all(r.0).0;
    lemma_step(r.0);
    match nt {
        None => {
            assert(tail =~= seq![]);
            assert(r.0 == ScanState { pending: None, ..after });
            assert(scan_all(r.0).0 =~= seq![]);
            assert(raw[0] == Lexeme::Whitespace(1));
            assert(raw.drop_first() =~= Seq::<Lexeme>::empty());
            assert(reads_back(Seq::<Lexeme>::empty(), tail));
            assert(reads_back(raw, tail));
        },
        Some(u) => {
            lemma_numbered_step_text(after);
            let st3n = ScanState { pending: None, ..st3 };
            let exact = fold(display(u)) + fold(rest(st3)) == fold(tail) && (st3.pending is None
                || st3.pending == Some(Lexeme::Whitespace(1)));
            if nt matches Some(Lexeme::Whitespace(_)) {
                if !exact {
                    let d = fold(display(u));
                    assert(d.len() > 0);
                    assert(display(u)[d.len() - 1] == ' ');
                    assert(d[d.len() - 1] == fold_char(' '));
                    assert(d.last() == '"');
                    assert(false);
                }
                lemma_numbered_scan(st3);
                assert(rest(st3) =~= tail.subrange(tail.len() - rest(st3).len(), tail.len() as int));
                lemma_reads_back_cons(u, scan_all(st3).0, tail, rest(st3));
                assert(reads_back(raw, tail));
            } else {
                lemma_step(st3n);
                assert(scan_all(r.0).0 == seq![u] + scan_all(st3n).0);
                if exact {
                    lemma_numbered_scan(st3n);
                    assert(rest(st3) =~= tail.subrange(tail.len() - rest(st3).len(), tail.len() as int));
                    lemma_reads_back_cons(u, scan_all(st3n).0, tail, rest(st3));
                } else {
                    assert(step(st3n).1 is None);
                    assert(scan_all(st3n).0 =~= seq![]);
                    assert((seq![u] + scan_all(st3n).0) =~= seq![u]);
                    assert(seq![u][0] == u);
                    assert(reads_back(seq![u], tail));
                }
                assert(raw[0] == Lexeme::Whitespace(1));
                assert(raw.drop_first() =~= scan_all(r.0).0);
                assert(reads_back(raw, tail));
            }
        },
    }
}

} // verus!
