//! Whitespace is transparent: laws about scanning an input with whitespace
//! added around or between its tokens.
use vstd::prelude::*;
use crate::rules::{
    char_at_is, digits_end, is_white_space, lemma_digits_end, lemma_step_bounds, lemma_string_end,
    lemma_word_end, operator_at, scan_from, step_at, string_end, word_end, ScanEnd, Span, Step,
};
use crate::token::TokenType;

verus! {

/// The model tokens with every offset moved by `d`.
pub open spec fn shift_spans(m: Seq<Span>, d: int) -> Seq<Span> {
    m.map_values(|x: Span| (x.0, x.1 + d, x.2 + d))
}

/// How a scan ends, with the offset of a failing character moved by `d`.
pub open spec fn shift_end(e: ScanEnd, d: int) -> ScanEnd {
    match e {
        ScanEnd::NoRule(p) => ScanEnd::NoRule(p + d),
        ScanEnd::Complete => ScanEnd::Complete,
        ScanEnd::Exhausted => ScanEnd::Exhausted,
    }
}

pub open spec fn shift_scan(r: (Seq<Span>, ScanEnd), d: int) -> (Seq<Span>, ScanEnd) {
    (shift_spans(r.0, d), shift_end(r.1, d))
}

pub open spec fn all_white_space(w: Seq<char>) -> bool {
    forall|k: int| 0 <= k < w.len() ==> is_white_space(#[trigger] w[k])
}

proof fn lemma_word_end_shift(p: Seq<char>, s: Seq<char>, j: int)
    requires
        0 <= j <= s.len(),
    ensures
        word_end(p + s, p.len() + j) == p.len() + word_end(s, j),
    decreases s.len() - j,
{
    if j < s.len() {
        assert((p + s)[p.len() + j] == s[j]);
        lemma_word_end_shift(p, s, j + 1);
    }
}

proof fn lemma_digits_end_shift(p: Seq<char>, s: Seq<char>, j: int)
    requires
        0 <= j <= s.len(),
    ensures
        digits_end(p + s, p.len() + j) == p.len() + digits_end(s, j),
    decreases s.len() - j,
{
    if j < s.len() {
        assert((p + s)[p.len() + j] == s[j]);
        lemma_digits_end_shift(p, s, j + 1);
    }
}

proof fn lemma_string_end_shift(p: Seq<char>, s: Seq<char>, j: int)
    requires
        0 <= j <= s.len(),
    ensures
        string_end(p + s, p.len() + j) == (match string_end(s, j) {
            Some(e) => Some(e + p.len()),
            None => None,
        }),
    decreases s.len() - j,
{
    if j < s.len() {
        assert((p + s)[p.len() + j] == s[j]);
        if s[j] == '\\' {
            if j + 1 < s.len() {
                lemma_string_end_shift(p, s, j + 2);
            }
        } else if s[j] != '"' {
            lemma_string_end_shift(p, s, j + 1);
        }
    }
}

proof fn lemma_step_shift(p: Seq<char>, s: Seq<char>, i: int)
    requires
        0 <= i < s.len(),
    ensures
        step_at(p + s, p.len() + i) == (match step_at(s, i) {
            Step::Matched(t, e) => Step::Matched(t, e + p.len()),
            Step::NoRule => Step::NoRule,
            Step::Exhausted => Step::Exhausted,
        }),
{
    let t = p + s;
    let n = p.len() as int;
    assert(t[n + i] == s[i]);
    if i + 1 < s.len() {
        assert(t[n + i + 1] == s[i + 1]);
    }
    assert(char_at_is(t, n + i + 1, '=') == char_at_is(s, i + 1, '='));
    assert(char_at_is(t, n + i + 1, '>') == char_at_is(s, i + 1, '>'));
    assert(operator_at(t, n + i) == (operator_at(s, i).0, operator_at(s, i).1 + n));
    lemma_word_end_shift(p, s, i + 1);
    lemma_word_end(s, i + 1);
    assert(t.subrange(n + i, word_end(t, n + i + 1)) =~= s.subrange(i, word_end(s, i + 1)));
    lemma_digits_end_shift(p, s, i + 1);
    lemma_string_end_shift(p, s, i + 1);
}

/// Scanning never looks behind the cursor: a scan of `p + s` from inside
/// `s` matches the scan of `s` alone, with offsets moved by `p.len()`.
pub proof fn lemma_scan_shift(p: Seq<char>, s: Seq<char>, i: int)
    requires
        0 <= i <= s.len(),
    ensures
        scan_from(p + s, p.len() + i) == shift_scan(scan_from(s, i), p.len() as int),
    decreases s.len() - i,
{
    let t = p + s;
    let n = p.len() as int;
    if i == s.len() {
        assert(shift_spans(Seq::empty(), n) =~= Seq::<Span>::empty());
    } else {
        assert(t[n + i] == s[i]);
        if is_white_space(s[i]) {
            lemma_scan_shift(p, s, i + 1);
        } else {
            lemma_step_shift(p, s, i);
            lemma_step_bounds(s, i);
            match step_at(s, i) {
                Step::Matched(ty, e) => {
                    lemma_scan_shift(p, s, e);
                    let rest = scan_from(s, e);
                    assert(shift_spans(seq![(ty, i, e)] + rest.0, n) =~= seq![(ty, i + n, e + n)]
                        + shift_spans(rest.0, n));
                },
                _ => {
                    assert(shift_spans(Seq::empty(), n) =~= Seq::<Span>::empty());
                },
            }
        }
    }
}

proof fn lemma_skip_white_space(w: Seq<char>, s: Seq<char>, k: int)
    requires
        all_white_space(w),
        0 <= k <= w.len(),
    ensures
        scan_from(w + s, k) == scan_from(w + s, w.len() as int),
    decreases w.len() - k,
{
    if k < w.len() {
        assert((w + s)[k] == w[k]);
        lemma_skip_white_space(w, s, k + 1);
    }
}

/// Whitespace in front of an input adds no token and changes no token's
/// kind or text: the scan is that of the input alone, every offset moved by
/// the length of the whitespace.
pub proof fn lemma_leading_white_space(w: Seq<char>, s: Seq<char>)
    requires
        all_white_space(w),
    ensures
        scan_from(w + s, 0) == shift_scan(scan_from(s, 0), w.len() as int),
{
    lemma_skip_white_space(w, s, 0);
    lemma_scan_shift(w, s, 0);
}

/// Whether a quote closes the string literal whose body starts at `j`.
pub open spec fn string_closed(s: Seq<char>, j: int) -> bool
    decreases s.len() - j,
{
    if j < 0 || j >= s.len() {
        false
    } else if s[j] == '\\' {
        if j + 1 >= s.len() {
            false
        } else {
            string_closed(s, j + 2)
        }
    } else if s[j] == '"' {
        true
    } else {
        string_closed(s, j + 1)
    }
}

/// Every string literal among the model tokens `m` of `s` has its closing
/// quote.
pub open spec fn strings_closed(s: Seq<char>, m: Seq<Span>) -> bool {
    forall|k: int|
        0 <= k < m.len() && (#[trigger] m[k]).0 == TokenType::StringLiteral ==> string_closed(
            s,
            m[k].1 + 1,
        )
}

/// `b` cannot continue a token that ends where it starts.
pub open spec fn starts_apart(b: Seq<char>) -> bool {
    b.len() == 0 || is_white_space(b[0])
}

proof fn lemma_word_end_extend(a: Seq<char>, b: Seq<char>, j: int)
    requires
        0 <= j <= a.len(),
        starts_apart(b),
    ensures
        word_end(a + b, j) == word_end(a, j),
    decreases a.len() - j,
{
    if j < a.len() {
        assert((a + b)[j] == a[j]);
        lemma_word_end_extend(a, b, j + 1);
    } else if b.len() > 0 {
        assert((a + b)[j] == b[0]);
    }
}

proof fn lemma_digits_end_extend(a: Seq<char>, b: Seq<char>, j: int)
    requires
        0 <= j <= a.len(),
        starts_apart(b),
    ensures
        digits_end(a + b, j) == digits_end(a, j),
    decreases a.len() - j,
{
    if j < a.len() {
        assert((a + b)[j] == a[j]);
        lemma_digits_end_extend(a, b, j + 1);
    } else if b.len() > 0 {
        assert((a + b)[j] == b[0]);
    }
}

proof fn lemma_string_end_extend(a: Seq<char>, b: Seq<char>, j: int)
    requires
        0 <= j,
        string_closed(a, j),
    ensures
        string_end(a + b, j) == string_end(a, j),
    decreases a.len() - j,
{
    assert((a + b)[j] == a[j]);
    if a[j] == '\\' {
        assert((a + b)[j + 1] == a[j + 1]);
        lemma_string_end_extend(a, b, j + 2);
    } else if a[j] != '"' {
        lemma_string_end_extend(a, b, j + 1);
    }
}

proof fn lemma_step_extend(a: Seq<char>, b: Seq<char>, i: int)
    requires
        0 <= i < a.len(),
        starts_apart(b),
        a[i] == '"' ==> string_closed(a, i + 1),
    ensures
        step_at(a + b, i) == step_at(a, i),
{
    let t = a + b;
    assert(t[i] == a[i]);
    if i + 1 < a.len() {
        assert(t[i + 1] == a[i + 1]);
    } else if b.len() > 0 {
        assert(t[i + 1] == b[0]);
    }
    assert(operator_at(t, i) == operator_at(a, i));
    lemma_word_end_extend(a, b, i + 1);
    lemma_word_end(a, i + 1);
    assert(t.subrange(i, word_end(t, i + 1)) =~= a.subrange(i, word_end(a, i + 1)));
    lemma_digits_end_extend(a, b, i + 1);
    if a[i] == '"' {
        lemma_string_end_extend(a, b, i + 1);
    }
}

/// The scan of `a + b` from offset `i` of `a`, when `a`'s scan from there
/// closes every string and `b` starts apart.
proof fn lemma_scan_extend(a: Seq<char>, b: Seq<char>, i: int)
    requires
        0 <= i <= a.len(),
        starts_apart(b),
        scan_from(a, i).1 != ScanEnd::Exhausted,
        strings_closed(a, scan_from(a, i).0),
    ensures
        scan_from(a + b, i) == (match scan_from(a, i).1 {
            ScanEnd::Complete => (
                scan_from(a, i).0 + shift_spans(scan_from(b, 0).0, a.len() as int),
                shift_end(scan_from(b, 0).1, a.len() as int),
            ),
            _ => scan_from(a, i),
        }),
    decreases a.len() - i,
{
    let t = a + b;
    if i == a.len() {
        lemma_scan_shift(a, b, 0);
        assert(Seq::<Span>::empty() + shift_spans(scan_from(b, 0).0, a.len() as int)
            =~= shift_spans(scan_from(b, 0).0, a.len() as int));
    } else {
        assert(t[i] == a[i]);
        if is_white_space(a[i]) {
            lemma_scan_extend(a, b, i + 1);
        } else {
            lemma_step_bounds(a, i);
            let m = scan_from(a, i).0;
            match step_at(a, i) {
                Step::Matched(ty, e) => {
                    if a[i] == '"' {
                        assert(m[0].0 == TokenType::StringLiteral);
                    }
                    lemma_step_extend(a, b, i);
                    let rest = scan_from(a, e).0;
                    assert forall|k: int|
                        0 <= k < rest.len() && (#[trigger] rest[k]).0
                            == TokenType::StringLiteral implies string_closed(a, rest[k].1 + 1) by {
                        assert(rest[k] == m[k + 1]);
                    }
                    lemma_scan_extend(a, b, e);
                    assert(seq![(ty, i, e)] + (rest + shift_spans(scan_from(b, 0).0, a.len() as int))
                        =~= (seq![(ty, i, e)] + rest) + shift_spans(scan_from(b, 0).0, a.len() as int));
                },
                _ => {
                    lemma_step_extend(a, b, i);
                },
            }
        }
    }
}

/// Whitespace added after an input, or added to a run of whitespace between
/// its tokens, adds no token and changes no token's kind or text: when `b`
/// is empty or starts with whitespace, the scans of `a + b` and `a + w + b`
/// both consist of `a`'s tokens followed by `b`'s, the latter moved by the
/// length of what precedes them. `a`'s scan must not end inside an open
/// string literal, which would take in the added whitespace.
pub proof fn lemma_inserted_white_space(a: Seq<char>, w: Seq<char>, b: Seq<char>)
    requires
        all_white_space(w),
        starts_apart(b),
        scan_from(a, 0).1 == ScanEnd::Complete,
        strings_closed(a, scan_from(a, 0).0),
    ensures
        scan_from(a + b, 0) == (
            scan_from(a, 0).0 + shift_spans(scan_from(b, 0).0, a.len() as int),
            shift_end(scan_from(b, 0).1, a.len() as int),
        ),
        scan_from(a + w + b, 0) == (
            scan_from(a, 0).0 + shift_spans(scan_from(b, 0).0, (a.len() + w.len()) as int),
            shift_end(scan_from(b, 0).1, (a.len() + w.len()) as int),
        ),
{
    lemma_scan_extend(a, b, 0);
    assert(a + w + b =~= a + (w + b));
    if w.len() > 0 {
        assert((w + b)[0] == w[0]);
    } else {
        assert(w + b =~= b);
    }
    lemma_scan_extend(a, w + b, 0);
    lemma_leading_white_space(w, b);
    let x = scan_from(b, 0).0;
    assert(shift_spans(shift_spans(x, w.len() as int), a.len() as int) =~= shift_spans(
        x,
        (a.len() + w.len()) as int,
    ));
}

} // verus!
