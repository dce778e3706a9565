//! Laws of a scan, proved over the model that `Lexer::lex` is specified by.
use vstd::prelude::*;
use crate::rules::{
    is_digit, is_ident_char, is_ident_start, is_white_space, lemma_digits_end, lemma_step_bounds,
    lemma_word_end, lex_result, scan_from, step_at, token_is, tokens_are, word_type, ScanEnd, Span,
    Step,
};
use crate::token::{LexerError, Token, TokenType};

verus! {

/// An operator takes its two-character form whenever the second character
/// follows: `>=`, `<=`, `==`, `!=` and `->` are each one token.
pub proof fn lemma_operator_munch(s: Seq<char>, i: int)
    requires
        0 <= i < s.len() - 1,
        ((s[i] == '>' || s[i] == '<' || s[i] == '=' || s[i] == '!') && s[i + 1] == '=') || (s[i]
            == '-' && s[i + 1] == '>'),
    ensures
        step_at(s, i) matches Step::Matched(t, e) && e == i + 2 && t == (if s[i] == '>' {
            TokenType::Ge
        } else if s[i] == '<' {
            TokenType::Le
        } else if s[i] == '=' {
            TokenType::Eq
        } else if s[i] == '!' {
            TokenType::Ne
        } else {
            TokenType::Arrow
        }),
{
}

/// A word runs over the longest stretch of letters, digits and `_`, and is
/// classified only after: no keyword is split off the front of a longer word.
pub proof fn lemma_word_munch(s: Seq<char>, i: int)
    requires
        0 <= i < s.len(),
        is_ident_start(s[i]),
    ensures
        step_at(s, i) matches Step::Matched(t, e) && i < e <= s.len() && (forall|k: int|
            i <= k < e ==> is_ident_char(#[trigger] s[k])) && (e < s.len() ==> !is_ident_char(
            s[e],
        )) && t == word_type(s.subrange(i, e)),
{
    lemma_word_end(s, i + 1);
}

/// A number literal runs over the longest stretch of ASCII digits and stops
/// at any other character, which it does not take.
pub proof fn lemma_number_munch(s: Seq<char>, i: int)
    requires
        0 <= i < s.len(),
        is_digit(s[i]),
    ensures
        step_at(s, i) matches Step::Matched(t, e) && t == TokenType::NumberLiteral && i < e
            <= s.len() && (forall|k: int| i <= k < e ==> is_digit(#[trigger] s[k])) && (e
            < s.len() ==> !is_digit(s[e])),
{
    lemma_digits_end(s, i + 1);
}

/// Whether offset `j` lies inside the span of one of the tokens.
pub open spec fn covered(toks: Seq<Token>, j: int) -> bool {
    exists|k: int| 0 <= k < toks.len() && (#[trigger] toks[k]).start <= j < toks[k].end
}

/// The input rebuilt from the tokens' texts and the stretches of input
/// between them, starting at offset `from`.
pub open spec fn rebuild(s: Seq<char>, toks: Seq<Token>, from: int) -> Seq<char>
    decreases toks.len(),
{
    if toks.len() == 0 {
        s.subrange(from, s.len() as int)
    } else {
        s.subrange(from, toks[0].start as int) + toks[0].content@ + rebuild(
            s,
            toks.drop_first(),
            toks[0].end as int,
        )
    }
}

proof fn lemma_rebuild_step(s: Seq<char>, toks: Seq<Token>, i: int)
    requires
        0 <= i < s.len(),
        toks.len() > 0 ==> i < toks[0].start <= s.len(),
    ensures
        rebuild(s, toks, i) == seq![s[i]] + rebuild(s, toks, i + 1),
{
    if toks.len() == 0 {
        assert(s.subrange(i, s.len() as int) =~= seq![s[i]] + s.subrange(i + 1, s.len() as int));
    } else {
        assert(s.subrange(i, toks[0].start as int) =~= seq![s[i]] + s.subrange(
            i + 1,
            toks[0].start as int,
        ));
        assert(rebuild(s, toks, i) =~= seq![s[i]] + rebuild(s, toks, i + 1));
    }
}

proof fn lemma_round_trip_from(s: Seq<char>, toks: Seq<Token>, i: int)
    requires
        0 <= i <= s.len(),
        scan_from(s, i).1 == ScanEnd::Complete,
        tokens_are(toks, s, scan_from(s, i).0),
    ensures
        forall|k: int|
            0 <= k < toks.len() ==> i <= (#[trigger] toks[k]).start < toks[k].end <= s.len(),
        forall|k1: int, k2: int|
            0 <= k1 < k2 < toks.len() ==> (#[trigger] toks[k1]).end <= (#[trigger] toks[k2]).start,
        forall|j: int| i <= j < s.len() && !covered(toks, j) ==> is_white_space(#[trigger] s[j]),
        rebuild(s, toks, i) == s.subrange(i, s.len() as int),
    decreases s.len() - i,
{
    if i == s.len() {
        assert(toks.len() == 0);
        assert forall|j: int| i <= j < s.len() && !covered(toks, j) implies is_white_space(
            #[trigger] s[j],
        ) by {}
    } else if is_white_space(s[i]) {
        lemma_round_trip_from(s, toks, i + 1);
        if toks.len() > 0 {
            assert(i + 1 <= toks[0].start);
        }
        lemma_rebuild_step(s, toks, i);
        assert(s.subrange(i, s.len() as int) =~= seq![s[i]] + s.subrange(i + 1, s.len() as int));
    } else {
        lemma_step_bounds(s, i);
        let e = match step_at(s, i) {
            Step::Matched(_, e) => e,
            _ => 0,
        };
        let m = scan_from(s, i).0;
        let rest = toks.drop_first();
        assert(m.len() > 0);
        assert(tokens_are(rest, s, scan_from(s, e).0)) by {
            assert forall|k: int| 0 <= k < rest.len() implies token_is(
                #[trigger] rest[k],
                s,
                scan_from(s, e).0[k],
            ) by {
                assert(rest[k] == toks[k + 1]);
                assert(scan_from(s, e).0[k] == m[k + 1]);
            }
        }
        assert(token_is(toks[0], s, m[0]));
        lemma_round_trip_from(s, rest, e);
        assert forall|k: int| 0 <= k < toks.len() implies i <= (#[trigger] toks[k]).start
            < toks[k].end <= s.len() by {
            if k > 0 {
                assert(toks[k] == rest[k - 1]);
            }
        }
        assert forall|k1: int, k2: int| 0 <= k1 < k2 < toks.len() implies (#[trigger] toks[
            k1]).end <= (#[trigger] toks[k2]).start by {
            assert(toks[k2] == rest[k2 - 1]);
            if k1 > 0 {
                assert(toks[k1] == rest[k1 - 1]);
            }
        }
        assert forall|j: int| i <= j < s.len() && !covered(toks, j) implies is_white_space(
            #[trigger] s[j],
        ) by {
            if j < e {
                assert(toks[0].start <= j < toks[0].end);
            } else if !covered(rest, j) {
            } else {
                let k = choose|k: int| 0 <= k < rest.len() && (#[trigger] rest[k]).start <= j < rest[k].end;
                assert(toks[k + 1] == rest[k]);
            }
        }
        assert(s.subrange(i, s.len() as int) =~= s.subrange(i, i) + s.subrange(i, e) + s.subrange(
            e,
            s.len() as int,
        ));
    }
}

/// On a complete scan the tokens' spans are non-empty, in order and do not
/// overlap; every character outside them is whitespace; and the tokens'
/// texts, interleaved with the whitespace between them, give back the input.
pub proof fn lemma_round_trip(s: Seq<char>, toks: Seq<Token>)
    requires
        scan_from(s, 0).1 == ScanEnd::Complete,
        tokens_are(toks, s, scan_from(s, 0).0),
    ensures
        forall|k: int| 0 <= k < toks.len() ==> (#[trigger] toks[k]).start < toks[k].end <= s.len(),
        forall|k1: int, k2: int|
            0 <= k1 < k2 < toks.len() ==> (#[trigger] toks[k1]).end <= (#[trigger] toks[k2]).start,
        forall|j: int| 0 <= j < s.len() && !covered(toks, j) ==> is_white_space(#[trigger] s[j]),
        rebuild(s, toks, 0) == s,
{
    lemma_round_trip_from(s, toks, 0);
    assert(s.subrange(0, s.len() as int) =~= s);
}

/// What a token carries: kind, span and text.
pub open spec fn token_view(t: Token) -> (TokenType, usize, usize, Seq<char>) {
    (t.token_type, t.start, t.end, t.content@)
}

pub open spec fn tokens_view(v: Seq<Token>) -> Seq<(TokenType, usize, usize, Seq<char>)> {
    v.map_values(|t: Token| token_view(t))
}

/// Two scan results carry the same tokens, the same unconsumed input and
/// the same kind of failure.
pub open spec fn same_outcome(
    r1: Result<Vec<Token>, LexerError>,
    r2: Result<Vec<Token>, LexerError>,
) -> bool {
    match (r1, r2) {
        (Ok(a), Ok(b)) => tokens_view(a@) == tokens_view(b@),
        (
            Err(LexerError::PartiallyMatchedInput(a, x)),
            Err(LexerError::PartiallyMatchedInput(b, y)),
        ) => tokens_view(a@) == tokens_view(b@) && x@ == y@,
        (Err(LexerError::EndOfInput), Err(LexerError::EndOfInput)) => true,
        _ => false,
    }
}

proof fn lemma_same_tokens(v1: Seq<Token>, v2: Seq<Token>, s: Seq<char>, m: Seq<Span>)
    requires
        tokens_are(v1, s, m),
        tokens_are(v2, s, m),
    ensures
        tokens_view(v1) == tokens_view(v2),
{
    assert forall|k: int| 0 <= k < v1.len() implies token_view(#[trigger] v1[k]) == token_view(
        v2[k],
    ) by {
        assert(token_is(v1[k], s, m[k]));
        assert(token_is(v2[k], s, m[k]));
    }
    assert(tokens_view(v1) =~= tokens_view(v2));
}

/// Scanning is a function of the input and the cursor: two scans of the
/// same characters from the same offset give the same outcome.
pub proof fn lemma_scan_deterministic(
    s: Seq<char>,
    i: int,
    r1: Result<Vec<Token>, LexerError>,
    r2: Result<Vec<Token>, LexerError>,
)
    requires
        lex_result(s, i, r1),
        lex_result(s, i, r2),
    ensures
        same_outcome(r1, r2),
{
    let m = scan_from(s, i).0;
    match (r1, r2) {
        (Ok(a), Ok(b)) => lemma_same_tokens(a@, b@, s, m),
        (
            Err(LexerError::PartiallyMatchedInput(a, x)),
            Err(LexerError::PartiallyMatchedInput(b, y)),
        ) => lemma_same_tokens(a@, b@, s, m),
        _ => {},
    }
}

} // verus!
