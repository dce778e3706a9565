//! The mathematical model of a scan: which characters start which kind of
//! token, where each token ends, and the whole token sequence of an input.
use vstd::prelude::*;
use crate::token::{LexerError, Token, TokenType};

verus! {

/// The Unicode White_Space property.
pub open spec fn is_white_space(c: char) -> bool {
    ('\u{9}' <= c && c <= '\u{d}') || c == ' ' || c == '\u{85}' || c == '\u{a0}'
        || c == '\u{1680}' || ('\u{2000}' <= c && c <= '\u{200a}') || c == '\u{2028}'
        || c == '\u{2029}' || c == '\u{202f}' || c == '\u{205f}' || c == '\u{3000}'
}

pub open spec fn is_digit(c: char) -> bool {
    '0' <= c && c <= '9'
}

pub open spec fn is_ident_start(c: char) -> bool {
    ('a' <= c && c <= 'z') || ('A' <= c && c <= 'Z') || c == '_'
}

pub open spec fn is_ident_char(c: char) -> bool {
    is_ident_start(c) || is_digit(c)
}

pub open spec fn is_operator_start(c: char) -> bool {
    c == '>' || c == '<' || c == '=' || c == '!' || c == '+' || c == '-' || c == '/' || c == '*'
        || c == '%'
}

/// The kind of a one-character punctuation token, if `c` is one.
pub open spec fn punctuation_type(c: char) -> Option<TokenType> {
    if c == '.' {
        Some(TokenType::Dot)
    } else if c == '(' {
        Some(TokenType::Lparen)
    } else if c == ')' {
        Some(TokenType::Rparen)
    } else if c == '{' {
        Some(TokenType::Lbrace)
    } else if c == '}' {
        Some(TokenType::Rbrace)
    } else if c == '[' {
        Some(TokenType::Lbracket)
    } else if c == ']' {
        Some(TokenType::Rbracket)
    } else if c == ',' {
        Some(TokenType::Comma)
    } else if c == ';' {
        Some(TokenType::Semicolon)
    } else if c == ':' {
        Some(TokenType::Colon)
    } else if c == '&' {
        Some(TokenType::Ampersand)
    } else {
        None
    }
}

/// Whether the character at `i` exists and is `c`.
pub open spec fn char_at_is(s: Seq<char>, i: int, c: char) -> bool {
    0 <= i < s.len() && s[i] == c
}

/// The operator that starts at `i` (where an operator character stands) and
/// the offset just past it: a two-character form whenever its second
/// character follows.
pub open spec fn operator_at(s: Seq<char>, i: int) -> (TokenType, int) {
    let c = s[i];
    let eq_next = char_at_is(s, i + 1, '=');
    if c == '>' {
        if eq_next { (TokenType::Ge, i + 2) } else { (TokenType::Gt, i + 1) }
    } else if c == '<' {
        if eq_next { (TokenType::Le, i + 2) } else { (TokenType::Lt, i + 1) }
    } else if c == '=' {
        if eq_next { (TokenType::Eq, i + 2) } else { (TokenType::Assign, i + 1) }
    } else if c == '!' {
        if eq_next { (TokenType::Ne, i + 2) } else { (TokenType::Not, i + 1) }
    } else if c == '-' {
        if char_at_is(s, i + 1, '>') { (TokenType::Arrow, i + 2) } else { (TokenType::Minus, i + 1) }
    } else if c == '+' {
        (TokenType::Plus, i + 1)
    } else if c == '/' {
        (TokenType::Divide, i + 1)
    } else if c == '*' {
        (TokenType::Times, i + 1)
    } else {
        (TokenType::Modulus, i + 1)
    }
}

/// The end of the longest run of identifier characters that starts at `j`.
pub open spec fn word_end(s: Seq<char>, j: int) -> int
    decreases s.len() - j,
{
    if 0 <= j < s.len() && is_ident_char(s[j]) {
        word_end(s, j + 1)
    } else {
        j
    }
}

/// The end of the longest run of ASCII digits that starts at `j`.
pub open spec fn digits_end(s: Seq<char>, j: int) -> int
    decreases s.len() - j,
{
    if 0 <= j < s.len() && is_digit(s[j]) {
        digits_end(s, j + 1)
    } else {
        j
    }
}

/// The end of a string literal whose body starts at `j`: just past the
/// closing quote, or the end of the input when no quote closes it. A
/// backslash takes the next character with it, whatever it is; `None` when
/// a backslash is the last character.
pub open spec fn string_end(s: Seq<char>, j: int) -> Option<int>
    decreases s.len() - j,
{
    if j < 0 || j >= s.len() {
        Some(j)
    } else if s[j] == '\\' {
        if j + 1 >= s.len() {
            None
        } else {
            string_end(s, j + 2)
        }
    } else if s[j] == '"' {
        Some(j + 1)
    } else {
        string_end(s, j + 1)
    }
}

/// The kind of a word: a keyword when it spells one, else an identifier.
pub open spec fn word_type(w: Seq<char>) -> TokenType {
    if w == "if"@ {
        TokenType::KwIf
    } else if w == "true"@ {
        TokenType::KwTrue
    } else if w == "false"@ {
        TokenType::KwFalse
    } else if w == "null"@ {
        TokenType::KwNull
    } else if w == "i32"@ {
        TokenType::KwI32
    } else if w == "i64"@ {
        TokenType::KwI64
    } else if w == "f32"@ {
        TokenType::KwF32
    } else if w == "f64"@ {
        TokenType::KwF64
    } else if w == "bool"@ {
        TokenType::KwBool
    } else {
        TokenType::Identifier
    }
}

/// What one recognizer does at a non-whitespace character.
pub enum Step {
    /// A token of this kind that ends at this offset.
    Matched(TokenType, int),
    /// No rule matches the character.
    NoRule,
    /// The input ended inside an escape of a string literal.
    Exhausted,
}

/// The token that starts at `i`, where a non-whitespace character stands.
pub open spec fn step_at(s: Seq<char>, i: int) -> Step {
    let c = s[i];
    if is_operator_start(c) {
        let (t, e) = operator_at(s, i);
        Step::Matched(t, e)
    } else if is_ident_start(c) {
        let e = word_end(s, i + 1);
        Step::Matched(word_type(s.subrange(i, e)), e)
    } else if is_digit(c) {
        Step::Matched(TokenType::NumberLiteral, digits_end(s, i + 1))
    } else if c == '"' {
        match string_end(s, i + 1) {
            Some(e) => Step::Matched(TokenType::StringLiteral, e),
            None => Step::Exhausted,
        }
    } else {
        match punctuation_type(c) {
            Some(t) => Step::Matched(t, i + 1),
            None => Step::NoRule,
        }
    }
}

/// How a scan ends.
pub enum ScanEnd {
    /// The whole input was consumed.
    Complete,
    /// No rule matches the character at this offset.
    NoRule(int),
    /// The input ended inside a string escape.
    Exhausted,
}

/// A token of the model: kind, start, end.
pub type Span = (TokenType, int, int);

/// The tokens matched from offset `i` on, and how the scan ends.
pub open spec fn scan_from(s: Seq<char>, i: int) -> (Seq<Span>, ScanEnd)
    decreases s.len() - i,
{
    if i < 0 || i >= s.len() {
        (Seq::empty(), ScanEnd::Complete)
    } else if is_white_space(s[i]) {
        scan_from(s, i + 1)
    } else {
        match step_at(s, i) {
            Step::Matched(t, e) => {
                if i < e <= s.len() {
                    let rest = scan_from(s, e);
                    (seq![(t, i, e)] + rest.0, rest.1)
                } else {
                    (Seq::empty(), ScanEnd::Complete)
                }
            },
            Step::NoRule => (Seq::empty(), ScanEnd::NoRule(i)),
            Step::Exhausted => (Seq::empty(), ScanEnd::Exhausted),
        }
    }
}

/// The token `t` is the model token `m` of input `s`, its text included.
pub open spec fn token_is(t: Token, s: Seq<char>, m: Span) -> bool {
    &&& t.token_type == m.0
    &&& t.start == m.1
    &&& t.end == m.2
    &&& t.content@ == s.subrange(m.1, m.2)
}

pub open spec fn tokens_are(v: Seq<Token>, s: Seq<char>, m: Seq<Span>) -> bool {
    &&& v.len() == m.len()
    &&& forall|k: int| 0 <= k < v.len() ==> token_is(#[trigger] v[k], s, m[k])
}

/// The result of scanning `s` from offset `i`: the model's tokens on
/// success; the tokens before the failing character and the rest of the
/// input from it when no rule matches; `EndOfInput` when the input ends
/// inside a string escape.
pub open spec fn lex_result(s: Seq<char>, i: int, r: Result<Vec<Token>, LexerError>) -> bool {
    let (m, end) = scan_from(s, i);
    match end {
        ScanEnd::Complete => match r {
            Ok(v) => tokens_are(v@, s, m),
            Err(_) => false,
        },
        ScanEnd::NoRule(p) => match r {
            Err(LexerError::PartiallyMatchedInput(v, rest)) => tokens_are(v@, s, m) && rest@
                == s.subrange(p, s.len() as int),
            _ => false,
        },
        ScanEnd::Exhausted => r matches Err(LexerError::EndOfInput),
    }
}

pub proof fn lemma_word_end(s: Seq<char>, j: int)
    requires
        0 <= j <= s.len(),
    ensures
        j <= word_end(s, j) <= s.len(),
        forall|k: int| j <= k < word_end(s, j) ==> is_ident_char(#[trigger] s[k]),
        word_end(s, j) < s.len() ==> !is_ident_char(s[word_end(s, j)]),
    decreases s.len() - j,
{
    if j < s.len() && is_ident_char(s[j]) {
        lemma_word_end(s, j + 1);
    }
}

pub proof fn lemma_digits_end(s: Seq<char>, j: int)
    requires
        0 <= j <= s.len(),
    ensures
        j <= digits_end(s, j) <= s.len(),
        forall|k: int| j <= k < digits_end(s, j) ==> is_digit(#[trigger] s[k]),
        digits_end(s, j) < s.len() ==> !is_digit(s[digits_end(s, j)]),
    decreases s.len() - j,
{
    if j < s.len() && is_digit(s[j]) {
        lemma_digits_end(s, j + 1);
    }
}

pub proof fn lemma_string_end(s: Seq<char>, j: int)
    requires
        0 <= j <= s.len(),
    ensures
        string_end(s, j) matches Some(e) ==> j <= e <= s.len(),
    decreases s.len() - j,
{
    if j < s.len() {
        if s[j] == '\\' {
            if j + 1 < s.len() {
                lemma_string_end(s, j + 2);
            }
        } else if s[j] != '"' {
            lemma_string_end(s, j + 1);
        }
    }
}

/// Every token that a recognizer matches is non-empty and within the input.
pub proof fn lemma_step_bounds(s: Seq<char>, i: int)
    requires
        0 <= i < s.len(),
    ensures
        step_at(s, i) matches Step::Matched(_, e) ==> i < e <= s.len(),
{
    lemma_word_end(s, i + 1);
    lemma_digits_end(s, i + 1);
    lemma_string_end(s, i + 1);
}

} // verus!
