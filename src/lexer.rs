//! The scanner: a cursor over a borrowed character buffer.
use vstd::prelude::*;
use crate::rules::{
    digits_end, is_digit, is_ident_start, is_operator_start, is_white_space, lemma_step_bounds,
    lex_result, punctuation_type, scan_from, step_at, string_end, token_is, tokens_are, word_end,
    word_type, Span, Step,
};
use crate::token::{LexerError, Token, TokenType};

verus! {

/// Relies on `String::push`: appends one character at the end.
#[verifier::external_body]
fn push_char(s: &mut String, c: char)
    ensures
        final(s)@ == old(s)@.push(c),
{
    s.push(c)
}

/// Relies on `char::is_whitespace`: true exactly for the characters with the
/// Unicode White_Space property.
#[verifier::external_body]
fn char_is_whitespace(c: char) -> (r: bool)
    ensures
        r == is_white_space(c),
{
    c.is_whitespace()
}

/// Whether `s[start..end]` spells the word `w`.
fn spells(s: &[char], start: usize, end: usize, w: &str) -> (r: bool)
    requires
        start <= end <= s@.len(),
    ensures
        r == (s@.subrange(start as int, end as int) == w@),
{
    let n = w.unicode_len();
    if end - start != n {
        return false;
    }
    let mut k: usize = 0;
    while k < n
        invariant
            n == w@.len(),
            end - start == n,
            start <= end <= s@.len(),
            k <= n,
            forall|m: int| 0 <= m < k ==> s@[start + m] == w@[m],
        decreases n - k,
    {
        if s[start + k] != w.get_char(k) {
            assert(s@.subrange(start as int, end as int)[k as int] != w@[k as int]);
            return false;
        }
        k = k + 1;
    }
    assert(s@.subrange(start as int, end as int) =~= w@);
    true
}

/// The kind of the word `s[start..end]`: a keyword when it spells one, else
/// an identifier.
fn word_type_of(s: &[char], start: usize, end: usize) -> (r: TokenType)
    requires
        start <= end <= s@.len(),
    ensures
        r == word_type(s@.subrange(start as int, end as int)),
{
    if spells(s, start, end, "if") {
        TokenType::KwIf
    } else if spells(s, start, end, "true") {
        TokenType::KwTrue
    } else if spells(s, start, end, "false") {
        TokenType::KwFalse
    } else if spells(s, start, end, "null") {
        TokenType::KwNull
    } else if spells(s, start, end, "i32") {
        TokenType::KwI32
    } else if spells(s, start, end, "i64") {
        TokenType::KwI64
    } else if spells(s, start, end, "f32") {
        TokenType::KwF32
    } else if spells(s, start, end, "f64") {
        TokenType::KwF64
    } else if spells(s, start, end, "bool") {
        TokenType::KwBool
    } else {
        TokenType::Identifier
    }
}

/// The kind of a one-character punctuation token, if `c` is one.
fn punctuation_of(c: char) -> (r: Option<TokenType>)
    ensures
        r == punctuation_type(c),
{
    match c {
        '.' => Some(TokenType::Dot),
        '(' => Some(TokenType::Lparen),
        ')' => Some(TokenType::Rparen),
        '{' => Some(TokenType::Lbrace),
        '}' => Some(TokenType::Rbrace),
        '[' => Some(TokenType::Lbracket),
        ']' => Some(TokenType::Rbracket),
        ',' => Some(TokenType::Comma),
        ';' => Some(TokenType::Semicolon),
        ':' => Some(TokenType::Colon),
        '&' => Some(TokenType::Ampersand),
        _ => None,
    }
}

/// The recognizer run from `before` matched the model's token at its cursor
/// and left the cursor just past it, or failed as the model says.
spec fn recognized(before: Lexer, after: Lexer, r: Result<Token, LexerError>) -> bool {
    let s = before.text();
    let i = before.cursor();
    &&& after.wf()
    &&& after.text() == s
    &&& match step_at(s, i) {
        Step::Matched(t, e) => match r {
            Ok(tok) => token_is(tok, s, (t, i, e)) && after.cursor() == e,
            Err(_) => false,
        },
        Step::Exhausted => r matches Err(LexerError::EndOfInput),
        Step::NoRule => false,
    }
}

/// A scanner over a borrowed buffer of characters, with a cursor that only
/// moves forward.
pub struct Lexer<'a> {
    input: &'a [char],
    position: usize,
}

impl<'a> Lexer<'a> {
    /// The characters being scanned.
    pub closed spec fn text(&self) -> Seq<char> {
        self.input@
    }

    /// The offset of the next unconsumed character.
    pub closed spec fn cursor(&self) -> int {
        self.position as int
    }

    pub open spec fn wf(&self) -> bool {
        0 <= self.cursor() <= self.text().len()
    }

    pub fn new(input: &'a [char]) -> (r: Lexer<'a>)
        ensures
            r.text() == input@,
            r.cursor() == 0,
            r.wf(),
    {
        Lexer { input, position: 0 }
    }

    fn peek(&self) -> (r: Option<char>)
        requires
            self.wf(),
        ensures
            r == (if self.cursor() < self.text().len() {
                Some(self.text()[self.cursor()])
            } else {
                None::<char>
            }),
    {
        if self.position >= self.input.len() {
            None
        } else {
            Some(self.input[self.position])
        }
    }

    fn advance(&mut self) -> (r: Result<char, LexerError>)
        requires
            old(self).wf(),
        ensures
            final(self).wf(),
            final(self).text() == old(self).text(),
            old(self).cursor() < old(self).text().len() ==> r == Ok::<char, LexerError>(
                old(self).text()[old(self).cursor()],
            ) && final(self).cursor() == old(self).cursor() + 1,
            old(self).cursor() >= old(self).text().len() ==> (r matches Err(LexerError::EndOfInput))
                && final(self).cursor() == old(self).cursor(),
    {
        if self.position >= self.input.len() {
            return Err(LexerError::EndOfInput);
        }
        let c = self.input[self.position];
        self.position = self.position + 1;
        Ok(c)
    }

    /// Moves the cursor past whitespace.
    fn eat_whitespace(&mut self)
        requires
            old(self).wf(),
        ensures
            final(self).wf(),
            final(self).text() == old(self).text(),
            old(self).cursor() <= final(self).cursor(),
            forall|k: int|
                old(self).cursor() <= k < final(self).cursor() ==> is_white_space(
                    #[trigger] old(self).text()[k],
                ),
            final(self).cursor() < final(self).text().len() ==> !is_white_space(
                final(self).text()[final(self).cursor()],
            ),
            scan_from(final(self).text(), final(self).cursor()) == scan_from(
                old(self).text(),
                old(self).cursor(),
            ),
    {
        let ghost s = self.text();
        let ghost start = self.cursor();
        while self.position < self.input.len()
            invariant
                self.wf(),
                self.text() == s,
                start <= self.cursor(),
                forall|k: int| start <= k < self.cursor() ==> is_white_space(#[trigger] s[k]),
                scan_from(s, self.cursor()) == scan_from(s, start),
            ensures
                self.wf(),
                self.text() == s,
                start <= self.cursor(),
                forall|k: int| start <= k < self.cursor() ==> is_white_space(#[trigger] s[k]),
                scan_from(s, self.cursor()) == scan_from(s, start),
                self.cursor() < s.len() ==> !is_white_space(s[self.cursor()]),
            decreases s.len() - self.cursor(),
        {
            if !char_is_whitespace(self.input[self.position]) {
                break;
            }
            self.position = self.position + 1;
        }
    }

    /// Matches an operator, taking its two-character form whenever the
    /// second character follows.
    fn match_operator(&mut self) -> (r: Result<Token, LexerError>)
        requires
            old(self).wf(),
            old(self).cursor() < old(self).text().len(),
            is_operator_start(old(self).text()[old(self).cursor()]),
        ensures
            recognized(*old(self), *final(self), r),
    {
        let ghost s = self.text();
        let start = self.position;
        let first_ch = match self.advance() {
            Ok(c) => c,
            Err(e) => return Err(e),
        };
        let mut content = String::new();
        push_char(&mut content, first_ch);
        let second = if first_ch == '-' { '>' } else { '=' };
        let two = match self.peek() {
            Some(c) => c == second && first_ch != '+' && first_ch != '/' && first_ch != '*'
                && first_ch != '%',
            None => false,
        };
        if two {
            match self.advance() {
                Ok(c) => push_char(&mut content, c),
                Err(e) => return Err(e),
            }
        }
        let token_type = match first_ch {
            '>' => if two { TokenType::Ge } else { TokenType::Gt },
            '<' => if two { TokenType::Le } else { TokenType::Lt },
            '=' => if two { TokenType::Eq } else { TokenType::Assign },
            '!' => if two { TokenType::Ne } else { TokenType::Not },
            '-' => if two { TokenType::Arrow } else { TokenType::Minus },
            '+' => TokenType::Plus,
            '/' => TokenType::Divide,
            '*' => TokenType::Times,
            _ => TokenType::Modulus,
        };
        assert(content@ =~= s.subrange(start as int, self.cursor()));
        Ok(Token { token_type, start, end: self.position, content })
    }

    /// Matches the longest run of letters, digits and `_`, then classifies
    /// the whole run as a keyword or an identifier.
    fn match_identifier_or_keyword(&mut self) -> (r: Result<Token, LexerError>)
        requires
            old(self).wf(),
            old(self).cursor() < old(self).text().len(),
            is_ident_start(old(self).text()[old(self).cursor()]),
        ensures
            recognized(*old(self), *final(self), r),
    {
        let ghost s = self.text();
        let start = self.position;
        let first = match self.advance() {
            Ok(c) => c,
            Err(e) => return Err(e),
        };
        let mut buffer = String::new();
        push_char(&mut buffer, first);
        assert(buffer@ =~= s.subrange(start as int, self.cursor()));
        loop
            invariant
                self.wf(),
                self.text() == s,
                start < self.cursor(),
                buffer@ == s.subrange(start as int, self.cursor()),
                word_end(s, self.cursor()) == word_end(s, start + 1),
            ensures
                self.wf(),
                self.text() == s,
                buffer@ == s.subrange(start as int, self.cursor()),
                self.cursor() == word_end(s, start + 1),
            decreases s.len() - self.cursor(),
        {
            match self.peek() {
                Some(ch) => {
                    if !(('a' <= ch && ch <= 'z') || ('A' <= ch && ch <= 'Z') || ch == '_' || ('0'
                        <= ch && ch <= '9')) {
                        break;
                    }
                },
                None => break,
            }
            match self.advance() {
                Ok(c) => push_char(&mut buffer, c),
                Err(e) => return Err(e),
            }
            assert(buffer@ =~= s.subrange(start as int, self.cursor()));
        }
        let token_type = word_type_of(self.input, start, self.position);
        Ok(Token { token_type, start, end: self.position, content: buffer })
    }

    /// Matches the longest run of ASCII digits.
    fn match_number_literal(&mut self) -> (r: Result<Token, LexerError>)
        requires
            old(self).wf(),
            old(self).cursor() < old(self).text().len(),
            is_digit(old(self).text()[old(self).cursor()]),
        ensures
            recognized(*old(self), *final(self), r),
    {
        let ghost s = self.text();
        let start = self.position;
        let first = match self.advance() {
            Ok(c) => c,
            Err(e) => return Err(e),
        };
        let mut buffer = String::new();
        push_char(&mut buffer, first);
        assert(buffer@ =~= s.subrange(start as int, self.cursor()));
        loop
            invariant
                self.wf(),
                self.text() == s,
                start < self.cursor(),
                buffer@ == s.subrange(start as int, self.cursor()),
                digits_end(s, self.cursor()) == digits_end(s, start + 1),
            ensures
                self.wf(),
                self.text() == s,
                buffer@ == s.subrange(start as int, self.cursor()),
                self.cursor() == digits_end(s, start + 1),
            decreases s.len() - self.cursor(),
        {
            match self.peek() {
                Some(ch) => {
                    if !('0' <= ch && ch <= '9') {
                        break;
                    }
                },
                None => break,
            }
            match self.advance() {
                Ok(c) => push_char(&mut buffer, c),
                Err(e) => return Err(e),
            }
            assert(buffer@ =~= s.subrange(start as int, self.cursor()));
        }
        Ok(Token { token_type: TokenType::NumberLiteral, start, end: self.position, content: buffer })
    }

    /// Matches a string literal up to and including its closing quote. A
    /// backslash takes the next character with it unexamined. A literal that
    /// no quote closes runs to the end of the input and is still a token; a
    /// backslash as the last character fails with `EndOfInput`.
    fn match_string_literal(&mut self) -> (r: Result<Token, LexerError>)
        requires
            old(self).wf(),
            old(self).cursor() < old(self).text().len(),
            old(self).text()[old(self).cursor()] == '"',
        ensures
            recognized(*old(self), *final(self), r),
    {
        let ghost s = self.text();
        let start = self.position;
        let quote = match self.advance() {
            Ok(c) => c,
            Err(e) => return Err(e),
        };
        let mut buffer = String::new();
        push_char(&mut buffer, quote);
        assert(buffer@ =~= s.subrange(start as int, self.cursor()));
        loop
            invariant_except_break
                string_end(s, self.cursor()) == string_end(s, start + 1),
            invariant
                self.wf(),
                self.text() == s,
                start < self.cursor(),
                s[start as int] == '"',
                s == old(self).text(),
                start == old(self).cursor(),
                buffer@ == s.subrange(start as int, self.cursor()),
            ensures
                self.wf(),
                self.text() == s,
                buffer@ == s.subrange(start as int, self.cursor()),
                string_end(s, start + 1) == Some(self.cursor() as int),
            decreases s.len() - self.cursor(),
        {
            let ghost p = self.cursor();
            let ch = match self.peek() {
                Some(ch) => ch,
                None => {
                    assert(string_end(s, p) == Some(p));
                    break;
                },
            };
            match self.advance() {
                Ok(c) => push_char(&mut buffer, c),
                Err(e) => return Err(e),
            }
            if ch == '\\' {
                match self.advance() {
                    Ok(c) => push_char(&mut buffer, c),
                    Err(e) => {
                        assert(string_end(s, p) is None);
                        return Err(e);
                    },
                }
            } else if ch == '"' {
                assert(string_end(s, p) == Some(p + 1));
                assert(buffer@ =~= s.subrange(start as int, self.cursor()));
                break;
            }
            assert(buffer@ =~= s.subrange(start as int, self.cursor()));
        }
        Ok(Token { token_type: TokenType::StringLiteral, start, end: self.position, content: buffer })
    }
    /// The unconsumed input, from the cursor to the end.
    fn rest_of_input(&self) -> (r: String)
        requires
            self.wf(),
        ensures
            r@ == self.text().subrange(self.cursor(), self.text().len() as int),
    {
        let mut rest = String::new();
        let mut k: usize = self.position;
        while k < self.input.len()
            invariant
                self.wf(),
                self.cursor() <= k <= self.text().len(),
                rest@ == self.text().subrange(self.cursor(), k as int),
            decreases self.text().len() - k,
        {
            push_char(&mut rest, self.input[k]);
            k = k + 1;
            assert(rest@ =~= self.text().subrange(self.cursor(), k as int));
        }
        rest
    }

    /// Scans the rest of the input into tokens, skipping whitespace. Stops
    /// at the first character that no rule matches, with the tokens matched
    /// before it and the rest of the input; fails with `EndOfInput` when a
    /// string literal ends in a lone backslash.
    pub fn lex(&mut self) -> (r: Result<Vec<Token>, LexerError>)
        requires
            old(self).wf(),
        ensures
            final(self).wf(),
            final(self).text() == old(self).text(),
            lex_result(old(self).text(), old(self).cursor(), r),
            r is Ok ==> final(self).cursor() == final(self).text().len(),
    {
        let ghost s = self.text();
        let ghost i0 = self.cursor();
        let mut tokens: Vec<Token> = Vec::new();
        let ghost mut model: Seq<Span> = Seq::empty();
        self.eat_whitespace();
        assert(scan_from(s, i0).0 =~= model + scan_from(s, self.cursor()).0);
        while self.position < self.input.len()
            invariant
                self.wf(),
                self.text() == s,
                s == old(self).text(),
                i0 == old(self).cursor(),
                tokens_are(tokens@, s, model),
                scan_from(s, i0).0 == model + scan_from(s, self.cursor()).0,
                scan_from(s, i0).1 == scan_from(s, self.cursor()).1,
                self.cursor() < s.len() ==> !is_white_space(s[self.cursor()]),
            decreases s.len() - self.cursor(),
        {
            let ghost p = self.cursor();
            proof {
                lemma_step_bounds(s, p);
            }
            let c = self.input[self.position];
            let res = if c == '>' || c == '<' || c == '-' || c == '+' || c == '=' || c == '!' || c
                == '/' || c == '*' || c == '%' {
                self.match_operator()
            } else if ('a' <= c && c <= 'z') || ('A' <= c && c <= 'Z') || c == '_' {
                self.match_identifier_or_keyword()
            } else if '0' <= c && c <= '9' {
                self.match_number_literal()
            } else if c == '"' {
                self.match_string_literal()
            } else {
                match punctuation_of(c) {
                    Some(token_type) => {
                        let start = self.position;
                        let mut content = String::new();
                        match self.advance() {
                            Ok(ch) => push_char(&mut content, ch),
                            Err(e) => return Err(e),
                        }
                        assert(content@ =~= s.subrange(start as int, self.cursor()));
                        Ok(Token { token_type, start, end: self.position, content })
                    },
                    None => {
                        let rest = self.rest_of_input();
                        assert(model + scan_from(s, p).0 =~= model);
                        return Err(LexerError::PartiallyMatchedInput(tokens, rest));
                    },
                }
            };
            match res {
                Ok(tok) => {
                    let ghost m: Span = (tok.token_type, p, tok.end as int);
                    assert(scan_from(s, p).0 =~= seq![m] + scan_from(s, self.cursor()).0);
                    assert(model + scan_from(s, p).0 =~= model.push(m) + scan_from(
                        s,
                        self.cursor(),
                    ).0);
                    let ghost before = tokens@;
                    tokens.push(tok);
                    proof {
                        model = model.push(m);
                        assert forall|k: int| 0 <= k < tokens@.len() implies token_is(
                            #[trigger] tokens@[k],
                            s,
                            model[k],
                        ) by {
                            if k < tokens@.len() - 1 {
                                assert(tokens@[k] == before[k]);
                            }
                        }
                    }
                },
                Err(e) => return Err(e),
            }
            self.eat_whitespace();
        }
        assert(model + scan_from(s, self.cursor()).0 =~= model);
        Ok(tokens)
    }
}

} // verus!
