use vstd::prelude::*;

verus! {

/// The kind of a token. `KwBool` is produced for the word `bool`; `Not` for
/// a `!` that is not followed by `=`.
#[derive(Debug, Clone, Copy, PartialEq, Eq, Structural)]
pub enum TokenType {
    Dot,
    Gt,
    Lt,
    Eq,
    Ne,
    Not,
    Assign,
    Ge,
    Le,
    Identifier,
    KwIf,
    NumberLiteral,
    StringLiteral,
    Plus,
    Minus,
    Divide,
    Times,
    Lparen,
    Rparen,
    Lbrace,
    Rbrace,
    Lbracket,
    Rbracket,
    Comma,
    Semicolon,
    Colon,
    KwTrue,
    KwFalse,
    KwNull,
    KwI32,
    KwI64,
    KwF32,
    KwF64,
    KwBool,
    Ampersand,
    Modulus,
    Arrow,
}

/// One matched token: its kind, its span `[start, end)` as character offsets
/// into the input, and the exact text of that span.
#[derive(Debug)]
pub struct Token {
    pub token_type: TokenType,
    pub start: usize,
    pub end: usize,
    pub content: String,
}

/// Why a scan stopped.
#[derive(Debug)]
pub enum LexerError {
    /// A recognizer needed one more character and the input had ended: this
    /// happens when a string literal ends in a lone backslash.
    EndOfInput,
    /// No rule matches the character at the cursor. Holds the tokens matched
    /// before it and the whole unconsumed input, starting at that character.
    PartiallyMatchedInput(Vec<Token>, String),
    /// A single character that cannot start a token. The scanner reports
    /// such a character through `PartiallyMatchedInput`, with its context,
    /// and never builds this variant; it is kept for callers that report a
    /// lone character.
    UnexpectedCharacter(char),
}

} // verus!
