use lexer::{Lexer, LexerError, Token, TokenType};

fn chars(s: &str) -> Vec<char> {
    s.chars().collect::<Vec<char>>()
}

fn lex_str(s: &str) -> Result<Vec<Token>, LexerError> {
    let input = chars(s);
    let mut lexer = Lexer::new(&input);
    lexer.lex()
}

fn types(tokens: &[Token]) -> Vec<TokenType> {
    tokens.iter().map(|t| t.token_type).collect()
}

#[test]
fn test_number_literal() {
    let input = "1234".chars().collect::<Vec<char>>();
    let mut lexer = Lexer::new(&input);
    let tokens = lexer.lex().unwrap();

    assert_eq!(tokens.len(), 1);
    assert_eq!(tokens[0].token_type, TokenType::NumberLiteral);
    assert_eq!(tokens[0].content, "1234");
}

#[test]
fn test_string_literal() {
    let input = "\"hello world\"".chars().collect::<Vec<char>>();
    let mut lexer = Lexer::new(&input);
    let tokens = lexer.lex().unwrap();

    assert_eq!(tokens.len(), 1);
    assert_eq!(tokens[0].token_type, TokenType::StringLiteral);
    assert_eq!(tokens[0].content, "\"hello world\"");
}

#[test]
fn test_operators() {
    let input = ">= <= = != - + / * . < > ==".chars().collect::<Vec<char>>();
    let mut lexer = Lexer::new(&input);
    let tokens = lexer.lex().unwrap();

    assert_eq!(tokens.len(), 12);
    assert_eq!(tokens[0].token_type, TokenType::Ge);
    assert_eq!(tokens[1].token_type, TokenType::Le);
    assert_eq!(tokens[2].token_type, TokenType::Assign);
    assert_eq!(tokens[3].token_type, TokenType::Ne);
    assert_eq!(tokens[4].token_type, TokenType::Minus);
    assert_eq!(tokens[5].token_type, TokenType::Plus);
    assert_eq!(tokens[6].token_type, TokenType::Divide);
    assert_eq!(tokens[7].token_type, TokenType::Times);
    assert_eq!(tokens[8].token_type, TokenType::Dot);
    assert_eq!(tokens[9].token_type, TokenType::Lt);
    assert_eq!(tokens[10].token_type, TokenType::Gt);
    assert_eq!(tokens[11].token_type, TokenType::Eq);
}

#[test]
fn test_longest_match() {
    let input = "iffer".chars().collect::<Vec<char>>();
    let mut lexer = Lexer::new(&input);
    let tokens = lexer.lex().unwrap();

    assert_eq!(tokens.len(), 1);
    assert_eq!(tokens[0].token_type, TokenType::Identifier);
    assert_eq!(tokens[0].content, "iffer");
}

#[test]
fn check_failing() {
    let input = "1234#".chars().collect::<Vec<char>>();
    let mut lexer = Lexer::new(&input);
    let tokens = lexer.lex();

    assert!(tokens.is_err());
}

#[test]
fn parse_complete_program() {
    let program = r#"let gcd: fn(x: i32, y: i32) -> i32 = {
            if y == 0 {
                return x;
            } else {
                let temp: int = y;
                y = y % x;
                x = temp;

                let add_simd: fn(x: vec<i32>, y: vec<i32>) -> nil =  {
                    let result: vec<i32> = simdadd(x, y);
                }

                while (x > 0) {
                    x = x - 1;
                    x = x + 1;
                    x = x % 1;
                    x = x * 1;
                    x = x / 1;
                }

                return gcd(x, y);
            }
        }
        "#
    .chars()
    .collect::<Vec<char>>();

    let mut lexer = Lexer::new(&program);
    let _ = lexer.lex().unwrap();
}

#[test]
fn test_escape_sequences() {
    let input = r#""hello\nworld""#.chars().collect::<Vec<char>>();
    let mut lexer = Lexer::new(&input);
    let tokens = lexer.lex().unwrap();

    assert_eq!(tokens.len(), 1);
    assert_eq!(tokens[0].token_type, TokenType::StringLiteral);
    assert_eq!(tokens[0].content, r#""hello\nworld""#);
}

#[test]
fn empty_input_gives_no_tokens() {
    assert!(lex_str("").unwrap().is_empty());
    assert!(lex_str(" \t\n\r ").unwrap().is_empty());
}

#[test]
fn numbers_stop_at_a_dot() {
    let tokens = lex_str("12.3").unwrap();
    assert_eq!(
        types(&tokens),
        vec![TokenType::NumberLiteral, TokenType::Dot, TokenType::NumberLiteral]
    );
    assert_eq!(tokens[0].content, "12");
    assert_eq!(tokens[1].content, ".");
    assert_eq!(tokens[2].content, "3");
    assert_eq!((tokens[2].start, tokens[2].end), (3, 4));
}

#[test]
fn numbers_take_nine_and_stop_at_letters() {
    let tokens = lex_str("1990abc").unwrap();
    assert_eq!(types(&tokens), vec![TokenType::NumberLiteral, TokenType::Identifier]);
    assert_eq!(tokens[0].content, "1990");
    assert_eq!(tokens[1].content, "abc");
}

#[test]
fn unknown_character_keeps_tokens_and_rest() {
    match lex_str("1234#") {
        Err(LexerError::PartiallyMatchedInput(tokens, rest)) => {
            assert_eq!(tokens.len(), 1);
            assert_eq!(tokens[0].token_type, TokenType::NumberLiteral);
            assert_eq!(tokens[0].content, "1234");
            assert_eq!(rest, "#");
        }
        _ => panic!("expected a partial match"),
    }
    match lex_str("a @ b c") {
        Err(LexerError::PartiallyMatchedInput(tokens, rest)) => {
            assert_eq!(types(&tokens), vec![TokenType::Identifier]);
            assert_eq!(rest, "@ b c");
        }
        _ => panic!("expected a partial match"),
    }
}

#[test]
fn backslash_at_the_end_exhausts_the_input() {
    assert!(matches!(lex_str("x \"ab\\"), Err(LexerError::EndOfInput)));
}

#[test]
fn unterminated_string_runs_to_the_end() {
    let tokens = lex_str("x \"ab c ").unwrap();
    assert_eq!(types(&tokens), vec![TokenType::Identifier, TokenType::StringLiteral]);
    assert_eq!(tokens[1].content, "\"ab c ");
    assert_eq!((tokens[1].start, tokens[1].end), (2, 8));
}

#[test]
fn escaped_quote_stays_inside_the_string() {
    let tokens = lex_str(r#""a\"b" c"#).unwrap();
    assert_eq!(types(&tokens), vec![TokenType::StringLiteral, TokenType::Identifier]);
    assert_eq!(tokens[0].content, r#""a\"b""#);
}

#[test]
fn keywords_and_identifiers() {
    let tokens = lex_str("if true false null i32 i64 f32 f64 bool ifx _z Zed z9").unwrap();
    assert_eq!(
        types(&tokens),
        vec![
            TokenType::KwIf,
            TokenType::KwTrue,
            TokenType::KwFalse,
            TokenType::KwNull,
            TokenType::KwI32,
            TokenType::KwI64,
            TokenType::KwF32,
            TokenType::KwF64,
            TokenType::KwBool,
            TokenType::Identifier,
            TokenType::Identifier,
            TokenType::Identifier,
            TokenType::Identifier,
        ]
    );
    assert_eq!(tokens[12].content, "z9");
}

#[test]
fn remaining_operators_and_punctuation() {
    let tokens = lex_str("-> ! % & ( ) { } [ ] , ; : ->>").unwrap();
    assert_eq!(
        types(&tokens),
        vec![
            TokenType::Arrow,
            TokenType::Not,
            TokenType::Modulus,
            TokenType::Ampersand,
            TokenType::Lparen,
            TokenType::Rparen,
            TokenType::Lbrace,
            TokenType::Rbrace,
            TokenType::Lbracket,
            TokenType::Rbracket,
            TokenType::Comma,
            TokenType::Semicolon,
            TokenType::Colon,
            TokenType::Arrow,
            TokenType::Gt,
        ]
    );
}

#[test]
fn unicode_whitespace_is_skipped() {
    let tokens = lex_str("\u{3000}a\u{a0}\u{2028}b\u{85}").unwrap();
    assert_eq!(types(&tokens), vec![TokenType::Identifier, TokenType::Identifier]);
    assert_eq!((tokens[0].start, tokens[0].end), (1, 2));
    assert_eq!((tokens[1].start, tokens[1].end), (4, 5));
}

#[test]
fn offsets_count_characters() {
    let tokens = lex_str("\"é\" x").unwrap();
    assert_eq!((tokens[0].start, tokens[0].end), (0, 3));
    assert_eq!((tokens[1].start, tokens[1].end), (4, 5));
}

#[test]
fn whitespace_does_not_change_tokens() {
    let plain = lex_str("a>=b").unwrap();
    let spaced = lex_str("  \t a   >=\n\n b  ").unwrap();
    assert_eq!(types(&plain), types(&spaced));
    let texts = |v: &[Token]| v.iter().map(|t| t.content.clone()).collect::<Vec<String>>();
    assert_eq!(texts(&plain), texts(&spaced));
}

#[test]
fn spans_rebuild_the_input() {
    let source = " a1 = \"s p\" ;\t";
    let input = chars(source);
    let tokens = lex_str(source).unwrap();
    let mut rebuilt = String::new();
    let mut at = 0;
    for t in &tokens {
        assert!(at <= t.start && t.start < t.end);
        let gap: String = input[at..t.start].iter().collect();
        assert!(gap.chars().all(char::is_whitespace));
        rebuilt.push_str(&gap);
        rebuilt.push_str(&t.content);
        at = t.end;
    }
    rebuilt.extend(input[at..].iter());
    assert_eq!(rebuilt, source);
}

#[test]
fn scanning_twice_gives_the_same_tokens() {
    let first = lex_str("x = f(1, \"y\");").unwrap();
    let second = lex_str("x = f(1, \"y\");").unwrap();
    assert_eq!(first.len(), second.len());
    for (a, b) in first.iter().zip(second.iter()) {
        assert_eq!(a.token_type, b.token_type);
        assert_eq!((a.start, a.end), (b.start, b.end));
        assert_eq!(a.content, b.content);
    }
}
