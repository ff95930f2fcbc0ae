use toyparse::{Token, Tokenizer};

fn tokens(src: &str) -> Vec<Token> {
    let mut t = Tokenizer::new(src.to_string());
    let mut out = Vec::new();
    while let Some(tok) = t.next() {
        out.push(tok);
    }
    out
}

#[test]
fn digit_string_gives_one_number_token() {
    for s in ["0", "7", "42", "007", "2147483647"] {
        assert_eq!(tokens(s), vec![Token::NumberLiteral(s.to_string())]);
    }
}

#[test]
fn long_digit_run_is_still_one_number_token() {
    assert_eq!(
        tokens("99999999999"),
        vec![Token::NumberLiteral("99999999999".to_string())]
    );
}

#[test]
fn whitespace_only_gives_no_tokens() {
    assert!(tokens("").is_empty());
    assert!(tokens(" ").is_empty());
    assert!(tokens(" \t\n\r\x0b\x0c  ").is_empty());
}

#[test]
fn operators_and_punctuation_stand_alone() {
    assert_eq!(
        tokens("+-=;()*/"),
        vec![
            Token::Plus,
            Token::Minus,
            Token::Equals,
            Token::Semicolon,
            Token::LParen,
            Token::RParen,
            Token::Star,
            Token::FSlash,
        ]
    );
}

#[test]
fn sign_is_a_separate_token() {
    assert_eq!(
        tokens("-5"),
        vec![Token::Minus, Token::NumberLiteral("5".to_string())]
    );
}

#[test]
fn declaration_line_is_tokenized() {
    assert_eq!(
        tokens("mut x: i32 = 5;"),
        vec![
            Token::Mut,
            Token::Symbol("x:".to_string()),
            Token::TypeSpecifier("i32".to_string()),
            Token::Equals,
            Token::NumberLiteral("5".to_string()),
            Token::Semicolon,
        ]
    );
}

#[test]
fn word_runs_up_to_whitespace_or_semicolon() {
    assert_eq!(
        tokens("a+b;c\td"),
        vec![
            Token::Symbol("a+b".to_string()),
            Token::Semicolon,
            Token::Symbol("c".to_string()),
            Token::Symbol("d".to_string()),
        ]
    );
}

#[test]
fn digits_then_letters_split() {
    assert_eq!(
        tokens("12ab"),
        vec![
            Token::NumberLiteral("12".to_string()),
            Token::Symbol("ab".to_string()),
        ]
    );
}

#[test]
fn tokenizer_stays_spent() {
    let mut t = Tokenizer::new("1".to_string());
    assert_eq!(t.next(), Some(Token::NumberLiteral("1".to_string())));
    assert_eq!(t.next(), None);
    assert_eq!(t.next(), None);
}

#[test]
fn classify_keywords_and_operators() {
    assert_eq!(Token::classify("mut"), Token::Mut);
    assert_eq!(Token::classify("i32"), Token::TypeSpecifier("i32".to_string()));
    assert_eq!(Token::classify("="), Token::Equals);
    assert_eq!(Token::classify(";"), Token::Semicolon);
    assert_eq!(Token::classify("("), Token::LParen);
    assert_eq!(Token::classify(")"), Token::RParen);
    assert_eq!(Token::classify("+"), Token::Plus);
    assert_eq!(Token::classify("-"), Token::Minus);
    assert_eq!(Token::classify("*"), Token::Star);
    assert_eq!(Token::classify("/"), Token::FSlash);
}

#[test]
fn classify_numbers_by_i32_reading() {
    assert_eq!(Token::classify("42"), Token::NumberLiteral("42".to_string()));
    assert_eq!(Token::classify("+7"), Token::NumberLiteral("+7".to_string()));
    assert_eq!(
        Token::classify("-2147483648"),
        Token::NumberLiteral("-2147483648".to_string())
    );
    assert_eq!(
        Token::classify("2147483648"),
        Token::Symbol("2147483648".to_string())
    );
    assert_eq!(Token::classify("1a"), Token::Symbol("1a".to_string()));
    assert_eq!(Token::classify("mutable"), Token::Symbol("mutable".to_string()));
    assert_eq!(Token::classify(""), Token::Symbol(String::new()));
}

#[test]
fn from_str_never_fails() {
    let t: Token = "i32".parse().unwrap();
    assert_eq!(t, Token::TypeSpecifier("i32".to_string()));
    let u: Token = "foo".parse().unwrap();
    assert_eq!(u, Token::Symbol("foo".to_string()));
}

#[test]
fn from_str_falls_back_by_i32_reading() {
    let big: Token = "2147483648".parse().unwrap();
    assert_eq!(big, Token::Symbol("2147483648".to_string()));
    let neg: Token = "-7".parse().unwrap();
    assert_eq!(neg, Token::NumberLiteral("-7".to_string()));
    let wide: Token = "i64".parse().unwrap();
    assert_eq!(wide, Token::Symbol("i64".to_string()));
    let star: Token = "*".parse().unwrap();
    assert_eq!(star, Token::Star);
}
