use lispy::{parse_int, tokenize, Token, Tokens};

#[test]
fn tokenize_pads_parentheses() {
    let t = tokenize("(+ 1 (foo -2))");
    assert_eq!(
        t.0,
        vec![
            Token::LParen,
            Token::Symbol("+".to_string()),
            Token::Integer(1),
            Token::LParen,
            Token::Symbol("foo".to_string()),
            Token::Integer(-2),
            Token::RParen,
            Token::RParen,
        ]
    );
    assert_eq!(t.render(), "(+ 1 (foo -2))");
}

#[test]
fn tokens_render_spacing() {
    assert_eq!(tokenize("  a    b  ").render(), "a b");
    assert_eq!(tokenize("(a)b").render(), "(a)b");
    assert_eq!(tokenize("()").render(), "()");
    assert_eq!(tokenize("").render(), "");
    let t = Tokens(vec![Token::Integer(5), Token::LParen]);
    assert_eq!(t.render(), "5 (");
}

#[test]
fn word_classification() {
    assert_eq!(Token::from_word("("), Token::LParen);
    assert_eq!(Token::from_word(")"), Token::RParen);
    assert_eq!(Token::from_word("+7"), Token::Integer(7));
    assert_eq!(Token::from_word("-"), Token::Symbol("-".to_string()));
    assert_eq!(Token::from_word("1x"), Token::Symbol("1x".to_string()));
}

#[test]
fn integer_literals() {
    assert_eq!(parse_int("42"), Some(42));
    assert_eq!(parse_int("-42"), Some(-42));
    assert_eq!(parse_int("+0"), Some(0));
    assert_eq!(parse_int(""), None);
    assert_eq!(parse_int("+"), None);
    assert_eq!(parse_int("4-2"), None);
    assert_eq!(parse_int("9223372036854775807"), Some(i64::MAX));
    assert_eq!(parse_int("9223372036854775808"), None);
    assert_eq!(parse_int("-9223372036854775808"), Some(i64::MIN));
}

#[test]
fn token_text() {
    assert_eq!(Token::Integer(-120).text(), "-120");
    assert_eq!(Token::Symbol("ab".to_string()).text(), "ab");
    assert_eq!(Token::LParen.text(), "(");
}
