use oyasmi::tokenizer::{tokenize, tokenize_chars, CharClass, LexError, Token};

#[test]
fn test_int() {
    let input = "123".to_string();
    let expected = vec![Token::Int(123)];
    let actual = tokenize(&input).unwrap();

    assert_eq!(expected, actual);
}

#[test]
fn test_tokenize_add() {
    let input = "123+456".to_string();
    let expected = vec![Token::Int(123), Token::Add, Token::Int(456)];
    let actual = tokenize(&input).unwrap();

    assert_eq!(expected, actual);
}

#[test]
fn test_tokenize_sub() {
    let input = "123-456".to_string();
    let expected = vec![Token::Int(123), Token::Sub, Token::Int(456)];
    let actual = tokenize(&input).unwrap();

    assert_eq!(expected, actual);
}

#[test]
fn test_tokenize_mul() {
    let input = "123*456".to_string();
    let expected = vec![Token::Int(123), Token::Mul, Token::Int(456)];
    let actual = tokenize(&input).unwrap();

    assert_eq!(expected, actual);
}

#[test]
fn test_tokenize_div() {
    let input = "123/456".to_string();
    let expected = vec![Token::Int(123), Token::Div, Token::Int(456)];
    let actual = tokenize(&input).unwrap();

    assert_eq!(expected, actual);
}

#[test]
fn test_skip_whitespace() {
    let input = " 123 + 456 ".to_string();
    let expected = vec![Token::Int(123), Token::Add, Token::Int(456)];
    let actual = tokenize(&input).unwrap();

    assert_eq!(expected, actual);
}

#[test]
fn tokenize_all_symbols() {
    let actual = tokenize("+-*/();=").unwrap();
    let expected = vec![
        Token::Add,
        Token::Sub,
        Token::Mul,
        Token::Div,
        Token::Lparen,
        Token::Rparen,
        Token::Semicolon,
        Token::Assign,
    ];
    assert_eq!(expected, actual);
}

#[test]
fn tokenize_names_and_assignment() {
    let actual = tokenize("abc = x_1 * 2;").unwrap();
    let expected = vec![
        Token::Identifier("abc".to_string()),
        Token::Assign,
        Token::Identifier("x_1".to_string()),
        Token::Mul,
        Token::Int(2),
        Token::Semicolon,
    ];
    assert_eq!(expected, actual);
}

#[test]
fn tokenize_digits_then_letters_split() {
    let actual = tokenize("12ab").unwrap();
    assert_eq!(vec![Token::Int(12), Token::Identifier("ab".to_string())], actual);
}

#[test]
fn tokenize_other_whitespace() {
    let actual = tokenize("\t1\n+\r\n2\u{A0}").unwrap();
    assert_eq!(vec![Token::Int(1), Token::Add, Token::Int(2)], actual);
}

#[test]
fn tokenize_empty_text() {
    assert_eq!(Vec::<Token>::new(), tokenize("").unwrap());
    assert_eq!(Vec::<Token>::new(), tokenize("   ").unwrap());
}

#[test]
fn tokenize_unknown_character_position() {
    assert_eq!(Err(LexError::UnknownCharacter('$', 2)), tokenize("1 $ 2"));
}

#[test]
fn tokenize_unknown_character_after_wide_character() {
    assert_eq!(Err(LexError::UnknownCharacter('#', 2)), tokenize("\u{3000}1#"));
}

#[test]
fn tokenize_largest_literal() {
    assert_eq!(vec![Token::Int(2147483647)], tokenize("2147483647").unwrap());
    assert_eq!(vec![Token::Int(7)], tokenize("0000000000007").unwrap());
}

#[test]
fn tokenize_literal_out_of_range() {
    assert_eq!(Err(LexError::IntegerOutOfRange(2)), tokenize("1+2147483648"));
    assert_eq!(Err(LexError::IntegerOutOfRange(0)), tokenize("99999999999999999999999"));
}

#[test]
fn lexing_twice_gives_same_tokens() {
    let text = "x = (1 + 22) * y; x / 3";
    let first = tokenize(text);
    let second = tokenize(text);
    assert_eq!(first, second);
    assert_eq!(13, first.unwrap().len());
}

fn class(space: bool, alphabetic: bool, alphanumeric: bool) -> CharClass {
    CharClass { space, alphabetic, alphanumeric }
}

#[test]
fn tokenize_chars_follows_classes() {
    let chars = vec!['1', '#', '2'];
    let plain = class(false, false, false);
    assert_eq!(
        vec![Token::Int(1), Token::Int(2)],
        tokenize_chars(&chars, &vec![plain, class(true, false, false), plain]).unwrap()
    );
    assert_eq!(
        Err(LexError::UnknownCharacter('#', 1)),
        tokenize_chars(&chars, &vec![plain, plain, plain])
    );
    let chars = vec!['#', '#', '1'];
    assert_eq!(
        vec![Token::Identifier("##1".to_string())],
        tokenize_chars(
            &chars,
            &vec![class(false, true, true), class(false, false, true), class(false, false, true)]
        )
        .unwrap()
    );
    assert_eq!(
        vec![Token::Identifier("##".to_string()), Token::Int(1)],
        tokenize_chars(&chars, &vec![class(false, true, true), class(false, false, true), plain])
            .unwrap()
    );
}

#[test]
fn tokenize_non_ascii_name() {
    assert_eq!(Err(LexError::UnknownCharacter('$', 1)), tokenize("é$"));
    let actual = tokenize("größe = 2; größe").unwrap();
    let expected = vec![
        Token::Identifier("größe".to_string()),
        Token::Assign,
        Token::Int(2),
        Token::Semicolon,
        Token::Identifier("größe".to_string()),
    ];
    assert_eq!(expected, actual);
}

#[test]
fn tokenize_name_continues_with_any_numeral() {
    assert_eq!(vec![Token::Identifier("x٣_7".to_string())], tokenize("x٣_7").unwrap());
    assert_eq!(vec![Token::Identifier("_".to_string())], tokenize("_").unwrap());
}

#[test]
fn tokenize_non_ascii_digit_cannot_start_a_name() {
    assert_eq!(Err(LexError::UnknownCharacter('٣', 0)), tokenize("٣"));
}
