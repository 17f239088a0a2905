use zpack::package::spec::{tokenize_option, OptionToken, TokenError};

fn named(s: &str) -> OptionToken {
    OptionToken::Named(s.to_string())
}

#[test]
fn signs_and_names_are_cut_apart() {
    assert_eq!(tokenize_option("+static").unwrap(), vec![OptionToken::Plus, named("static")]);
    assert_eq!(tokenize_option("~static").unwrap(), vec![OptionToken::Tilde, named("static")]);
    assert_eq!(
        tokenize_option("a = [b,c]").unwrap(),
        vec![
            named("a"),
            OptionToken::Space,
            OptionToken::Equal,
            OptionToken::Space,
            OptionToken::OpenSquare,
            named("b"),
            OptionToken::Comma,
            named("c"),
            OptionToken::CloseSquare,
        ]
    );
    assert_eq!(tokenize_option("").unwrap(), vec![]);
}

#[test]
fn a_minus_is_a_sign_before_it_is_part_of_a_name() {
    assert_eq!(tokenize_option("-my-opt_1").unwrap(), vec![OptionToken::Minus, named("my-opt_1")]);
}

#[test]
fn truth_values_are_read_in_any_case() {
    assert_eq!(tokenize_option("true").unwrap(), vec![OptionToken::Bool(true)]);
    assert_eq!(tokenize_option("FALSE").unwrap(), vec![OptionToken::Bool(false)]);
    assert_eq!(
        tokenize_option("x=TrUe").unwrap(),
        vec![named("x"), OptionToken::Equal, OptionToken::Bool(true)]
    );
    assert_eq!(tokenize_option("trueish").unwrap(), vec![OptionToken::Bool(true), named("ish")]);
    assert_eq!(tokenize_option("tru").unwrap(), vec![named("tru")]);
}

#[test]
fn numbers_are_handed_out_as_written() {
    assert_eq!(
        tokenize_option("num=1_000").unwrap(),
        vec![named("num"), OptionToken::Equal, OptionToken::Number("1_000".to_string())]
    );
    assert_eq!(
        tokenize_option("1.5e-3,2").unwrap(),
        vec![
            OptionToken::Number("1.5e-3".to_string()),
            OptionToken::Comma,
            OptionToken::Number("2".to_string()),
        ]
    );
    assert_eq!(tokenize_option("12ab").unwrap(), vec![OptionToken::Number("12".to_string()), named("ab")]);
}

#[test]
fn quoted_texts_are_read_with_their_escapes() {
    assert_eq!(
        tokenize_option("str='Hello, World!'").unwrap(),
        vec![named("str"), OptionToken::Equal, OptionToken::Str("Hello, World!".to_string())]
    );
    assert_eq!(
        tokenize_option("\"This \\\"is\\\" quoted\"").unwrap(),
        vec![OptionToken::Str("This \"is\" quoted".to_string())]
    );
    assert_eq!(
        tokenize_option("\"'''\"").unwrap(),
        vec![OptionToken::Str("'''".to_string())]
    );
    assert_eq!(
        tokenize_option("'a\\tb\\nc\\\\d\\'e'").unwrap(),
        vec![OptionToken::Str("a\tb\nc\\d'e".to_string())]
    );
    assert_eq!(tokenize_option("''").unwrap(), vec![OptionToken::Str(String::new())]);
}

#[test]
fn what_cannot_be_cut_is_told() {
    assert_eq!(tokenize_option("'open"), Err(TokenError::UnexpectedEnd));
    assert_eq!(tokenize_option("'open\\"), Err(TokenError::UnexpectedEnd));
    assert_eq!(tokenize_option("'a\\qb'"), Err(TokenError::InvalidEscape(b'q')));
    assert_eq!(tokenize_option("ab!"), Err(TokenError::UnexpectedByte { at: 2, byte: b'!' }));
    assert_eq!(tokenize_option("x=(1)"), Err(TokenError::UnexpectedByte { at: 2, byte: b'(' }));
}
