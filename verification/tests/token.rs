use altr::casing::Casing;
use altr::error::Error;
use altr::token::{Token, TokenError};

const ALL: [Casing; 8] = [
    Casing::Camel,
    Casing::Pascal,
    Casing::Lower,
    Casing::Kebab,
    Casing::Snake,
    Casing::Upper,
    Casing::UpperSnake,
    Casing::UpperKebab,
];

fn canonical(token: &Token) -> String {
    format!("{:?}", token)
}

#[test]
fn camel_case_is_split_at_uppercase() {
    let token = Token::from_camel_case("myNewUser").unwrap();
    assert_eq!(canonical(&token), "Token(\"my,new,user\")");
}

#[test]
fn camel_case_refuses_leading_uppercase() {
    assert!(Token::from_camel_case("MyNewUser").is_none());
}

#[test]
fn pascal_case_is_split_at_uppercase() {
    let token = Token::from_pascal_case("MyNewUser").unwrap();
    assert_eq!(canonical(&token), "Token(\"my,new,user\")");
}

#[test]
fn pascal_case_refuses_leading_lowercase() {
    assert!(Token::from_pascal_case("myNewUser").is_none());
}

#[test]
fn empty_input_gives_empty_token() {
    assert_eq!(canonical(&Token::from_camel_case("").unwrap()), "Token(\"\")");
    assert_eq!(canonical(&Token::from_pascal_case("").unwrap()), "Token(\"\")");
    assert_eq!(canonical(&Token::from_snake_case("").unwrap()), "Token(\"\")");
}

#[test]
fn separators_become_word_boundaries() {
    assert_eq!(
        canonical(&Token::from_snake_case("my_new_user").unwrap()),
        "Token(\"my,new,user\")"
    );
    assert_eq!(
        canonical(&Token::from_kebab_case("my-new-user").unwrap()),
        "Token(\"my,new,user\")"
    );
    assert_eq!(
        canonical(&Token::from_upper_snake_case("MY_NEW_USER").unwrap()),
        "Token(\"my,new,user\")"
    );
    assert_eq!(
        canonical(&Token::from_upper_kebab_case("MY-NEW-USER").unwrap()),
        "Token(\"my,new,user\")"
    );
}

#[test]
fn flat_conventions_keep_one_word() {
    let lower = Token::from_casing(&Casing::Lower, "user").unwrap();
    assert_eq!(canonical(&lower), "Token(\"user\")");
    let upper = Token::from_casing(&Casing::Upper, "USER").unwrap();
    assert_eq!(canonical(&upper), "Token(\"user\")");
}

#[test]
fn renders_every_convention() {
    let token = Token::from_snake_case("my_new_user").unwrap();
    assert_eq!(token.to_camel_case(), "myNewUser");
    assert_eq!(token.to_pascal_case(), "MyNewUser");
    assert_eq!(token.to_snake_case(), "my_new_user");
    assert_eq!(token.to_kebab_case(), "my-new-user");
    assert_eq!(token.to_upper_snake_case(), "MY_NEW_USER");
    assert_eq!(token.to_upper_kebab_case(), "MY-NEW-USER");
}

#[test]
fn try_to_casing_agrees_with_the_single_renderers() {
    let token = Token::from_snake_case("my_new_user").unwrap();
    assert_eq!(token.try_to_casing(&Casing::Camel).unwrap(), "myNewUser");
    assert_eq!(token.try_to_casing(&Casing::Pascal).unwrap(), "MyNewUser");
    assert_eq!(token.try_to_casing(&Casing::Snake).unwrap(), "my_new_user");
    assert_eq!(token.try_to_casing(&Casing::Kebab).unwrap(), "my-new-user");
    assert_eq!(
        token.try_to_casing(&Casing::UpperSnake).unwrap(),
        "MY_NEW_USER"
    );
    assert_eq!(
        token.try_to_casing(&Casing::UpperKebab).unwrap(),
        "MY-NEW-USER"
    );
}

#[test]
fn several_words_are_ambiguous_in_flat_conventions() {
    let token = Token::from_camel_case("myUser").unwrap();
    assert_eq!(
        token.try_to_lower_case().unwrap_err(),
        TokenError::AmbiguousToLowerCase
    );
    assert_eq!(
        token.try_to_upper_case().unwrap_err(),
        TokenError::AmbiguousToUpperCase
    );
    assert_eq!(
        token.try_to_casing(&Casing::Lower).unwrap_err(),
        TokenError::AmbiguousToLowerCase
    );
    assert_eq!(
        token.try_to_casing(&Casing::Upper).unwrap_err(),
        TokenError::AmbiguousToUpperCase
    );
}

#[test]
fn one_word_renders_flat() {
    let token = Token::from_camel_case("user").unwrap();
    assert_eq!(token.try_to_lower_case().unwrap(), "user");
    assert_eq!(token.try_to_upper_case().unwrap(), "USER");
    assert_eq!(token.to_camel_case(), "user");
    assert_eq!(token.to_pascal_case(), "User");
    assert_eq!(token.to_snake_case(), "user");
}

#[test]
fn empty_words_vanish_in_camel_and_pascal() {
    let token = Token::from_snake_case("a__b").unwrap();
    assert_eq!(token.to_camel_case(), "aB");
    assert_eq!(token.to_pascal_case(), "AB");
    assert_eq!(token.to_kebab_case(), "a--b");
    let lone = Token::from_snake_case("_").unwrap();
    assert_eq!(lone.to_camel_case(), "");
    assert_eq!(lone.to_pascal_case(), "");
    assert_eq!(lone.to_upper_kebab_case(), "-");
}

#[test]
fn digits_and_other_scripts_pass_through() {
    let token = Token::from_camel_case("num123Value").unwrap();
    assert_eq!(token.to_snake_case(), "num123_value");
    assert_eq!(token.to_upper_snake_case(), "NUM123_VALUE");
    let accented = Token::from_snake_case("caf\u{e9}_cr\u{e8}me").unwrap();
    assert_eq!(accented.to_upper_snake_case(), "CAF\u{e9}_CR\u{e8}ME");
    assert_eq!(accented.to_pascal_case(), "Caf\u{e9}Cr\u{e8}me");
}

#[test]
fn from_casing_reports_what_it_could_not_read() {
    let err = Token::from_casing(&Casing::Camel, "OldUser").unwrap_err();
    assert_eq!(
        err,
        "Failed to obtain token from specified casing: Camel and input: OldUser"
    );
    let err = Token::from_casing(&Casing::Pascal, "oldUser").unwrap_err();
    assert_eq!(
        err,
        "Failed to obtain token from specified casing: Pascal and input: oldUser"
    );
}

#[test]
fn parse_reads_the_detected_convention() {
    assert_eq!(
        canonical(&Token::parse("OLD-USER").unwrap()),
        "Token(\"old,user\")"
    );
    assert_eq!(
        canonical(&"oldUser".parse::<Token>().unwrap()),
        "Token(\"old,user\")"
    );
    match Token::parse("in-Va_lid") {
        Err(Error::Custom(s)) => assert_eq!(s, "in-Va_lid"),
        other => panic!("unexpected: {:?}", other),
    }
}

#[test]
fn round_trip_restores_the_identifier() {
    let inputs = vec![
        "user",
        "num123",
        "USER",
        "NUM123",
        "oldUser",
        "withMixedCase",
        "a1B2",
        "OldUser",
        "Num123",
        "ABc",
        "old_user",
        "_",
        "a__b_",
        "num_123",
        "old-user",
        "-x-",
        "OLD_USER",
        "A_",
        "NUM_123",
        "OLD-USER",
        "-A",
        "\u{e9}cole",
        "\u{c9}COLE",
        "gr\u{f6}\u{df}eWert",
        "a b.C",
    ];
    for s in inputs {
        let casing = Casing::detect_casing(s).unwrap();
        let token = Token::from_casing(&casing, s).unwrap();
        assert_eq!(token.try_to_casing(&casing).unwrap(), s, "{:?}", casing);
    }
}

#[test]
fn round_trip_fails_only_on_the_separator() {
    let casing = Casing::detect_casing("a,b").unwrap();
    assert_eq!(casing, Casing::Camel);
    let token = Token::from_casing(&casing, "a,b").unwrap();
    assert_eq!(token.try_to_casing(&casing).unwrap(), "aB");
}

#[test]
fn every_convention_is_rendered_or_refused() {
    let one = Token::from_snake_case("user").unwrap();
    let two = Token::from_snake_case("old_user").unwrap();
    for casing in ALL {
        assert!(one.try_to_casing(&casing).is_ok());
        let flat = casing == Casing::Lower || casing == Casing::Upper;
        assert_eq!(two.try_to_casing(&casing).is_err(), flat);
    }
}
