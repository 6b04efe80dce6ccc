use git_dagger::cli::{chars_of, classify_argument, parse_count, ArgumentError, Setting};

#[test]
fn count_option_is_read() {
    assert_eq!(classify_argument("--count=30"), Ok(Setting::Count(30)));
    assert_eq!(classify_argument("--count=0"), Ok(Setting::Count(0)));
    assert_eq!(classify_argument("--count=+7"), Ok(Setting::Count(7)));
}

#[test]
fn count_option_refuses_non_numbers() {
    assert_eq!(classify_argument("--count="), Err(ArgumentError::BadCount));
    assert_eq!(classify_argument("--count=-1"), Err(ArgumentError::BadCount));
    assert_eq!(classify_argument("--count=+"), Err(ArgumentError::BadCount));
    assert_eq!(classify_argument("--count=1.5"), Err(ArgumentError::BadCount));
    assert_eq!(classify_argument("--count=ten"), Err(ArgumentError::BadCount));
}

#[test]
fn linearity_option_hands_back_its_text() {
    assert_eq!(
        classify_argument("--linearity=-0.25"),
        Ok(Setting::Linearity(chars_of("-0.25")))
    );
    assert_eq!(classify_argument("--linearity=a=b"), Ok(Setting::Linearity(chars_of("a=b"))));
}

#[test]
fn argument_without_equals_is_unknown() {
    assert_eq!(classify_argument("--count"), Err(ArgumentError::UnknownArgument));
    assert_eq!(classify_argument(""), Err(ArgumentError::UnknownArgument));
}

#[test]
fn unknown_option_is_named() {
    assert_eq!(classify_argument("--size=3"), Err(ArgumentError::UnknownOption(chars_of("--size"))));
    assert_eq!(classify_argument("=3"), Err(ArgumentError::UnknownOption(vec![])));
    assert_eq!(classify_argument("--Count=3"), Err(ArgumentError::UnknownOption(chars_of("--Count"))));
}

#[test]
fn parse_count_matches_usize_parsing() {
    let cases = [
        "0", "42", "+42", "007", "", "+", "-3", " 1", "1 ", "18446744073709551615",
        "18446744073709551616", "99999999999999999999999", "12a",
    ];
    for text in cases {
        assert_eq!(parse_count(&chars_of(text)), text.parse::<usize>().ok(), "text {:?}", text);
    }
    assert_eq!(parse_count(&chars_of(&usize::MAX.to_string())), Some(usize::MAX));
}

#[test]
fn chars_of_keeps_every_character() {
    assert_eq!(chars_of("aé="), vec!['a', 'é', '=']);
    assert_eq!(chars_of(""), Vec::<char>::new());
}
