use confgen::coerce::{
    boolean, boolean_of_lowercase, canonical_text, coerce, contains_any_token, decimal_text,
    falsy_vocabulary, includes, number, truthy_vocabulary, CoercionError, OptionType, TypedValue,
};

#[test]
fn coerce_number_reads_an_integer() {
    assert_eq!(coerce("42", OptionType::Number), Ok(TypedValue::Integer(42)));
}

#[test]
fn coerce_number_rejects_letters() {
    assert_eq!(
        coerce("abc", OptionType::Number),
        Err(CoercionError::NotANumber("abc".to_string()))
    );
}

#[test]
fn coerce_boolean_ignores_case() {
    assert_eq!(coerce("YES", OptionType::Boolean), Ok(TypedValue::Boolean(true)));
    assert_eq!(coerce("No", OptionType::Boolean), Ok(TypedValue::Boolean(false)));
}

#[test]
fn coerce_boolean_matches_substrings() {
    // "onion" holds "on": a known sharp edge of the substring match.
    assert_eq!(coerce("onion", OptionType::Boolean), Ok(TypedValue::Boolean(true)));
    // "maybe" holds "y", so it says yes as well.
    assert_eq!(coerce("maybe", OptionType::Boolean), Ok(TypedValue::Boolean(true)));
    // "nice" holds "n" and no truthy token.
    assert_eq!(coerce("nice", OptionType::Boolean), Ok(TypedValue::Boolean(false)));
}

#[test]
fn coerce_boolean_rejects_text_without_a_token() {
    assert_eq!(
        coerce("perhaps", OptionType::Boolean),
        Err(CoercionError::NotABoolean("perhaps".to_string()))
    );
    assert_eq!(
        coerce("", OptionType::Boolean),
        Err(CoercionError::NotABoolean(String::new()))
    );
}

#[test]
fn coerce_boolean_checks_truthy_before_falsy() {
    // holds both "yes" and "no"
    assert_eq!(coerce("yes or no", OptionType::Boolean), Ok(TypedValue::Boolean(true)));
    assert_eq!(coerce("no, yes", OptionType::Boolean), Ok(TypedValue::Boolean(true)));
}

#[test]
fn coerce_string_is_the_identity() {
    assert_eq!(
        coerce("  any text ${{x}} ", OptionType::String),
        Ok(TypedValue::String("  any text ${{x}} ".to_string()))
    );
    assert_eq!(coerce("", OptionType::String), Ok(TypedValue::String(String::new())));
}

#[test]
fn number_accepts_signs_and_leading_zeros() {
    assert_eq!(number("0"), Some(0));
    assert_eq!(number("+5"), Some(5));
    assert_eq!(number("-5"), Some(-5));
    assert_eq!(number("-0"), Some(0));
    assert_eq!(number("00012"), Some(12));
    assert_eq!(number("0000000000000000000000000000001"), Some(1));
}

#[test]
fn number_keeps_to_32_bits() {
    assert_eq!(number("2147483647"), Some(i32::MAX));
    assert_eq!(number("2147483648"), None);
    assert_eq!(number("-2147483648"), Some(i32::MIN));
    assert_eq!(number("-2147483649"), None);
    assert_eq!(number("99999999999999999999999999"), None);
    assert_eq!(number("-99999999999999999999999999"), None);
}

#[test]
fn number_rejects_everything_else() {
    for text in ["", "-", "+", "+-1", "--1", "1.5", " 1", "1 ", "1_000", "0x10", "1e3", "١٢", "4２"] {
        assert_eq!(number(text), None, "{:?}", text);
    }
}

#[test]
fn number_agrees_with_the_standard_parser() {
    let samples = [
        "", "0", "7", "-7", "+7", "42", "-42", "007", "-007", "+007", "2147483646", "2147483647",
        "2147483648", "2147483649", "-2147483647", "-2147483648", "-2147483649", "21474836470",
        "4294967296", "abc", "12a", "a12", "1-2", "1+2", "+", "-", " ", "\n", "1\n", "٣", "½",
        "−1", "1,0", ".5", "5.",
    ];
    for text in samples {
        assert_eq!(number(text), text.parse::<i32>().ok(), "{:?}", text);
    }
    for n in [-100_000, -1001, -1000, -11, -10, -9, -1, 0, 1, 9, 10, 11, 99, 100, 101, 65_536] {
        assert_eq!(number(&n.to_string()), Some(n));
    }
}

#[test]
fn includes_lowercases_the_value() {
    assert!(includes("YES", &["yes"]));
    assert!(includes("Sure, Yes.", &["nope", "yes"]));
    assert!(!includes("YES", &["no"]));
    assert!(!includes("yes", &[]));
    assert!(includes("ÉCOLE", &["école"]));
}

#[test]
fn includes_does_not_lowercase_the_tokens() {
    assert!(!includes("yes", &["YES"]));
}

#[test]
fn contains_any_token_takes_the_text_as_it_is() {
    assert!(contains_any_token("say yes", &["no", "yes"]));
    assert!(!contains_any_token("say YES", &["no", "yes"]));
    assert!(!contains_any_token("", &["a"]));
    assert!(contains_any_token("", &[""]));
    assert!(!contains_any_token("abc", &[]));
}

#[test]
fn vocabularies_hold_the_known_tokens() {
    assert_eq!(
        truthy_vocabulary(),
        ["yes", "true", "y", "yea", "yeah", "yep", "yup", "1", "on"]
    );
    assert_eq!(falsy_vocabulary(), ["no", "false", "n", "nope", "0", "off"]);
}

#[test]
fn boolean_reads_every_token() {
    for token in truthy_vocabulary() {
        assert_eq!(boolean(token), Some(true), "{}", token);
        assert_eq!(boolean(&token.to_uppercase()), Some(true), "{}", token);
        assert_eq!(boolean_of_lowercase(token), Some(true), "{}", token);
    }
    for token in ["no", "false", "nope", "0", "off", "n"] {
        assert_eq!(boolean(token), Some(false), "{}", token);
        assert_eq!(boolean(&token.to_uppercase()), Some(false), "{}", token);
        assert_eq!(boolean_of_lowercase(token), Some(false), "{}", token);
    }
}

#[test]
fn boolean_of_lowercase_does_not_fold_case() {
    assert_eq!(boolean_of_lowercase("TRUE"), None);
    assert_eq!(boolean("TRUE"), Some(true));
    assert_eq!(boolean_of_lowercase("OFF"), None);
    assert_eq!(boolean("OFF"), Some(false));
}

#[test]
fn boolean_finds_nothing_in_other_text() {
    assert_eq!(boolean(""), None);
    assert_eq!(boolean("perhaps"), None);
    assert_eq!(boolean("2"), None);
}

#[test]
fn decimal_text_writes_canonical_decimals() {
    for n in [0, 1, -1, 9, 10, 42, -42, 100, 1_000_000, i32::MAX, i32::MIN, i32::MIN + 1] {
        let text: String = decimal_text(n).into_iter().collect();
        assert_eq!(text, n.to_string());
        assert_eq!(number(&text), Some(n));
    }
}

#[test]
fn canonical_text_of_each_kind() {
    let text = |value: TypedValue| -> String { canonical_text(&value).into_iter().collect() };
    assert_eq!(text(TypedValue::String("as it is".to_string())), "as it is");
    assert_eq!(text(TypedValue::String(String::new())), "");
    assert_eq!(text(TypedValue::Integer(-17)), "-17");
    assert_eq!(text(TypedValue::Integer(0)), "0");
    assert_eq!(text(TypedValue::Boolean(true)), "true");
    assert_eq!(text(TypedValue::Boolean(false)), "false");
}
