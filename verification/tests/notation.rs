use konnect_core::blocks::find_balanced_block;
use konnect_core::decimal::{parse_i32, parse_unsigned, push_decimal, signed_decimal_text};
use konnect_core::json::{number_from, parse_json, pretty_json, Json};
use konnect_core::sexp::{parse_sexp, SexpNode};
use konnect_core::text::{chars_of, count_matches, spliced};

#[test]
fn expressions_are_words_texts_and_lists() {
    let tree = parse_sexp("(a \"b \\\"c\\\" \\n\" (d 1.5) () \"\")").unwrap();
    assert!(tree.is_named("a"));
    assert_eq!(tree.get_str(1), Some("b \"c\" \n"));
    assert_eq!(tree.find_str("d"), Some("1.5"));
    assert_eq!(tree.get(2).unwrap().get_number(1), Some("1.5"));
    assert_eq!(tree.get(2).unwrap().get_number(0), None);
    assert!(matches!(tree.get(3), Some(SexpNode::List(v)) if v.is_empty()));
    assert_eq!(tree.get_str(4), Some(""));
    assert!(tree.get(5).is_none());
    assert_eq!(tree.find_all("d").len(), 1);
}

#[test]
fn texts_that_are_not_one_expression_are_refused() {
    for text in ["", "(", ")", "(a))", "(a) b", "\"open", "(a \"b\\"] {
        assert!(parse_sexp(text).is_err(), "{text}");
    }
    assert!(parse_sexp(" word ").is_ok());
}

#[test]
fn blocks_end_at_their_own_parenthesis() {
    let s = chars_of("x(a \")\\\")\" (b))) y");
    assert_eq!(find_balanced_block(&s, 1), Some(15));
    assert_eq!(find_balanced_block(&s, 0), None);
    assert_eq!(find_balanced_block(&chars_of("(a (b)"), 0), None);
}

#[test]
fn numbers_are_read_and_written_in_decimal() {
    let mut text = String::from("n = ");
    push_decimal(&mut text, u64::MAX);
    assert_eq!(text, "n = 18446744073709551615");
    assert_eq!(signed_decimal_text(i32::MIN), "-2147483648");
    let read = |t: &str| parse_i32(&chars_of(t), 0, t.len());
    assert_eq!(read("-2147483648"), Some(i32::MIN));
    assert_eq!(read("2147483648"), None);
    assert_eq!(read("+7"), Some(7));
    assert_eq!(read(""), None);
    assert_eq!(read("-"), None);
    assert_eq!(parse_unsigned(&chars_of("007x"), 0, 3), Some(7));
}

#[test]
fn text_is_searched_and_spliced_by_characters() {
    let s = chars_of("ä(net ä(net ");
    assert_eq!(count_matches(&s, &chars_of("(net ")), 2);
    assert_eq!(spliced(&s, 1, 6, "-"), "ä-ä(net ");
}

#[test]
fn documents_read_back_as_they_were_written() {
    let text = "{\n  \"b\": [\n    1,\n    2.5,\n    true,\n    null,\n    \"ü\\\"\"\n  ],\n  \"a\": {}\n}";
    let j = parse_json(text).unwrap();
    assert_eq!(pretty_json(&j), text);
    assert!(matches!(parse_json(&pretty_json(&j)), Ok(Json::Object(_))));
    assert!(parse_json("{\"a\": }").is_err());
    // The last of several values for a key counts.
    assert_eq!(parse_json(r#"{"a": 1, "a": 2}"#).unwrap().get_unsigned("a"), Some(2));
    // Too deep for the reader.
    let deep = |n: usize| format!("{}{}", "[".repeat(n), "]".repeat(n));
    assert!(parse_json(&deep(127)).is_ok());
    assert!(parse_json(&deep(128)).is_err());
}

#[test]
fn short_decimals_are_numbers() {
    assert_eq!(number_from("0.25").as_f64(), Some(0.25));
    assert_eq!(number_from("12").as_u64(), Some(12));
    let j = parse_json(r#"{"n": -3, "m": 2.0}"#).unwrap();
    assert_eq!(j.get_unsigned("n"), None);
    assert_eq!(j.get_unsigned("m"), None);
    assert_eq!(j.get_float("n").unwrap().as_f64(), Some(-3.0));
}
