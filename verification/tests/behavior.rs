use logstream::{parse, DecodeError, ServerLog};

#[test]
fn empty_input_yields_empty_sequence() {
    let got = parse("").unwrap();
    assert_eq!(got.len(), 0);
}

#[test]
fn whitespace_only_input_yields_empty_sequence() {
    let got = parse(" \t\r\n  \n").unwrap();
    assert_eq!(got.len(), 0);
}

#[test]
fn records_come_back_in_stream_order() {
    let got = parse(
        r#"{"user_id": 1, "username": "first"} {"user_id": 2, "username": "second"} {"user_id": 3, "username": "third"}"#,
    )
    .unwrap();
    let want = vec![
        ServerLog {
            user_id: 1,
            username: String::from("first"),
        },
        ServerLog {
            user_id: 2,
            username: String::from("second"),
        },
        ServerLog {
            user_id: 3,
            username: String::from("third"),
        },
    ];
    assert_eq!(got, want);
}

#[test]
fn adjacent_objects_need_no_whitespace() {
    let got = parse(r#"{"user_id":1,"username":"a"}{"user_id":2,"username":"b"}"#).unwrap();
    assert_eq!(got.len(), 2);
    assert_eq!(got[1].user_id, 2);
}

#[test]
fn identical_streams_decode_identically() {
    let text = r#"{"user_id": 7, "username": "same"} {"user_id": 8, "username": "again"}"#;
    let first_copy = String::from(text);
    let second_copy = format!(
        "{} {}",
        r#"{"user_id": 7, "username": "same"}"#, r#"{"user_id": 8, "username": "again"}"#
    );
    let first = parse(&first_copy);
    let second = parse(&second_copy);
    assert_eq!(first, second);
    assert!(first.is_ok());
}

#[test]
fn user_id_as_string_is_a_schema_error() {
    let got = parse(r#"{"user_id": "not-a-number", "username": "X"}"#);
    assert_eq!(got, Err(DecodeError::Schema));
}

#[test]
fn username_as_number_is_a_schema_error() {
    let got = parse(r#"{"user_id": 1, "username": 5}"#);
    assert_eq!(got, Err(DecodeError::Schema));
}

#[test]
fn missing_user_id_is_a_schema_error() {
    let got = parse(r#"{"username": "only-a-name"}"#);
    assert_eq!(got, Err(DecodeError::Schema));
}

#[test]
fn missing_username_is_a_schema_error() {
    let got = parse(r#"{"user_id": 9}"#);
    assert_eq!(got, Err(DecodeError::Schema));
}

#[test]
fn empty_object_is_a_schema_error() {
    let got = parse("{}");
    assert_eq!(got, Err(DecodeError::Schema));
}

#[test]
fn repeated_record_field_is_a_schema_error() {
    let got = parse(r#"{"user_id": 1, "user_id": 2, "username": "twice"}"#);
    assert_eq!(got, Err(DecodeError::Schema));
}

#[test]
fn top_level_non_object_is_a_schema_error() {
    assert_eq!(parse("[1, 2]"), Err(DecodeError::Schema));
    assert_eq!(parse("42"), Err(DecodeError::Schema));
    assert_eq!(parse("null"), Err(DecodeError::Schema));
    assert_eq!(parse("true"), Err(DecodeError::Schema));
    assert_eq!(parse(r#""just a string""#), Err(DecodeError::Schema));
}

#[test]
fn user_id_over_u32_range_is_a_schema_error() {
    let got = parse(r#"{"user_id": 4294967296, "username": "too-big"}"#);
    assert_eq!(got, Err(DecodeError::Schema));
}

#[test]
fn largest_user_id_is_accepted() {
    let got = parse(r#"{"user_id": 4294967295, "username": "edge"}"#).unwrap();
    assert_eq!(got[0].user_id, 4294967295);
}

#[test]
fn negative_user_id_is_a_schema_error() {
    let got = parse(r#"{"user_id": -1, "username": "below"}"#);
    assert_eq!(got, Err(DecodeError::Schema));
}

#[test]
fn fractional_or_exponent_user_id_is_a_schema_error() {
    assert_eq!(
        parse(r#"{"user_id": 42.5, "username": "frac"}"#),
        Err(DecodeError::Schema)
    );
    assert_eq!(
        parse(r#"{"user_id": 4e2, "username": "exp"}"#),
        Err(DecodeError::Schema)
    );
}

#[test]
fn user_id_past_u64_range_is_a_schema_error() {
    let got = parse(r#"{"user_id": 99999999999999999999999, "username": "huge"}"#);
    assert_eq!(got, Err(DecodeError::Schema));
}

#[test]
fn field_order_does_not_matter() {
    let got = parse(r#"{"username": "swapped", "user_id": 5}"#).unwrap();
    assert_eq!(
        got[0],
        ServerLog {
            user_id: 5,
            username: String::from("swapped"),
        }
    );
}

#[test]
fn unknown_fields_are_ignored() {
    let got = parse(
        r#"{"extra": [1, {"nested": null}, "strings"], "user_id": 6, "pi-ish": -3.25e-2, "username": "kept", "flag": false}"#,
    )
    .unwrap();
    assert_eq!(
        got[0],
        ServerLog {
            user_id: 6,
            username: String::from("kept"),
        }
    );
}

#[test]
fn username_escapes_are_decoded() {
    let got = parse(r#"{"user_id": 1, "username": "a\"b\\c\/d\n\t\r\b\f"}"#).unwrap();
    assert_eq!(got[0].username, "a\"b\\c/d\n\t\r\u{8}\u{c}");
}

#[test]
fn username_unicode_escapes_are_decoded() {
    let got = parse(r#"{"user_id": 1, "username": "A\u00e9\uD83D\uDE00"}"#).unwrap();
    assert_eq!(got[0].username, "A\u{e9}\u{1F600}");
}

#[test]
fn lone_low_surrogate_is_a_syntax_error() {
    let got = parse(r#"{"user_id": 1, "username": "\udc00"}"#);
    assert_eq!(got, Err(DecodeError::Syntax));
}

#[test]
fn unpaired_high_surrogate_is_a_syntax_error() {
    let got = parse(r#"{"user_id": 1, "username": "\ud83d oops"}"#);
    assert_eq!(got, Err(DecodeError::Syntax));
}

#[test]
fn raw_control_character_in_string_is_a_syntax_error() {
    let got = parse("{\"user_id\": 1, \"username\": \"a\nb\"}");
    assert_eq!(got, Err(DecodeError::Syntax));
}

#[test]
fn truncated_object_is_a_syntax_error() {
    assert_eq!(
        parse(r#"{"user_id": 1, "username": "cut"#),
        Err(DecodeError::Syntax)
    );
    assert_eq!(parse("{"), Err(DecodeError::Syntax));
}

#[test]
fn equals_sign_instead_of_colon_is_a_syntax_error() {
    let got = parse(r#"{ "user_id" = 1 }"#);
    assert_eq!(got, Err(DecodeError::Syntax));
}

#[test]
fn leading_zero_in_number_is_an_error() {
    let got = parse(r#"{"user_id": 01, "username": "zeroes"}"#);
    assert_eq!(got, Err(DecodeError::Syntax));
}

#[test]
fn garbage_after_a_valid_object_is_a_syntax_error() {
    let got = parse(r#"{"user_id": 1, "username": "ok"} ;"#);
    assert_eq!(got, Err(DecodeError::Syntax));
}

#[test]
fn failure_in_a_later_record_discards_earlier_records() {
    let got = parse(r#"{"user_id": 1, "username": "fine"} {"user_id": 2}"#);
    assert_eq!(got, Err(DecodeError::Schema));
}

#[test]
fn error_descriptions_name_the_failure() {
    let syntax = parse("{").unwrap_err();
    assert_eq!(syntax, DecodeError::Syntax);
    assert_eq!(syntax.describe(), "input is not well-formed JSON");
    let schema = parse("{}").unwrap_err();
    assert_eq!(schema, DecodeError::Schema);
    assert_eq!(
        schema.describe(),
        "JSON value does not have the log record shape"
    );
}
