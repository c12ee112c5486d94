use proto2json::descriptors::{find_schema, same_path, staged_file_name};
use proto2json::confluent::Schema;
use proto2json::msg::ParsedKey;
use proto2json::text::{compact_json, decimal_string, parse_i64};

fn schema(id: i32, text: &str) -> Schema {
    Schema {
        id,
        version: 1,
        schema_type: "PROTOBUF".to_string(),
        subject: format!("subject-{}", id),
        references: None,
        schema: text.to_string(),
    }
}

#[test]
fn decimal_numbers_are_read_as_rust_reads_them() {
    let cases: [&str; 14] = [
        "0",
        "-0",
        "+0",
        "007",
        "12",
        "-12",
        "+12",
        "9223372036854775807",
        "-9223372036854775808",
        "9223372036854775808",
        "-9223372036854775809",
        "99999999999999999999999",
        "18446744073709551616",
        "-18446744073709551617",
    ];
    for case in cases {
        assert_eq!(parse_i64(case.as_bytes()), case.parse::<i64>().ok());
    }
    let bad: [&str; 10] = ["", "+", "-", "--1", "1-", "1 ", " 1", "1_000", "0x10", "1.0"];
    for case in bad {
        assert_eq!(parse_i64(case.as_bytes()), None);
        assert!(case.parse::<i64>().is_err());
    }
    assert_eq!(parse_i64(b"1234567890"), Some(1234567890));
    assert_eq!(parse_i64(b"-9223372036854775808"), Some(i64::MIN));
    assert_eq!(parse_i64(b"9223372036854775807"), Some(i64::MAX));
    assert_eq!(parse_i64(&[0x31, 0xff]), None);
}

#[test]
fn numbers_are_spelled_in_decimal() {
    assert_eq!(decimal_string(0), "0");
    assert_eq!(decimal_string(7), "7");
    assert_eq!(decimal_string(-12), "-12");
    assert_eq!(decimal_string(1050), "1050");
    assert_eq!(decimal_string(i32::MAX), "2147483647");
    assert_eq!(decimal_string(i32::MIN), "-2147483648");
}

#[test]
fn a_number_spelled_and_read_again_is_the_number() {
    for n in [0, 1, -1, 9, 10, -10, 99, 100, 12345, -98765, i32::MAX, i32::MIN] {
        assert_eq!(parse_i64(decimal_string(n).as_bytes()), Some(n as i64));
        assert_eq!(decimal_string(n), n.to_string());
    }
}

#[test]
fn staged_file_is_named_after_the_schema_id() {
    assert_eq!(staged_file_name(7), "temp-schema-7.proto");
    assert_eq!(staged_file_name(0), "temp-schema-0.proto");
    assert_eq!(staged_file_name(-3), "temp-schema--3.proto");
    assert_eq!(staged_file_name(100042), "temp-schema-100042.proto");
    assert_eq!(staged_file_name(1050), "temp-schema-1050.proto");
    assert_eq!(staged_file_name(i32::MAX), "temp-schema-2147483647.proto");
    assert_eq!(staged_file_name(i32::MIN), "temp-schema--2147483648.proto");
}

#[test]
fn paths_are_the_same_but_for_a_leading_dot_slash() {
    assert!(same_path("a/b.proto", "a/b.proto"));
    assert!(same_path("./a/b.proto", "a/b.proto"));
    assert!(same_path("a/b.proto", "./a/b.proto"));
    assert!(same_path("./a/b.proto", "./a/b.proto"));
    assert!(same_path("", ""));
    assert!(same_path("./", ""));
    assert!(!same_path("a/b.proto", "a/c.proto"));
    assert!(!same_path("././a", "a"));
    assert!(!same_path("../a", "a"));
    assert!(!same_path("a", "a/"));
    assert!(!same_path(".a", "a"));
    assert!(!same_path("/a", "a"));
    assert!(!same_path("a", "ab"));
    assert!(same_path("./\u{e9}.proto", "\u{e9}.proto"));
}

#[test]
fn first_catalog_entry_with_the_id_is_found() {
    let catalog = vec![schema(3, "a"), schema(7, "b"), schema(3, "c"), schema(9, "d")];
    assert_eq!(find_schema(&catalog, 3), Some(0));
    assert_eq!(find_schema(&catalog, 7), Some(1));
    assert_eq!(find_schema(&catalog, 9), Some(3));
    assert_eq!(find_schema(&catalog, 4), None);
    assert_eq!(find_schema(&vec![], 3), None);
}

#[test]
fn key_is_classified_by_trying_to_read_it_as_text() {
    assert!(matches!(ParsedKey::new(b"abc"), ParsedKey::Utf8(s) if s == "abc"));
    assert!(matches!(ParsedKey::new(b""), ParsedKey::Utf8(s) if s.is_empty()));
    assert!(matches!(ParsedKey::new(&[0xc3, 0xa9]), ParsedKey::Utf8(s) if s == "\u{e9}"));
    assert!(matches!(ParsedKey::new(&[0xc3]), ParsedKey::NotUtf8(b) if b == vec![0xc3]));
    assert!(matches!(ParsedKey::new(&[0x80, 0x00]), ParsedKey::NotUtf8(b) if b == vec![0x80, 0x00]));
}

#[test]
fn key_length_is_counted_in_bytes() {
    assert_eq!(ParsedKey::Absent.len(), 0);
    assert_eq!(ParsedKey::new(b"abc").len(), 3);
    assert_eq!(ParsedKey::new(&[0xc3, 0xa9]).len(), 2);
    assert_eq!(ParsedKey::Utf8("h\u{e9}llo".to_string()).len(), 6);
    assert_eq!(ParsedKey::NotUtf8(vec![0xff, 0xfe, 0xfd]).len(), 3);
    assert_eq!(ParsedKey::NotUtf8(vec![]).len(), 0);
}

#[test]
fn white_space_between_json_tokens_is_taken_out() {
    assert_eq!(
        compact_json("{\"a\": \"x\", \"b\": [1, 2]}"),
        "{\"a\":\"x\",\"b\":[1,2]}".to_string()
    );
    assert_eq!(
        compact_json(" {\n\t\"a b\" :\r\n \"c  d\" } "),
        "{\"a b\":\"c  d\"}".to_string()
    );
    assert_eq!(
        compact_json("{\"q\": \"say \\\" hi \\\\\", \"n\": 1}"),
        "{\"q\":\"say \\\" hi \\\\\",\"n\":1}".to_string()
    );
    assert_eq!(compact_json(""), String::new());
    assert_eq!(compact_json("  "), String::new());
    assert_eq!(
        compact_json("{\"k\": \"h\u{e9}  \u{4e16}\"}"),
        "{\"k\":\"h\u{e9}  \u{4e16}\"}".to_string()
    );
}
