//! The readings one by one: edge cases, messages, and what is left.

use destream_json::integer::{parse_integer, IntegerError};
use destream_json::lexical::{is_numeric, is_whitespace, starts_with, Class};
use destream_json::text::{char_text, decode_base64, decode_text};
use destream_json::{encode_byte_buf, Any, Decoder, Error, Ignored, MapAccess, Number, Stage, Step};

fn closed(bytes: &[u8]) -> Decoder {
    let mut decoder = Decoder::new();
    decoder.buffer(Some(bytes.to_vec()));
    decoder.buffer(None);
    decoder
}

fn open(bytes: &[u8]) -> Decoder {
    let mut decoder = Decoder::new();
    decoder.buffer(Some(bytes.to_vec()));
    decoder
}

/// What a decoder has left at hand.
fn left(mut decoder: Decoder) -> Vec<u8> {
    let mut bytes = Vec::new();
    for _ in 0..1000 {
        for byte in 0..=255u8 {
            if let Step::Done(true) = decoder.maybe_byte(byte) {
                bytes.push(byte);
                break;
            }
        }
    }
    bytes
}

fn done<T>(step: Step<T, Error>) -> T {
    match step {
        Step::Done(value) => value,
        Step::More => panic!("more"),
        Step::Failed(error) => panic!("{}", error.to_string()),
    }
}

fn failed<T>(step: Step<T, Error>) -> String {
    match step {
        Step::Failed(error) => error.to_string(),
        _ => panic!("not failed"),
    }
}

#[test]
fn messages_of_errors() {
    assert_eq!(Error::custom("what".to_string()).to_string(), "what");
    assert_eq!(Error::invalid_utf8("why").to_string(), "invalid UTF-8: why");
    assert_eq!(Error::unexpected_end().to_string(), "unexpected end of stream");
    assert_eq!(
        Error::invalid_value("x", "y").to_string(),
        "invalid value: x, expected y"
    );
    assert_eq!(
        Error::invalid_type("x", "y").to_string(),
        "invalid type: x, expected y"
    );
}

#[test]
fn white_space_is_that_of_the_characters() {
    for byte in 0..=255u8 {
        assert_eq!(is_whitespace(byte), (byte as char).is_whitespace());
        assert_eq!(is_numeric(byte), b"0123456789-eE.".contains(&byte));
        assert_eq!(Class::Digit.contains(byte), byte.is_ascii_digit());
        assert_eq!(Class::Integral.contains(byte), b"0123456789-eE".contains(&byte));
        assert_eq!(char_text(byte), (byte as char).to_string());
    }
}

#[test]
fn words_at_the_beginning() {
    assert!(starts_with(&b"null".to_vec(), b"null"));
    assert!(starts_with(&b"nullify".to_vec(), b"null"));
    assert!(starts_with(&b"x".to_vec(), b""));
    assert!(!starts_with(&b"nul".to_vec(), b"null"));
    assert!(!starts_with(&b"nuls".to_vec(), b"null"));
}

#[test]
fn integers_are_those_of_the_standard_library() {
    let texts = [
        "", "+", "-", "0", "-0", "+0", "00", "7", "+7", "-7", "127", "128", "-128", "-129", "255",
        "256", "-1", "--1", "+-1", "1-", "1e2", "e", "25x", "256x", "99999x", "32767", "32768",
        "-32768", "-32769", "65535", "65536", "2147483647", "2147483648", "-2147483648",
        "-2147483649", "4294967295", "4294967296", "9223372036854775807", "9223372036854775808",
        "-9223372036854775808", "-9223372036854775809", "18446744073709551615",
        "18446744073709551616", "000000000000000000000000000000000001", "1.0", ".", "é", "1é",
        "340282366920938463463374607431768211456", "-340282366920938463463374607431768211456",
    ];
    for text in texts {
        let actual = |min: i128, max: i128| match parse_integer(text.as_bytes(), min, max) {
            Ok(value) => Ok(value),
            Err(error) => Err(error.as_str().to_string()),
        };
        assert_eq!(
            actual(i8::MIN as i128, i8::MAX as i128),
            text.parse::<i8>().map(|n| n as i128).map_err(|e| e.to_string())
        );
        assert_eq!(
            actual(i16::MIN as i128, i16::MAX as i128),
            text.parse::<i16>().map(|n| n as i128).map_err(|e| e.to_string())
        );
        assert_eq!(
            actual(i32::MIN as i128, i32::MAX as i128),
            text.parse::<i32>().map(|n| n as i128).map_err(|e| e.to_string())
        );
        assert_eq!(
            actual(i64::MIN as i128, i64::MAX as i128),
            text.parse::<i64>().map(|n| n as i128).map_err(|e| e.to_string())
        );
        assert_eq!(
            actual(0, u8::MAX as i128),
            text.parse::<u8>().map(|n| n as i128).map_err(|e| e.to_string())
        );
        assert_eq!(
            actual(0, u16::MAX as i128),
            text.parse::<u16>().map(|n| n as i128).map_err(|e| e.to_string())
        );
        assert_eq!(
            actual(0, u32::MAX as i128),
            text.parse::<u32>().map(|n| n as i128).map_err(|e| e.to_string())
        );
        assert_eq!(
            actual(0, u64::MAX as i128),
            text.parse::<u64>().map(|n| n as i128).map_err(|e| e.to_string())
        );
    }
}

#[test]
fn integer_errors_by_kind() {
    assert!(parse_integer(b"", 0, 255) == Err(IntegerError::Empty));
    assert!(parse_integer(b"1x", 0, 255) == Err(IntegerError::InvalidDigit));
    assert!(parse_integer(b"256", 0, 255) == Err(IntegerError::TooLarge));
    assert!(parse_integer(b"-129", -128, 127) == Err(IntegerError::TooSmall));
    assert!(parse_integer(b"-128", -128, 127) == Ok(-128));
}

#[test]
fn integers_out_of_range_name_their_type() {
    assert_eq!(
        failed(closed(b"128 ").decode_i8()),
        "invalid value: number too large to fit in target type, expected i8"
    );
    assert_eq!(
        failed(closed(b"-32769").decode_i16()),
        "invalid value: number too small to fit in target type, expected i16"
    );
    assert_eq!(
        failed(closed(b"1.0 ").decode_i32()),
        "invalid value: invalid digit found in string, expected i32"
    );
    assert_eq!(
        failed(closed(b"x").decode_i64()),
        "invalid value: cannot parse integer from empty string, expected i64"
    );
    assert_eq!(
        failed(closed(b"-1").decode_u8()),
        "invalid value: invalid digit found in string, expected u8"
    );
    assert_eq!(
        failed(closed(b"65536").decode_u16()),
        "invalid value: number too large to fit in target type, expected u16"
    );
    assert_eq!(
        failed(closed(b"4294967296").decode_u32()),
        "invalid value: number too large to fit in target type, expected u32"
    );
    assert_eq!(
        failed(closed(b"18446744073709551616").decode_u64()),
        "invalid value: number too large to fit in target type, expected u64"
    );
}

#[test]
fn integers_of_every_type_are_given_back() {
    assert_eq!(done(closed(b"-128").decode_i8()), i8::MIN);
    assert_eq!(done(closed(b"32767 ").decode_i16()), i16::MAX);
    assert_eq!(done(closed(b"-2147483648").decode_i32()), i32::MIN);
    assert_eq!(done(closed(b"9223372036854775807,").decode_i64()), i64::MAX);
    assert_eq!(done(closed(b" 255").decode_u8()), u8::MAX);
    assert_eq!(done(closed(b"65535").decode_u16()), u16::MAX);
    assert_eq!(done(closed(b"4294967295}").decode_u32()), u32::MAX);
    assert_eq!(done(closed(b"18446744073709551615").decode_u64()), u64::MAX);
}

#[test]
fn a_number_may_go_on_while_the_document_is_open() {
    let mut decoder = open(b" 12");
    assert!(matches!(decoder.decode_u8(), Step::More));
    decoder.buffer(Some(b"3".to_vec()));
    assert!(matches!(decoder.decode_u8(), Step::More));
    decoder.buffer(Some(b",".to_vec()));
    assert_eq!(done(decoder.decode_u8()), 123);
    assert_eq!(left(decoder), b",");
}

#[test]
fn what_follows_a_number_is_left() {
    let mut decoder = closed(b" 1.5e3] ");
    assert_eq!(done(decoder.parse_number()), "1.5e3");
    assert_eq!(left(decoder), b"] ");
}

#[test]
fn texts_and_their_faults() {
    assert_eq!(
        decode_text("मकर".as_bytes().to_vec()).ok(),
        Some("मकर".to_string())
    );
    for bytes in [vec![0xff], vec![b'a', 0xe0, 0xa4], vec![0xc0, 0x80]] {
        let reason = String::from_utf8(bytes.clone()).unwrap_err().to_string();
        match decode_text(bytes) {
            Ok(_) => panic!("text"),
            Err(error) => assert_eq!(error.to_string(), format!("invalid UTF-8: {}", reason)),
        }
    }
}

#[test]
fn base64_and_its_faults() {
    assert_eq!(decode_base64("aGVsbG8=").ok(), Some(b"hello".to_vec()));
    for text in ["aGVsbG8", "a", "a?==", "aGVsbG9="] {
        let expected = base64::decode(text);
        match decode_base64(text) {
            Ok(bytes) => assert_eq!(Ok(bytes), expected),
            Err(error) => assert_eq!(error.to_string(), expected.unwrap_err().to_string()),
        }
    }
}

#[test]
fn byte_buffers() {
    let bytes: Vec<u8> = (0..=255).collect();
    let text = format!("\"{}\" ", base64::encode(&bytes));
    let mut decoder = closed(text.as_bytes());
    assert_eq!(done(decoder.decode_byte_buf()), bytes);
    assert_eq!(left(decoder), b" ");
    assert_eq!(
        failed(closed(b"\"a\"").decode_byte_buf()),
        base64::decode("a").unwrap_err().to_string()
    );
    assert_eq!(
        failed(closed(b" \"\"").decode_byte_buf()),
        "invalid value:  , expected \""
    );
}

#[test]
fn strings_end_at_the_first_quote_that_is_not_escaped() {
    let mut decoder = open(b"\"a\\\"b\"c");
    assert_eq!(done(decoder.parse_string()), "a\\\"b");
    assert_eq!(left(decoder), b"c");
    let mut decoder = open(b"\"\"\"x\"");
    assert_eq!(done(decoder.buffer_string()), b"");
    assert_eq!(left(decoder), b"\"x\"");
    let mut decoder = open(b"\"a\\\\\" ");
    assert!(matches!(decoder.buffer_string(), Step::More));
}

#[test]
fn strings_that_are_not_ended() {
    let mut decoder = closed(b"\"abc");
    assert_eq!(failed(decoder.parse_string()), "unexpected end of stream");
    assert!(decoder.stage() == Stage::Closed);
    assert_eq!(left(decoder), b"abc");
    assert_eq!(failed(closed(b"\"").parse_string()), "unexpected end of stream");
    assert_eq!(failed(closed(b"").parse_string()), "unexpected end of stream");
    assert_eq!(
        failed(closed(b"x\"").parse_string()),
        "invalid value: x, expected \""
    );
    assert_eq!(
        failed(closed(b"\"\xff\"").parse_string()),
        "invalid UTF-8: invalid utf-8 sequence of 1 bytes from index 0"
    );
}

#[test]
fn strings_are_optional_values() {
    for text in ["ab", "a", ""] {
        let mut decoder = closed(format!("\"{}\"", text).as_bytes());
        assert!(done(decoder.decode_option()));
        assert_eq!(done(decoder.decode_string()), text);
        assert_eq!(left(decoder), b"");
    }
}

#[test]
fn bytes_expected() {
    let mut decoder = open(b"");
    assert!(matches!(decoder.expect_byte(b'a'), Step::More));
    assert!(matches!(decoder.maybe_byte(b'a'), Step::More));
    decoder.buffer(Some(b"ab".to_vec()));
    assert!(!done(decoder.maybe_byte(b'b')));
    assert!(done(decoder.maybe_byte(b'a')));
    assert_eq!(
        failed(decoder.expect_byte(b'c')),
        "invalid value: b, expected c"
    );
    assert!(matches!(decoder.expect_byte(b'c'), Step::More));
    decoder.buffer(None);
    assert_eq!(failed(decoder.expect_byte(b'c')), "unexpected end of stream");
    assert!(!done(decoder.maybe_byte(b'c')));
}

#[test]
fn commas_and_ends() {
    let mut decoder = open(b" ,]");
    done(decoder.expect_comma_or(b']'));
    done(decoder.expect_comma_or(b']'));
    assert_eq!(left(decoder), b"]");
    assert_eq!(
        failed(closed(b" ;").expect_comma_or(b']')),
        "invalid value: ;, expected ,"
    );
    assert_eq!(
        failed(closed(b"  ").expect_comma_or(b']')),
        "unexpected end of stream"
    );
    assert!(matches!(open(b"  ").expect_comma_or(b']'), Step::More));
}

#[test]
fn runs_of_bytes() {
    let mut decoder = open(b"12a");
    assert_eq!(done(decoder.buffer_while(Class::Numeric)), b"12");
    assert_eq!(done(decoder.buffer_while(Class::Numeric)), b"");
    assert!(matches!(open(b"12").buffer_while(Class::Numeric), Step::More));
    let mut decoder = closed(b"12");
    assert_eq!(done(decoder.buffer_while(Class::Numeric)), b"12");
    assert!(decoder.stage() == Stage::Closed);
}

#[test]
fn a_run_is_a_run_at_the_end_too() {
    let mut decoder = closed(b"1]");
    assert!(done(decoder.decode_option()));
    done(decoder.expect_whitespace());
    assert_eq!(done(decoder.buffer_while(Class::Numeric)), b"1");
    assert_eq!(left(decoder), b"]");
}

#[test]
fn short_values_are_optional_values() {
    let mut decoder = closed(b"1");
    assert!(done(decoder.decode_option()));
    assert_eq!(done(decoder.decode_u8()), 1);
    let mut decoder = closed(b" 3");
    assert!(done(decoder.decode_option()));
    assert!(matches!(
        done(decoder.decode_any("")),
        Any::Number(Number::Integer(3))
    ));
}

#[test]
fn numbers_that_are_the_whole_document() {
    for text in ["3", " 3", "3 "] {
        assert!(matches!(
            done(closed(text.as_bytes()).decode_any("")),
            Any::Number(Number::Integer(3))
        ));
    }
    assert!(matches!(
        done(closed(b"-1.5").decode_any("")),
        Any::Number(Number::Float(text)) if text == "-1.5"
    ));
}

#[test]
fn white_space_is_dropped() {
    let mut decoder = open(b" \t\r\n\x0b\x0c\x85\xa0x ");
    done(decoder.expect_whitespace());
    done(decoder.expect_whitespace());
    assert_eq!(left(decoder), b"x ");
    assert!(matches!(open(b" ").expect_whitespace(), Step::More));
}

#[test]
fn booleans_and_what_is_none() {
    let mut decoder = closed(b" truefalse");
    assert_eq!(done(decoder.parse_bool()), true);
    assert_eq!(done(decoder.parse_bool()), false);
    assert_eq!(failed(decoder.parse_bool()), "unexpected end of stream");
    assert_eq!(
        failed(closed(b"tru").parse_bool()),
        "invalid value: tru, expected a boolean"
    );
    assert_eq!(
        failed(closed(b"falsy!").parse_bool()),
        "invalid value: falsy, expected a boolean"
    );
    assert_eq!(
        failed(closed(b"\xff").parse_bool()),
        "invalid UTF-8: invalid utf-8 sequence of 1 bytes from index 0"
    );
    assert!(matches!(open(b"fals").parse_bool(), Step::More));
    assert!(matches!(open(b"tru").parse_bool(), Step::More));
}

#[test]
fn null_is_found_and_left_by_a_unit() {
    let mut decoder = closed(b" null,");
    done(decoder.parse_unit());
    assert_eq!(left(decoder), b"null,");
    assert_eq!(
        failed(closed(b"nil").parse_unit()),
        "invalid type: nil, expected null"
    );
    assert_eq!(
        failed(closed(b"nothing").parse_unit()),
        "invalid type: nothi, expected null"
    );
    assert_eq!(failed(closed(b"").parse_unit()), "invalid type: , expected null");
    assert_eq!(
        failed(closed(b"\xff").parse_unit()),
        "invalid UTF-8: invalid utf-8 sequence of 1 bytes from index 0"
    );
}

#[test]
fn null_is_taken_by_an_option() {
    let mut decoder = closed(b" null1234");
    assert!(!done(decoder.decode_option()));
    assert!(done(decoder.decode_option()));
    assert_eq!(left(decoder), b"1234");
    assert!(matches!(open(b"nul").decode_option(), Step::More));
}

#[test]
fn numbers_told_apart_by_the_point() {
    assert!(matches!(
        done(closed(b"12 ").decode_number()),
        Number::Integer(12)
    ));
    assert!(matches!(
        done(closed(b"1.2 ").decode_number()),
        Number::Float(text) if text == "1.2"
    ));
    assert!(matches!(open(b"12").decode_number(), Step::More));
    assert!(matches!(open(b"1.2").decode_number(), Step::More));
    assert_eq!(
        failed(closed(b"2e5,").decode_number()),
        "invalid value: invalid digit found in string, expected i64"
    );
    assert!(matches!(
        done(closed(b"12").decode_number()),
        Number::Integer(12)
    ));
    assert!(matches!(
        done(closed(b"1.2").decode_number()),
        Number::Float(text) if text == "1.2"
    ));
}

#[test]
fn values_of_no_type() {
    assert_eq!(
        failed(closed(b"undefined").decode_any("a value")),
        "invalid value: undef, expected a value"
    );
    assert_eq!(
        failed(closed(b" \t").decode_any("a value")),
        "unexpected end of stream"
    );
    assert_eq!(
        failed(closed(b"x\xffyzw").decode_any("a value")),
        "invalid UTF-8: invalid utf-8 sequence of 1 bytes from index 1"
    );
    assert!(matches!(open(b"und").decode_any(""), Step::More));
}

#[test]
fn documents_that_end_within_a_word() {
    for (text, message) in [
        (" nul", "invalid value: nul, expected a value"),
        ("x", "invalid value: x, expected a value"),
        ("fals", "invalid value: fals, expected a value"),
        ("nul ", "invalid value: nul , expected a value"),
    ] {
        assert_eq!(
            failed(closed(text.as_bytes()).decode_any("a value")),
            message
        );
    }
    assert_eq!(left_of_unknown(b" abc"), b"abc");
    assert!(matches!(open(b"x").decode_any(""), Step::More));
}

/// What is left when a value that begins like none was refused.
fn left_of_unknown(bytes: &[u8]) -> Vec<u8> {
    let mut decoder = closed(bytes);
    failed(decoder.decode_any("a value"));
    left(decoder)
}

#[test]
fn an_optional_value_that_begins_like_none() {
    let mut decoder = closed(b"x");
    assert!(done(decoder.decode_option()));
    assert_eq!(
        failed(decoder.decode_any("a value")),
        "invalid value: x, expected a value"
    );
}

#[test]
fn values_that_are_not_wanted() {
    let mut decoder = closed(b" \"a\" -1.5 true ");
    assert!(matches!(done(decoder.ignore_value()), Ignored::Checked));
    assert!(matches!(done(decoder.ignore_value()), Ignored::Number(text) if text == "-1.5"));
    assert!(matches!(done(decoder.ignore_value()), Ignored::Checked));
    assert!(matches!(done(decoder.ignore_value()), Ignored::Checked));
    assert_eq!(left(decoder), b"");
    let mut decoder = closed(b"null");
    assert!(matches!(done(decoder.ignore_value()), Ignored::Checked));
    assert_eq!(left(decoder), b"null");
    assert_eq!(
        failed(closed(b"[1, 2]").ignore_value()),
        "invalid value: [1, 2, expected a boolean"
    );
    assert_eq!(
        failed(closed(b"nope").ignore_value()),
        "invalid type: nope, expected null"
    );
    assert_eq!(
        failed(closed(b"\"a").ignore_value()),
        "unexpected end of stream"
    );
}

#[test]
fn a_colon_is_taken_once() {
    let mut decoder = open(b" : ");
    let mut access = MapAccess::opened();
    assert!(matches!(access.next_value(&mut decoder), Step::More));
    assert!(matches!(access.next_value(&mut decoder), Step::More));
    decoder.buffer(Some(b" 5}".to_vec()));
    done(access.next_value(&mut decoder));
    assert_eq!(done(decoder.decode_u8()), 5);
    assert_eq!(left(decoder), b"}");
}

#[test]
fn any_agrees_with_the_typed_readings() {
    assert!(matches!(done(closed(b" true").decode_any("")), Any::Bool(true)));
    assert!(matches!(done(closed(b"false").decode_any("")), Any::Bool(false)));
    assert!(matches!(done(closed(b"null").decode_any("")), Any::Null));
    assert!(matches!(done(closed(b"\"s\"").decode_any("")), Any::Text(t) if t == "s"));
}

#[test]
fn documents_with_nothing_in_them() {
    for blank in [&b""[..], &b" \n\t"[..]] {
        assert_eq!(failed(closed(blank).parse_bool()), "unexpected end of stream");
        assert_eq!(
            failed(closed(blank).parse_unit()),
            "invalid type: , expected null"
        );
        assert_eq!(failed(closed(blank).decode_string()), "unexpected end of stream");
        assert_eq!(
            failed(closed(blank).decode_u8()),
            "invalid value: cannot parse integer from empty string, expected u8"
        );
        assert_eq!(failed(closed(blank).decode_any("x")), "unexpected end of stream");
        assert_eq!(done(closed(blank).parse_number()), "");
        assert!(done(closed(blank).decode_option()));
        assert!(matches!(
            done(closed(blank).ignore_value()),
            Ignored::Checked
        ));
    }
}

#[test]
fn the_end_may_be_announced_again() {
    let mut decoder = closed(b"12");
    decoder.buffer(None);
    assert!(decoder.stage() == Stage::Closed);
    assert_eq!(done(decoder.decode_u8()), 12);
    decoder.buffer(None);
    assert!(decoder.stage() == Stage::Closed);
}

#[test]
fn bytes_are_read_back_from_what_they_are_written_as() {
    let mut bytes = Vec::new();
    for i in 0..300usize {
        let encoded = encode_byte_buf(&bytes);
        assert_eq!(
            encoded,
            format!("\"{}\"", base64::encode(&bytes)).into_bytes()
        );
        let mut decoder = closed(&[&encoded[..], b", 1"].concat());
        assert_eq!(done(decoder.decode_byte_buf()), bytes);
        assert_eq!(left(decoder), b", 1");
        bytes.push((i * 7 % 256) as u8);
    }
    assert_eq!(encode_byte_buf(b""), b"\"\"");
    assert_eq!(encode_byte_buf(b"hi"), b"\"aGk=\"");
}
