use rjsonparser::number::FloatLiteral;
use rjsonparser::{IndentConfig, Number, Writer};

fn float_literal(text: &str, int_value: i64, frac_value: i64, frac_scale: i64) -> FloatLiteral {
    FloatLiteral {
        text: text.to_string(),
        negative: false,
        int_value,
        int_overflow: false,
        has_fraction: true,
        frac_value,
        frac_scale,
        frac_overflow: false,
        has_exponent: false,
        exp_negative: false,
        exponent: 0,
        exp_overflow: false,
    }
}

#[test]
fn buffer_roundtrip_compact() {
    let mut w = Writer::buffer(64);
    w.write_start_object().unwrap();
    w.write_key("a").unwrap();
    w.write_number_str("1").unwrap();
    w.write_end_object().unwrap();
    let bytes = w.finish().unwrap();
    assert_eq!(bytes, br#"{"a":1}"#);
}

#[test]
fn simple_object() {
    let mut w = Writer::buffer(64);
    w.write_start_object().unwrap();
    w.write_key("name").unwrap();
    w.write_string("Alice").unwrap();
    w.write_key("age").unwrap();
    w.write_number(&Number::I32(30)).unwrap();
    w.write_end_object().unwrap();
    assert_eq!(
        String::from_utf8(w.finish().unwrap()).unwrap(),
        r#"{"name":"Alice","age":30}"#
    );
}

#[test]
fn simple_array() {
    let mut w = Writer::buffer(64);
    w.write_start_array().unwrap();
    w.write_number(&Number::I32(1)).unwrap();
    w.write_number(&Number::I32(2)).unwrap();
    w.write_number(&Number::I32(3)).unwrap();
    w.write_end_array().unwrap();
    assert_eq!(String::from_utf8(w.finish().unwrap()).unwrap(), "[1,2,3]");
}

#[test]
fn nested_structures() {
    let mut w = Writer::buffer(128);
    w.write_start_object().unwrap();
    w.write_key("users").unwrap();
    w.write_start_array().unwrap();
    w.write_start_object().unwrap();
    w.write_key("id").unwrap();
    w.write_number(&Number::I32(1)).unwrap();
    w.write_key("name").unwrap();
    w.write_string("Alice").unwrap();
    w.write_end_object().unwrap();
    w.write_start_object().unwrap();
    w.write_key("id").unwrap();
    w.write_number(&Number::I32(2)).unwrap();
    w.write_key("name").unwrap();
    w.write_string("Bob").unwrap();
    w.write_end_object().unwrap();
    w.write_end_array().unwrap();
    w.write_end_object().unwrap();
    assert_eq!(
        String::from_utf8(w.finish().unwrap()).unwrap(),
        r#"{"users":[{"id":1,"name":"Alice"},{"id":2,"name":"Bob"}]}"#
    );
}

#[test]
fn string_escaping() {
    let mut w = Writer::buffer(64);
    w.write_start_object().unwrap();
    w.write_key("text").unwrap();
    w.write_string("Hello\n\"World\"\t\r\u{0008}\u{000c}\\")
        .unwrap();
    w.write_end_object().unwrap();
    assert_eq!(
        String::from_utf8(w.finish().unwrap()).unwrap(),
        r#"{"text":"Hello\n\"World\"\t\r\b\f\\"}"#
    );
}

#[test]
fn control_character_escaping() {
    let mut w = Writer::buffer(64);
    w.write_start_object().unwrap();
    w.write_key("ctrl").unwrap();
    w.write_string("test\u{0001}\u{001f}end").unwrap();
    w.write_end_object().unwrap();
    assert_eq!(
        String::from_utf8(w.finish().unwrap()).unwrap(),
        r#"{"ctrl":"test\u0001\u001fend"}"#
    );
}

#[test]
fn utf8_characters() {
    let mut w = Writer::buffer(64);
    w.write_start_object().unwrap();
    w.write_key("emoji").unwrap();
    w.write_string("Hello 👋 World 🌍").unwrap();
    w.write_key("chinese").unwrap();
    w.write_string("你好世界").unwrap();
    w.write_end_object().unwrap();
    let json = String::from_utf8(w.finish().unwrap()).unwrap();
    assert!(json.contains("Hello 👋 World 🌍"));
    assert!(json.contains("你好世界"));
}

#[test]
fn primitive_values() {
    let mut w = Writer::buffer(64);
    w.write_start_object().unwrap();
    w.write_key("bool_true").unwrap();
    w.write_boolean(true).unwrap();
    w.write_key("bool_false").unwrap();
    w.write_boolean(false).unwrap();
    w.write_key("null").unwrap();
    w.write_null().unwrap();
    w.write_key("int").unwrap();
    w.write_number(&Number::I32(42)).unwrap();
    w.write_key("float").unwrap();
    w.write_number(&Number::Float(float_literal("3.14", 3, 14, 100))).unwrap();
    w.write_end_object().unwrap();
    assert_eq!(
        String::from_utf8(w.finish().unwrap()).unwrap(),
        r#"{"bool_true":true,"bool_false":false,"null":null,"int":42,"float":3.14}"#
    );
}

#[test]
fn indent_spaces2_output() {
    let mut w = Writer::with_indent(Vec::new(), IndentConfig::spaces2());
    w.write_start_object().unwrap();
    w.write_key("a").unwrap();
    w.write_number(&Number::I32(1)).unwrap();
    w.write_end_object().unwrap();
    let json = String::from_utf8(w.finish().unwrap()).unwrap();
    assert_eq!(json, "{\n  \"a\": 1\n}");
}

#[test]
fn indent_nested_array_with_tabs() {
    let mut w = Writer::with_indent(Vec::new(), IndentConfig::tabs());
    w.write_start_array().unwrap();
    w.write_start_object().unwrap();
    w.write_key("k").unwrap();
    w.write_boolean(false).unwrap();
    w.write_end_object().unwrap();
    w.write_null().unwrap();
    w.write_end_array().unwrap();
    let json = String::from_utf8(w.finish().unwrap()).unwrap();
    assert_eq!(json, "[\n\t{\n\t\t\"k\": false\n\t},\n\tnull\n]");
}

#[test]
fn indent_empty_object_gets_newline() {
    let mut w = Writer::with_indent(Vec::new(), IndentConfig::spaces4());
    w.write_start_object().unwrap();
    w.write_end_object().unwrap();
    assert_eq!(String::from_utf8(w.finish().unwrap()).unwrap(), "{\n}");
}

#[test]
fn indent_config_accessors() {
    let c = IndentConfig::spaces(3);
    assert_eq!(c.indent_char(), ' ');
    assert_eq!(c.indent_count(), 3);
    let t = IndentConfig::new('\t', 2);
    assert_eq!(t.indent_char(), '\t');
    assert_eq!(t.indent_count(), 2);
    assert_eq!(IndentConfig::spaces4().indent_count(), 4);
    assert_eq!(IndentConfig::tabs().indent_count(), 1);
}

#[test]
fn integers_written_in_decimal() {
    let mut w = Writer::buffer(64);
    w.write_start_array().unwrap();
    w.write_i32(i32::MIN).unwrap();
    w.write_i64(i64::MAX).unwrap();
    w.write_i64(-7).unwrap();
    w.write_number(&Number::I64(-9_000_000_000)).unwrap();
    w.write_number(&Number::BigInt("123456789012345678901234567890".to_string())).unwrap();
    w.write_end_array().unwrap();
    assert_eq!(
        String::from_utf8(w.finish().unwrap()).unwrap(),
        "[-2147483648,9223372036854775807,-7,-9000000000,123456789012345678901234567890]"
    );
}

#[test]
fn all_control_bytes_are_escaped() {
    let mut w = Writer::buffer(16);
    w.write_string("\u{0000}\u{000b}\u{001b}\u{007f}").unwrap();
    assert_eq!(
        String::from_utf8(w.finish().unwrap()).unwrap(),
        "\"\\u0000\\u000b\\u001b\u{007f}\""
    );
}

#[test]
fn buffered_bytes_move_to_inner_at_threshold() {
    // Capacity 8 gives a threshold of 6 bytes.
    let mut w = Writer::buffer(8);
    w.write_start_array().unwrap();
    assert_eq!(w.inner().len(), 0);
    w.write_string("abcd").unwrap();
    // "[" + "\"abcd\"" is 7 bytes, at least the threshold: handed to the inner vector.
    assert_eq!(w.inner().as_slice(), b"[\"abcd\"");
    w.write_end_array().unwrap();
    assert_eq!(w.inner().as_slice(), b"[\"abcd\"");
    w.flush().unwrap();
    assert_eq!(w.inner().as_slice(), b"[\"abcd\"]");
}

#[test]
fn writer_appends_after_existing_bytes() {
    let mut w = Writer::new(b"prefix ".to_vec());
    w.write_null().unwrap();
    w.flush().unwrap();
    w.inner_mut().push(b'!');
    assert_eq!(w.inner().as_slice(), b"prefix null!");
    assert!(w.close().is_ok());
}
