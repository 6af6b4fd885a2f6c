use rjsonparser::number::FloatLiteral;
use rjsonparser::{ContentHandler, Number, ParseResult, Parser};

#[derive(Debug, Default)]
struct RecordingHandler {
    events: Vec<String>,
    strings: Vec<String>,
    keys: Vec<String>,
    numbers: Vec<Number>,
    booleans: Vec<bool>,
    nulls: usize,
}

impl RecordingHandler {
    fn new() -> Self {
        Self::default()
    }
}

impl ContentHandler for RecordingHandler {
    fn start_object(&mut self) -> ParseResult<()> {
        self.events.push("startObject".into());
        Ok(())
    }
    fn end_object(&mut self) -> ParseResult<()> {
        self.events.push("endObject".into());
        Ok(())
    }
    fn start_array(&mut self) -> ParseResult<()> {
        self.events.push("startArray".into());
        Ok(())
    }
    fn end_array(&mut self) -> ParseResult<()> {
        self.events.push("endArray".into());
        Ok(())
    }
    fn key(&mut self, key: &str) -> ParseResult<()> {
        self.keys.push(key.to_owned());
        self.events.push(format!("key:{key}"));
        Ok(())
    }
    fn string_value(&mut self, value: &str) -> ParseResult<()> {
        self.strings.push(value.to_owned());
        self.events.push(format!("string:{value}"));
        Ok(())
    }
    fn number_value(&mut self, value: &Number) -> ParseResult<()> {
        self.numbers.push(value.clone());
        self.events.push(format!("number:{}", value.to_text()));
        Ok(())
    }
    fn boolean_value(&mut self, value: bool) -> ParseResult<()> {
        self.booleans.push(value);
        self.events.push(format!("boolean:{value}"));
        Ok(())
    }
    fn null_value(&mut self) -> ParseResult<()> {
        self.nulls += 1;
        self.events.push("null".into());
        Ok(())
    }
}

fn parse_all(input: &[u8]) -> ParseResult<RecordingHandler> {
    let mut handler = RecordingHandler::new();
    {
        let mut parser = Parser::new(&mut handler);
        parser.disable_all_limits();
        let mut data = input;
        parser.receive(&mut data)?;
        parser.close()?;
    }
    Ok(handler)
}

fn parse_number_value(json: &str) -> Number {
    let handler = parse_all(json.as_bytes()).expect("parse failed");
    handler.numbers.into_iter().next().expect("no number")
}

fn parse_float(json: &str) -> FloatLiteral {
    match parse_number_value(json) {
        Number::Float(f) => f,
        other => panic!("expected a float, got {other:?}"),
    }
}

#[test]
fn plain_integers() {
    assert_eq!(parse_number_value("0"), Number::I32(0));
    assert_eq!(parse_number_value("42"), Number::I32(42));
    assert_eq!(parse_number_value("-42"), Number::I32(-42));
    assert_eq!(
        parse_number_value(&i32::MAX.to_string()),
        Number::I32(i32::MAX)
    );
    let just_over = (i32::MAX as i64) + 1;
    assert_eq!(
        parse_number_value(&just_over.to_string()),
        Number::I64(just_over)
    );
    assert_eq!(
        parse_number_value(&i64::MAX.to_string()),
        Number::I64(i64::MAX)
    );
}

#[test]
fn huge_integer_bigint() {
    let big = "123456789012345678901234567890";
    match parse_number_value(big) {
        Number::BigInt(s) => assert_eq!(s, big),
        other => panic!("expected BigInt, got {other:?}"),
    }
}

#[test]
fn leading_zeros_rejected() {
    assert!(parse_all(b"01").is_err());
    assert!(parse_all(b"-01").is_err());
}

#[test]
fn incomplete_number_forms_rejected() {
    assert!(parse_all(b"-").is_err());
    assert!(parse_all(b"1.").is_err());
    assert!(parse_all(b"1e").is_err());
    assert!(parse_all(b"1e+").is_err());
}

#[test]
fn bom_utf8_skipped() {
    let mut data = vec![0xEF, 0xBB, 0xBF];
    data.extend_from_slice(br#"{"a":1}"#);
    let h = parse_all(&data).unwrap();
    assert_eq!(h.keys, vec!["a"]);
    assert_eq!(h.numbers[0].as_i32(), Some(1));
}

#[test]
fn bom_utf8_split() {
    let mut handler = RecordingHandler::new();
    {
        let mut parser = Parser::new(&mut handler);
        parser.disable_all_limits();
        let mut a = &[0xEFu8, 0xBB][..];
        parser.receive(&mut a).unwrap();
        let mut b = &[0xBFu8, b'[', b'4', b'2', b']'][..];
        parser.receive(&mut b).unwrap();
        parser.close().unwrap();
    }
    assert_eq!(handler.numbers[0].as_i32(), Some(42));
}

#[test]
fn bom_utf16_be_rejected() {
    let data = [0xFEu8, 0xFF, b'{', b'}'];
    assert!(parse_all(&data).is_err());
}

#[test]
fn bom_utf16_le_rejected() {
    let data = [0xFFu8, 0xFE, 0x00, 0x00];
    // May need 4 bytes; FF FE with more non-zero is UTF-16 LE
    let data2 = [0xFFu8, 0xFE, 0x7B, 0x00];
    assert!(parse_all(&data2).is_err());
    let _ = data;
}

#[test]
fn bom_errors_name_the_encoding() {
    let msg = |d: &[u8]| parse_all(d).unwrap_err().message().to_string();
    assert_eq!(msg(&[0xFE, 0xFF, b'1']), "UTF-16 BE encoding not supported");
    assert_eq!(msg(&[0xFF, 0xFE, 0x31, 0x00]), "UTF-16 LE encoding not supported");
    assert_eq!(msg(&[0xFF, 0xFE, 0x00, 0x00]), "UTF-32 LE encoding not supported");
    assert_eq!(msg(&[0x00, 0x00, 0xFE, 0xFF]), "UTF-32 BE encoding not supported");
}

#[test]
fn decimals_keep_their_parts() {
    let f = parse_float("3.14");
    assert_eq!(f.text, "3.14");
    assert!(!f.negative);
    assert_eq!((f.int_value, f.frac_value, f.frac_scale), (3, 14, 100));
    assert!(f.has_fraction && !f.has_exponent);

    let f = parse_float("-0.001");
    assert!(f.negative);
    assert_eq!((f.int_value, f.frac_value, f.frac_scale), (0, 1, 1000));

    let f = parse_float("-42.0");
    assert!(f.negative);
    assert_eq!((f.int_value, f.frac_value, f.frac_scale), (42, 0, 10));
}

#[test]
fn exponents_keep_their_parts() {
    let f = parse_float("6.022e23");
    assert_eq!(f.text, "6.022e23");
    assert_eq!((f.int_value, f.frac_value, f.frac_scale), (6, 22, 1000));
    assert!(f.has_exponent && !f.exp_negative);
    assert_eq!(f.exponent, 23);

    let f = parse_float("1.5e-5");
    assert!(f.exp_negative);
    assert_eq!(f.exponent, 5);

    let f = parse_float("-2.5E+10");
    assert!(f.negative && !f.exp_negative);
    assert_eq!((f.int_value, f.frac_value, f.frac_scale, f.exponent), (2, 5, 10, 10));

    let f = parse_float("1E0");
    assert!(!f.has_fraction && f.has_exponent);
    assert_eq!((f.int_value, f.exponent), (1, 0));
}

#[test]
fn number_text_and_accessors() {
    assert_eq!(Number::I32(-5).to_text(), "-5");
    assert_eq!(Number::I64(i64::MIN).to_text(), "-9223372036854775808");
    assert_eq!(Number::I32(7).as_i64(), Some(7));
    assert_eq!(Number::I64(1 << 40).as_i32(), None);
    assert_eq!(Number::BigInt("99999999999999999999".to_string()).as_i64(), None);
    assert_eq!(parse_float("0.5").text, Number::Float(parse_float("0.5")).to_text());
}

#[test]
fn i64_bounds_and_beyond() {
    assert_eq!(parse_number_value("-9223372036854775808"), Number::I64(i64::MIN));
    assert_eq!(parse_number_value("9223372036854775807"), Number::I64(i64::MAX));
    assert_eq!(
        parse_number_value("9223372036854775808"),
        Number::BigInt("9223372036854775808".to_string())
    );
    assert_eq!(
        parse_number_value("-9223372036854775809"),
        Number::BigInt("-9223372036854775809".to_string())
    );
    assert_eq!(
        parse_number_value("18446744073709551616"),
        Number::BigInt("18446744073709551616".to_string())
    );
    assert_eq!(parse_number_value("-2147483648"), Number::I32(i32::MIN));
    assert_eq!(parse_number_value("-2147483649"), Number::I64(-2147483649));
}
