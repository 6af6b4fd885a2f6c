use rjsonparser::{ContentHandler, DefaultHandler, Locator, Number, ParseResult, Parser};

#[derive(Debug, Default)]
struct RecordingHandler {
    events: Vec<String>,
    strings: Vec<String>,
    keys: Vec<String>,
    numbers: Vec<Number>,
    booleans: Vec<bool>,
    nulls: usize,
    needs_ws: bool,
}

impl RecordingHandler {
    fn new() -> Self {
        Self::default()
    }

    fn with_whitespace() -> Self {
        Self {
            needs_ws: true,
            ..Self::default()
        }
    }
}

impl ContentHandler for RecordingHandler {
    fn start_object(&mut self) -> ParseResult<()> {
        self.events.push("startObject".into());
        Ok(())
    }
    fn end_object(&mut self) -> ParseResult<()> {
        self.events.push("endObject".into());
        Ok(())
    }
    fn start_array(&mut self) -> ParseResult<()> {
        self.events.push("startArray".into());
        Ok(())
    }
    fn end_array(&mut self) -> ParseResult<()> {
        self.events.push("endArray".into());
        Ok(())
    }
    fn key(&mut self, key: &str) -> ParseResult<()> {
        self.keys.push(key.to_owned());
        self.events.push(format!("key:{key}"));
        Ok(())
    }
    fn string_value(&mut self, value: &str) -> ParseResult<()> {
        self.strings.push(value.to_owned());
        self.events.push(format!("string:{value}"));
        Ok(())
    }
    fn number_value(&mut self, value: &Number) -> ParseResult<()> {
        self.numbers.push(value.clone());
        self.events.push(format!("number:{}", value.to_text()));
        Ok(())
    }
    fn boolean_value(&mut self, value: bool) -> ParseResult<()> {
        self.booleans.push(value);
        self.events.push(format!("boolean:{value}"));
        Ok(())
    }
    fn null_value(&mut self) -> ParseResult<()> {
        self.nulls += 1;
        self.events.push("null".into());
        Ok(())
    }
    fn whitespace(&mut self, ws: &str) -> ParseResult<()> {
        self.events.push(format!("ws:{ws:?}"));
        Ok(())
    }
    fn needs_whitespace(&self) -> bool {
        self.needs_ws
    }
}

fn parse_all(input: &[u8]) -> ParseResult<RecordingHandler> {
    let mut handler = RecordingHandler::new();
    {
        let mut parser = Parser::new(&mut handler);
        parser.disable_all_limits();
        let mut data = input;
        parser.receive(&mut data)?;
        parser.close()?;
    }
    Ok(handler)
}

fn parse_string_value(json: &str) -> String {
    let handler = parse_all(json.as_bytes()).expect("parse failed");
    handler.strings.into_iter().next().expect("no string")
}

/// Feeds `input` in chunks of `chunk_size`; unconsumed bytes stay in the parser.
fn parse_chunked(input: &[u8], chunk_size: usize) -> ParseResult<RecordingHandler> {
    let mut handler = RecordingHandler::new();
    {
        let mut parser = Parser::new(&mut handler);
        parser.disable_all_limits();
        let mut offset = 0;
        while offset < input.len() {
            let end = (offset + chunk_size).min(input.len());
            let mut slice = &input[offset..end];
            parser.receive(&mut slice)?;
            offset = end;
        }
        parser.close()?;
    }
    Ok(handler)
}

#[test]
fn escape_basic() {
    assert_eq!(parse_string_value(r#""Hello\"World""#), "Hello\"World");
    assert_eq!(parse_string_value(r#""Hello\\World""#), "Hello\\World");
    assert_eq!(parse_string_value(r#""Hello\/World""#), "Hello/World");
    assert_eq!(parse_string_value(r#""Hello\bWorld""#), "Hello\u{0008}World");
    assert_eq!(parse_string_value(r#""Hello\fWorld""#), "Hello\u{000c}World");
    assert_eq!(parse_string_value(r#""Hello\nWorld""#), "Hello\nWorld");
    assert_eq!(parse_string_value(r#""Hello\rWorld""#), "Hello\rWorld");
    assert_eq!(parse_string_value(r#""Hello\tWorld""#), "Hello\tWorld");
}

#[test]
fn escape_unicode() {
    assert_eq!(parse_string_value(r#""\u0041""#), "A");
    assert_eq!(parse_string_value(r#""\u00e9""#), "é");
    assert_eq!(parse_string_value(r#""\u20ac""#), "€");
    assert_eq!(parse_string_value(r#""\u4e2d""#), "中");
    assert_eq!(parse_string_value(r#""\u0041\u0042\u0043""#), "ABC");
}

#[test]
fn escape_surrogate_pair() {
    // Musical G clef U+1D11E
    assert_eq!(
        parse_string_value(r#""\uD834\uDD1E""#),
        "\u{1D11E}"
    );
}

#[test]
fn escape_all_basic() {
    assert_eq!(
        parse_string_value(r#""\"\\\/\b\f\n\r\t""#),
        "\"\\/\u{0008}\u{000c}\n\r\t"
    );
}

#[test]
fn reject_invalid_escape() {
    assert!(parse_all(br#""\x""#).is_err());
    assert!(parse_all(br#""\u12""#).is_err());
    assert!(parse_all(b"\"\n\"").is_err()); // unescaped control
}

#[test]
fn reject_unclosed_string() {
    assert!(parse_all(br#""hello"#).is_err());
}

#[test]
fn streaming_byte_by_byte() {
    let input = br#"{"a":[true,false,null],"b":"hi"}"#;
    let h = parse_chunked(input, 1).expect("chunked parse");
    assert!(h.keys.contains(&"a".into()));
    assert!(h.keys.contains(&"b".into()));
    assert_eq!(h.booleans, vec![true, false]);
    assert_eq!(h.nulls, 1);
    assert_eq!(h.strings, vec!["hi"]);
}

#[test]
fn streaming_split_string_escape() {
    let input = br#""Hello\nWorld""#;
    for size in 1..=input.len() {
        let h = parse_chunked(input, size).unwrap_or_else(|e| panic!("size {size}: {}", e.message()));
        assert_eq!(h.strings, vec!["Hello\nWorld"], "size {size}");
    }
}

#[test]
fn streaming_split_number() {
    let input = b"12345";
    for size in 1..=input.len() {
        let h = parse_chunked(input, size).unwrap_or_else(|e| panic!("size {size}: {}", e.message()));
        assert_eq!(h.numbers[0].as_i32(), Some(12345), "size {size}");
    }
}

#[test]
fn trailing_comma_rejected() {
    assert!(parse_all(b"[1,]").is_err());
    assert!(parse_all(br#"{"a":1,}"#).is_err());
}

#[test]
fn empty_object_and_array() {
    let h = parse_all(b"{}").unwrap();
    assert_eq!(h.events, vec!["startObject", "endObject"]);
    let h = parse_all(b"[]").unwrap();
    assert_eq!(h.events, vec!["startArray", "endArray"]);
}

#[test]
fn whitespace_opt_in() {
    let mut handler = RecordingHandler::with_whitespace();
    {
        let mut parser = Parser::new(&mut handler);
        parser.disable_all_limits();
        let mut data = &b"  1  "[..];
        parser.receive(&mut data).unwrap();
        parser.close().unwrap();
    }
    assert!(handler.events.iter().any(|e| e.starts_with("ws:")));
    assert_eq!(handler.numbers[0].as_i32(), Some(1));
}

#[test]
fn default_handler_ok() {
    let mut handler = DefaultHandler;
    let mut parser = Parser::new(&mut handler);
    parser.disable_all_limits();
    let mut data = &br#"{"x":1}"#[..];
    parser.receive(&mut data).unwrap();
    parser.close().unwrap();
}

struct AbortHandler;
impl ContentHandler for AbortHandler {
    fn start_object(&mut self) -> ParseResult<()> {
        Err(rjsonparser::ParseError::new("abort"))
    }
}

#[test]
fn handler_error_propagates() {
    let mut handler = AbortHandler;
    let mut parser = Parser::new(&mut handler);
    let mut data = &b"{"[..];
    let err = parser.receive(&mut data).unwrap_err();
    assert_eq!(err.message(), "abort");
}

#[test]
fn every_chunk_size_gives_the_same_events() {
    let input = br#"{"k":[1,-2.5e3,"s\u00e9",true,null,{}],"x":"y"}"#;
    let whole = parse_all(input).unwrap().events;
    for size in 1..=input.len() {
        let h = parse_chunked(input, size).unwrap();
        assert_eq!(h.events, whole, "size {size}");
    }
}

#[test]
fn receive_keeps_incomplete_token() {
    let mut handler = RecordingHandler::new();
    let mut parser = Parser::new(&mut handler);
    let mut data = &b"[12"[..];
    parser.receive(&mut data).unwrap();
    assert_eq!(data, b"12");
    assert!(parser.is_underflow());
    let mut rest = &b"3]"[..];
    parser.receive(&mut rest).unwrap();
    assert!(rest.is_empty());
    assert!(!parser.is_underflow());
    parser.close().unwrap();
    assert_eq!(handler.numbers, vec![Number::I32(123)]);
}

#[test]
fn syntax_error_messages() {
    let msg = |d: &[u8]| parse_all(d).unwrap_err().message().to_string();
    assert_eq!(msg(b"[1,]"), "Trailing comma before ']'");
    assert_eq!(msg(br#"{"a":1,}"#), "Trailing comma before '}'");
    assert_eq!(msg(b"1,2"), "Unexpected comma at root level");
    assert_eq!(msg(b"[1:"), "Unexpected ':'");
    assert_eq!(msg(b"]"), "Unexpected ']'");
    assert_eq!(msg(b"@"), "Unexpected character: @");
    assert_eq!(msg(br#""\x""#), "Invalid escape sequence: \\x");
    assert_eq!(msg(br#""\u12g4""#), "Invalid hex digit: g");
    assert_eq!(msg(b"tru"), "Incomplete literal");
    assert_eq!(msg(b"trux"), "Invalid literal");
    assert_eq!(msg(b"-"), "Invalid number: just '-'");
    assert_eq!(msg(b"01"), "Numbers cannot have leading zeros");
    assert_eq!(msg(b"1."), "Decimal point must be followed by digit");
    assert_eq!(msg(b"1e"), "Incomplete exponent");
    assert_eq!(msg(b"[1e+]"), "Exponent must have digit");
    assert_eq!(msg(b"\"\n\""), "Unescaped control character in string");
    assert_eq!(msg(b"{\"a\" 1}"), "Unexpected number");
}

struct PositionHandler {
    seen: Vec<(String, usize, usize)>,
    line: usize,
    column: usize,
}

impl ContentHandler for PositionHandler {
    fn set_locator(&mut self, locator: &dyn Locator) {
        self.line = locator.line_number();
        self.column = locator.column_number();
    }
    fn key(&mut self, key: &str) -> ParseResult<()> {
        self.seen.push((format!("key:{key}"), self.line, self.column));
        Ok(())
    }
    fn number_value(&mut self, value: &Number) -> ParseResult<()> {
        self.seen.push((format!("number:{}", value.to_text()), self.line, self.column));
        Ok(())
    }
}

#[test]
fn locator_reports_event_positions() {
    let mut handler = PositionHandler { seen: Vec::new(), line: 0, column: 0 };
    {
        let mut parser = Parser::new(&mut handler);
        let mut data = &b"{\n\"ab\": 12}"[..];
        parser.receive(&mut data).unwrap();
        parser.close().unwrap();
    }
    assert_eq!(handler.seen.len(), 2);
    assert_eq!(handler.seen[0].0, "key:ab");
    assert_eq!(handler.seen[1].0, "number:12");
    assert_eq!(handler.seen[0].1, 2);
}

#[test]
fn more_error_messages() {
    let msg = |d: &[u8]| parse_all(d).unwrap_err().message().to_string();
    assert_eq!(msg(br#"{"a" "b"}"#), "Unexpected string");
    assert_eq!(msg(br#"{{"#), "Unexpected '{'");
    assert_eq!(msg(br#"{["#), "Unexpected '['");
    assert_eq!(msg(b"[}"), "Unexpected '}'");
    assert_eq!(msg(b"[1 true]"), "Unexpected 'true'");
    assert_eq!(msg(b"[1 false]"), "Unexpected 'false'");
    assert_eq!(msg(b"[1 null]"), "Unexpected 'null'");
    assert_eq!(msg(b"-a"), "Invalid number format");
    assert_eq!(msg(br#""\u12"#), "Incomplete Unicode escape");
    assert_eq!(msg(br#""\"#), "Unexpected EOF in escape sequence");
    assert_eq!(msg(b"\"\xff\""), "Malformed UTF-8");
    assert_eq!(msg(b"[1,2"), "Unclosed array");
}

#[test]
fn whitespace_events_carry_the_whitespace() {
    let mut handler = RecordingHandler::with_whitespace();
    {
        let mut parser = Parser::new(&mut handler);
        let mut data = &b"[ 1,\t2 ]"[..];
        parser.receive(&mut data).unwrap();
        parser.close().unwrap();
    }
    assert_eq!(
        handler.events,
        vec!["startArray", "ws:\" \"", "number:1", "ws:\"\\t\"", "number:2", "ws:\" \"", "endArray"]
    );
}

#[derive(Default)]
struct PlaceRecorder {
    seen: Vec<(String, usize, usize)>,
    line: usize,
    column: usize,
}

impl PlaceRecorder {
    fn note(&mut self, what: String) -> ParseResult<()> {
        self.seen.push((what, self.line, self.column));
        Ok(())
    }
}

impl ContentHandler for PlaceRecorder {
    fn set_locator(&mut self, locator: &dyn Locator) {
        self.line = locator.line_number();
        self.column = locator.column_number();
    }
    fn start_object(&mut self) -> ParseResult<()> {
        self.note("{".to_string())
    }
    fn end_object(&mut self) -> ParseResult<()> {
        self.note("}".to_string())
    }
    fn start_array(&mut self) -> ParseResult<()> {
        self.note("[".to_string())
    }
    fn end_array(&mut self) -> ParseResult<()> {
        self.note("]".to_string())
    }
    fn key(&mut self, key: &str) -> ParseResult<()> {
        self.note(format!("key:{key}"))
    }
    fn string_value(&mut self, value: &str) -> ParseResult<()> {
        self.note(format!("string:{value}"))
    }
    fn number_value(&mut self, value: &Number) -> ParseResult<()> {
        self.note(format!("number:{}", value.to_text()))
    }
    fn boolean_value(&mut self, value: bool) -> ParseResult<()> {
        self.note(format!("bool:{value}"))
    }
    fn null_value(&mut self) -> ParseResult<()> {
        self.note("null".to_string())
    }
}

fn places(chunks: &[&[u8]]) -> Vec<(String, usize, usize)> {
    let mut handler = PlaceRecorder::default();
    {
        let mut parser = Parser::new(&mut handler);
        for chunk in chunks {
            let mut data = *chunk;
            parser.receive(&mut data).unwrap();
        }
        parser.close().unwrap();
    }
    handler.seen
}

#[test]
fn locator_columns_start_at_one() {
    let seen = places(&[b"{}"]);
    assert_eq!(seen, vec![("{".to_string(), 1, 1), ("}".to_string(), 1, 2)]);
    let seen = places(&[b"{\n\"ab\": 12}"]);
    assert_eq!(seen[1], ("key:ab".to_string(), 2, 1));
    assert_eq!(seen[2], ("number:12".to_string(), 2, 7));
}

#[test]
fn positions_do_not_depend_on_chunking() {
    let doc: &[u8] = b"{\"a\" :  [true, false,\r\n  null],\n\t\"b\": \"hi\", \"c\": -1.5e3 }";
    let whole = places(&[doc]);
    assert_eq!(whole.len(), 12);
    assert_eq!(whole[4], ("bool:false".to_string(), 1, 16));
    assert_eq!(whole[6], ("]".to_string(), 3, 7));
    for cut in 0..=doc.len() {
        let (x, y) = doc.split_at(cut);
        assert_eq!(places(&[x, y]), whole, "split at {cut}");
    }
    let bytes: Vec<&[u8]> = doc.chunks(1).collect();
    assert_eq!(places(&bytes), whole);
}

#[test]
fn receive_keeps_unconsumed_input_in_place() {
    let mut handler = DefaultHandler;
    let mut parser = Parser::new(&mut handler);
    let mut first = &b"1"[..];
    parser.receive(&mut first).unwrap();
    assert_eq!(first, b"1");
    assert!(parser.is_underflow());
    let mut second = &b"2"[..];
    parser.receive(&mut second).unwrap();
    assert_eq!(second, b"2");
    assert!(parser.is_underflow());
    let mut third = &b"3 "[..];
    parser.receive(&mut third).unwrap();
    assert_eq!(third, b"");
    assert!(!parser.is_underflow());
    parser.close().unwrap();
}

struct StopAtSecondKey {
    keys: Vec<String>,
}

impl ContentHandler for StopAtSecondKey {
    fn key(&mut self, key: &str) -> ParseResult<()> {
        self.keys.push(key.to_string());
        if self.keys.len() == 2 {
            Err(rjsonparser::ParseError::new("enough"))
        } else {
            Ok(())
        }
    }
}

#[test]
fn handler_error_stops_delivery_and_is_returned_unchanged() {
    let mut handler = StopAtSecondKey { keys: Vec::new() };
    {
        let mut parser = Parser::new(&mut handler);
        // The document would fail later on its own (trailing comma); the handler's error comes first.
        let mut data = &br#"{"a":1,"b":2,"c":3,}"#[..];
        let err = parser.receive(&mut data).unwrap_err();
        assert_eq!(err.message(), "enough");
    }
    assert_eq!(handler.keys, vec!["a".to_string(), "b".to_string()]);
}

#[test]
fn trailing_comma_fault_with_accepting_handler() {
    let mut handler = DefaultHandler;
    let mut parser = Parser::new(&mut handler);
    let mut data = &b"[1,]"[..];
    assert_eq!(parser.receive(&mut data).unwrap_err().message(), "Trailing comma before ']'");
}

#[test]
fn receive_error_with_pending_bytes_takes_the_input() {
    let mut handler = DefaultHandler;
    let mut parser = Parser::new(&mut handler);
    let mut first = &b"1"[..];
    parser.receive(&mut first).unwrap();
    let mut second = &b"x"[..];
    assert!(parser.receive(&mut second).is_err());
    assert_eq!(second, b"");

    let mut handler = DefaultHandler;
    let mut parser = Parser::new(&mut handler);
    let mut only = &b"[x"[..];
    assert!(parser.receive(&mut only).is_err());
    assert_eq!(only, b"[x");
}

fn accepts(doc: &[u8]) -> bool {
    let mut handler = DefaultHandler;
    let mut parser = Parser::new(&mut handler);
    parser.disable_all_limits();
    let mut data = doc;
    parser.receive(&mut data).is_ok() && parser.close().is_ok()
}

#[test]
fn accepts_exactly_json_texts() {
    let texts: [&[u8]; 12] = [
        b"[]",
        b"{}",
        b" 1 ",
        b"-0.5e+10",
        b"\"\\u00e9\\n\"",
        "\"é\"".as_bytes(),
        b"\xEF\xBB\xBF[1]",
        b"{\"a\":[true,false,null],\"b\":{}}",
        b"\t\r\n0\n",
        b"[[[]]]",
        b"{\"a\":1,\"a\":2}",
        b"\"\"",
    ];
    for t in texts {
        assert!(accepts(t), "{:?}", t);
    }
    let non_texts: [&[u8]; 16] = [
        b"",
        b"   ",
        b"[1,]",
        b"{\"a\"}",
        b"01",
        b"1.",
        b"\"\x01\"",
        b"[",
        b"1 2",
        b"{\"a\":1,}",
        b"\"\xC3\"",
        b"\xEF\xBB[1]",
        b"[1]]",
        b"nul",
        b"'a'",
        b"\"\\x\"",
    ];
    for t in non_texts {
        assert!(!accepts(t), "{:?}", t);
    }
}
