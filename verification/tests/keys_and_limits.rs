use rjsonparser::{ContentHandler, Number, ParseResult, Parser};

#[derive(Debug, Default)]
struct RecordingHandler {
    events: Vec<String>,
    strings: Vec<String>,
    keys: Vec<String>,
    numbers: Vec<Number>,
    booleans: Vec<bool>,
    nulls: usize,
}

impl RecordingHandler {
    fn new() -> Self {
        Self::default()
    }
}

impl ContentHandler for RecordingHandler {
    fn start_object(&mut self) -> ParseResult<()> {
        self.events.push("startObject".into());
        Ok(())
    }
    fn end_object(&mut self) -> ParseResult<()> {
        self.events.push("endObject".into());
        Ok(())
    }
    fn start_array(&mut self) -> ParseResult<()> {
        self.events.push("startArray".into());
        Ok(())
    }
    fn end_array(&mut self) -> ParseResult<()> {
        self.events.push("endArray".into());
        Ok(())
    }
    fn key(&mut self, key: &str) -> ParseResult<()> {
        self.keys.push(key.to_owned());
        self.events.push(format!("key:{key}"));
        Ok(())
    }
    fn string_value(&mut self, value: &str) -> ParseResult<()> {
        self.strings.push(value.to_owned());
        self.events.push(format!("string:{value}"));
        Ok(())
    }
    fn number_value(&mut self, value: &Number) -> ParseResult<()> {
        self.numbers.push(value.clone());
        self.events.push(format!("number:{}", value.to_text()));
        Ok(())
    }
    fn boolean_value(&mut self, value: bool) -> ParseResult<()> {
        self.booleans.push(value);
        self.events.push(format!("boolean:{value}"));
        Ok(())
    }
    fn null_value(&mut self) -> ParseResult<()> {
        self.nulls += 1;
        self.events.push("null".into());
        Ok(())
    }
}

fn parse_all(input: &[u8]) -> ParseResult<RecordingHandler> {
    let mut handler = RecordingHandler::new();
    {
        let mut parser = Parser::new(&mut handler);
        parser.disable_all_limits();
        let mut data = input;
        parser.receive(&mut data)?;
        parser.close()?;
    }
    Ok(handler)
}

#[test]
fn duplicate_keys_allowed_by_default() {
    let h = parse_all(br#"{"a":1,"a":2}"#).unwrap();
    assert_eq!(h.keys, vec!["a", "a"]);
    assert_eq!(h.numbers.len(), 2);
}

#[test]
fn duplicate_keys_rejected_when_enabled() {
    let mut handler = RecordingHandler::new();
    let mut parser = Parser::new(&mut handler);
    parser.disable_all_limits();
    parser.set_reject_duplicate_keys(true);
    let mut data = &br#"{"a":1,"a":2}"#[..];
    let err = parser.receive(&mut data).unwrap_err();
    assert!(err.message().contains("Duplicate key"));
}

#[test]
fn duplicate_keys_scoped_per_object() {
    let mut handler = RecordingHandler::new();
    {
        let mut parser = Parser::new(&mut handler);
        parser.disable_all_limits();
        parser.set_reject_duplicate_keys(true);
        let mut data = &br#"{"a":{"a":1},"b":2}"#[..];
        parser.receive(&mut data).unwrap();
        parser.close().unwrap();
    }
    assert_eq!(handler.keys, vec!["a", "a", "b"]);
}

#[test]
fn key_interning_repeated_keys() {
    // Many objects with the same key: the keys come out right whether interned or not.
    let mut json = String::from("[");
    for i in 0..100 {
        if i > 0 {
            json.push(',');
        }
        json.push_str(r#"{"name":"x"}"#);
    }
    json.push(']');
    let h = parse_all(json.as_bytes()).unwrap();
    assert_eq!(h.keys.len(), 100);
    assert!(h.keys.iter().all(|k| k == "name"));
}

#[test]
fn limits_nesting_depth() {
    let mut handler = RecordingHandler::new();
    let mut parser = Parser::new(&mut handler);
    parser.set_max_nesting_depth(2);
    let mut data = &b"[[[1]]]"[..];
    assert!(parser.receive(&mut data).is_err());
}

#[test]
fn limits_string_length() {
    let mut handler = RecordingHandler::new();
    let mut parser = Parser::new(&mut handler);
    parser.set_max_string_length(5);
    let mut data = &br#""abcdef""#[..];
    assert!(parser.receive(&mut data).is_err());
}

#[test]
fn limits_number_length() {
    let mut handler = RecordingHandler::new();
    let mut parser = Parser::new(&mut handler);
    parser.set_max_number_length(3);
    let mut data = &b"1234"[..];
    parser.receive(&mut data).unwrap(); // may underflow until close
    assert!(parser.close().is_err());
}

#[test]
fn limits_document_length() {
    let mut handler = RecordingHandler::new();
    let mut parser = Parser::new(&mut handler);
    parser.set_max_document_length(3);
    let mut data = &b"1234"[..];
    assert!(parser.receive(&mut data).is_err());
}

#[test]
fn limits_token_count() {
    let mut handler = RecordingHandler::new();
    let mut parser = Parser::new(&mut handler);
    parser.set_max_token_count(2);
    let mut data = &b"[1,2,3]"[..];
    assert!(parser.receive(&mut data).is_err());
}

#[test]
fn disable_all_limits_allows_deep() {
    let nested = "[".repeat(50) + "1" + &"]".repeat(50);
    let h = parse_all(nested.as_bytes()).unwrap();
    assert_eq!(h.numbers[0].as_i32(), Some(1));
}

#[test]
fn reset_reuses_parser() {
    let mut handler = RecordingHandler::new();
    {
        let mut parser = Parser::new(&mut handler);
        parser.disable_all_limits();
        let mut d1 = &b"1"[..];
        parser.receive(&mut d1).unwrap();
        parser.close().unwrap();
        parser.reset();
        let mut d2 = &b"2"[..];
        parser.receive(&mut d2).unwrap();
        parser.close().unwrap();
    }
    assert_eq!(handler.numbers.len(), 2);
    assert_eq!(handler.numbers[0].as_i32(), Some(1));
    assert_eq!(handler.numbers[1].as_i32(), Some(2));
}

#[test]
fn limit_error_messages() {
    let mut handler = RecordingHandler::new();
    let mut parser = Parser::new(&mut handler);
    parser.set_max_nesting_depth(2);
    let mut data = &b"[[["[..];
    assert_eq!(parser.receive(&mut data).unwrap_err().message(), "Maximum nesting depth exceeded: 2");

    let mut handler = RecordingHandler::new();
    let mut parser = Parser::new(&mut handler);
    parser.set_max_document_length(3);
    let mut data = &b"1234"[..];
    assert_eq!(parser.receive(&mut data).unwrap_err().message(), "Maximum document length exceeded: 3");

    let mut handler = RecordingHandler::new();
    let mut parser = Parser::new(&mut handler);
    parser.set_max_token_count(2);
    let mut data = &b"[1,2,3]"[..];
    assert_eq!(parser.receive(&mut data).unwrap_err().message(), "Maximum token count exceeded: 2");

    let mut handler = RecordingHandler::new();
    let mut parser = Parser::new(&mut handler);
    parser.set_max_name_length(2);
    let mut data = &br#"{"abc":1}"#[..];
    assert_eq!(parser.receive(&mut data).unwrap_err().message(), "Maximum key length exceeded: 2");

    let mut handler = RecordingHandler::new();
    let mut parser = Parser::new(&mut handler);
    parser.set_max_string_length(5);
    let mut data = &br#""abcdef""#[..];
    assert_eq!(parser.receive(&mut data).unwrap_err().message(), "Maximum string length exceeded: 5");

    let mut handler = RecordingHandler::new();
    let mut parser = Parser::new(&mut handler);
    parser.set_max_number_length(3);
    let mut data = &b"1234 "[..];
    assert_eq!(parser.receive(&mut data).unwrap_err().message(), "Maximum number length exceeded: 3");
}

#[test]
fn receive_after_close_fails() {
    let mut handler = RecordingHandler::new();
    let mut parser = Parser::new(&mut handler);
    let mut data = &b"1"[..];
    parser.receive(&mut data).unwrap();
    parser.close().unwrap();
    assert!(parser.close().is_ok());
    let mut more = &b"2"[..];
    let err = parser.receive(&mut more).unwrap_err();
    assert_eq!(err.message(), "Cannot receive data after close()");
    assert_eq!(more, b"2");
}

#[test]
fn close_without_data_fails() {
    let mut handler = RecordingHandler::new();
    let mut parser = Parser::new(&mut handler);
    assert_eq!(parser.close().unwrap_err().message(), "No data");

    let mut handler = RecordingHandler::new();
    let mut parser = Parser::new(&mut handler);
    let mut data = &b"   "[..];
    parser.receive(&mut data).unwrap();
    assert_eq!(parser.close().unwrap_err().message(), "No data");
}

#[test]
fn close_reports_unclosed_containers() {
    let mut handler = RecordingHandler::new();
    let mut parser = Parser::new(&mut handler);
    let mut data = &br#"{"a":["#[..];
    parser.receive(&mut data).unwrap();
    assert_eq!(parser.close().unwrap_err().message(), "Unclosed array");

    let mut handler = RecordingHandler::new();
    let mut parser = Parser::new(&mut handler);
    let mut data = &br#"[{"a":1"#[..];
    parser.receive(&mut data).unwrap();
    assert_eq!(parser.close().unwrap_err().message(), "Unclosed object");

    let mut handler = RecordingHandler::new();
    let mut parser = Parser::new(&mut handler);
    let mut data = &br#"["abc"#[..];
    parser.receive(&mut data).unwrap();
    assert!(parser.is_underflow());
    assert_eq!(parser.close().unwrap_err().message(), "Unclosed string");
}

#[test]
fn buffer_size_is_kept() {
    let mut handler = RecordingHandler::new();
    let parser = Parser::with_buffer_size(&mut handler, 17);
    assert_eq!(parser.buffer_size(), 17);
    let mut handler = RecordingHandler::new();
    let parser = Parser::new(&mut handler);
    assert_eq!(parser.buffer_size(), 8192);
}

#[test]
fn string_limit_counts_characters() {
    // Three two-byte characters are three characters: within a limit of 5.
    let mut handler = RecordingHandler::new();
    {
        let mut parser = Parser::new(&mut handler);
        parser.set_max_string_length(5);
        let mut data = "\"ééé\"".as_bytes();
        parser.receive(&mut data).unwrap();
        parser.close().unwrap();
    }
    assert_eq!(handler.strings, vec!["ééé".to_string()]);

    let mut handler = RecordingHandler::new();
    let mut parser = Parser::new(&mut handler);
    parser.set_max_string_length(5);
    let mut data = &br#""abcde""#[..];
    parser.receive(&mut data).unwrap();
    parser.close().unwrap();

    // An escape counts as the one character it stands for.
    let mut handler = RecordingHandler::new();
    let mut parser = Parser::new(&mut handler);
    parser.set_max_string_length(3);
    let mut data = &br#""\u0041\n\t""#[..];
    parser.receive(&mut data).unwrap();
    parser.close().unwrap();
}

#[test]
fn key_limit_counts_characters() {
    let mut handler = RecordingHandler::new();
    {
        let mut parser = Parser::new(&mut handler);
        parser.set_max_name_length(2);
        let mut data = "{\"éé\":1}".as_bytes();
        parser.receive(&mut data).unwrap();
        parser.close().unwrap();
    }
    assert_eq!(handler.keys, vec!["éé".to_string()]);

    let mut handler = RecordingHandler::new();
    let mut parser = Parser::new(&mut handler);
    parser.set_max_name_length(2);
    let mut data = "{\"ééé\":1}".as_bytes();
    assert_eq!(parser.receive(&mut data).unwrap_err().message(), "Maximum key length exceeded: 2");
}
