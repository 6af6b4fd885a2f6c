use rjsonparser::{ContentHandler, IndentConfig, Number, Parser, Writer};

#[derive(Default)]
struct EventRecorder {
    events: Vec<String>,
}

impl ContentHandler for EventRecorder {
    fn start_object(&mut self) -> rjsonparser::ParseResult<()> {
        self.events.push("start_object".into());
        Ok(())
    }

    fn end_object(&mut self) -> rjsonparser::ParseResult<()> {
        self.events.push("end_object".into());
        Ok(())
    }

    fn start_array(&mut self) -> rjsonparser::ParseResult<()> {
        self.events.push("start_array".into());
        Ok(())
    }

    fn end_array(&mut self) -> rjsonparser::ParseResult<()> {
        self.events.push("end_array".into());
        Ok(())
    }

    fn key(&mut self, key: &str) -> rjsonparser::ParseResult<()> {
        self.events.push(format!("key:{key}"));
        Ok(())
    }

    fn string_value(&mut self, value: &str) -> rjsonparser::ParseResult<()> {
        self.events.push(format!("string:{value}"));
        Ok(())
    }

    fn number_value(&mut self, value: &Number) -> rjsonparser::ParseResult<()> {
        self.events.push(format!("number:{}", value.to_text()));
        Ok(())
    }

    fn boolean_value(&mut self, value: bool) -> rjsonparser::ParseResult<()> {
        self.events.push(format!("bool:{value}"));
        Ok(())
    }

    fn null_value(&mut self) -> rjsonparser::ParseResult<()> {
        self.events.push("null".into());
        Ok(())
    }
}

#[test]
fn parse_object_records_events() {
    let json = br#"{"a":1}"#;
    let mut handler = EventRecorder::default();
    let mut parser = Parser::new(&mut handler);
    let mut input = &json[..];
    parser.receive(&mut input).unwrap();
    parser.close().unwrap();

    assert_eq!(
        handler.events,
        vec![
            "start_object".to_string(),
            "key:a".to_string(),
            "number:1".to_string(),
            "end_object".to_string(),
        ]
    );
}

#[test]
fn chunked_receive() {
    let json = br#"{"a":1}"#;
    let mut handler = EventRecorder::default();
    let mut parser = Parser::new(&mut handler);

    let mut chunk1 = &json[..3];
    parser.receive(&mut chunk1).unwrap();
    assert!(parser.is_underflow());

    let mut chunk2 = &json[3..];
    parser.receive(&mut chunk2).unwrap();
    parser.close().unwrap();

    assert_eq!(
        handler.events,
        vec![
            "start_object".to_string(),
            "key:a".to_string(),
            "number:1".to_string(),
            "end_object".to_string(),
        ]
    );
}

#[test]
fn writer_roundtrip_basic() {
    let mut w = Writer::buffer(64);
    w.write_start_object().unwrap();
    w.write_key("name").unwrap();
    w.write_string("Alice").unwrap();
    w.write_key("age").unwrap();
    w.write_i32(30).unwrap();
    w.write_end_object().unwrap();
    let bytes = w.finish().unwrap();

    let mut handler = EventRecorder::default();
    let mut parser = Parser::new(&mut handler);
    let mut input = bytes.as_slice();
    parser.receive(&mut input).unwrap();
    parser.close().unwrap();

    assert_eq!(
        handler.events,
        vec![
            "start_object".to_string(),
            "key:name".to_string(),
            "string:Alice".to_string(),
            "key:age".to_string(),
            "number:30".to_string(),
            "end_object".to_string(),
        ]
    );
}

#[test]
fn bare_number_with_close() {
    let json = b"42";
    let mut handler = EventRecorder::default();
    let mut parser = Parser::new(&mut handler);
    let mut input = &json[..];
    parser.receive(&mut input).unwrap();
    parser.close().unwrap();

    assert_eq!(handler.events, vec!["number:42".to_string()]);
}

#[test]
fn writer_escapes_read_back_by_parser() {
    let text = "tab\tquote\"slash\\ctl\u{0001}é👋";
    let mut w = Writer::buffer(16);
    w.write_start_array().unwrap();
    w.write_string(text).unwrap();
    w.write_boolean(true).unwrap();
    w.write_null().unwrap();
    w.write_end_array().unwrap();
    let bytes = w.finish().unwrap();

    let mut handler = EventRecorder::default();
    let mut parser = Parser::new(&mut handler);
    let mut input = bytes.as_slice();
    parser.receive(&mut input).unwrap();
    parser.close().unwrap();
    assert_eq!(
        handler.events,
        vec![
            "start_array".to_string(),
            format!("string:{text}"),
            "bool:true".to_string(),
            "null".to_string(),
            "end_array".to_string(),
        ]
    );
}

#[test]
fn integers_read_back_as_written() {
    let values = [0i64, -1, 7, i32::MIN as i64, i32::MAX as i64 + 1, i64::MAX, i64::MIN + 1, i64::MIN];
    let mut w = Writer::buffer(32);
    w.write_start_array().unwrap();
    for v in values {
        w.write_i64(v).unwrap();
    }
    w.write_end_array().unwrap();
    let bytes = w.finish().unwrap();

    let mut handler = EventRecorder::default();
    let mut parser = Parser::new(&mut handler);
    let mut input = bytes.as_slice();
    parser.receive(&mut input).unwrap();
    parser.close().unwrap();
    let mut expected = vec!["start_array".to_string()];
    for v in values {
        expected.push(format!("number:{v}"));
    }
    expected.push("end_array".to_string());
    assert_eq!(handler.events, expected);
}

#[test]
fn smallest_i64_reads_back_as_i64() {
    let mut w = Writer::buffer(32);
    w.write_i64(i64::MIN).unwrap();
    let bytes = w.finish().unwrap();
    struct Numbers(Vec<Number>);
    impl ContentHandler for Numbers {
        fn number_value(&mut self, value: &Number) -> rjsonparser::ParseResult<()> {
            self.0.push(value.clone());
            Ok(())
        }
    }
    let mut handler = Numbers(Vec::new());
    let mut parser = Parser::new(&mut handler);
    let mut input = bytes.as_slice();
    parser.receive(&mut input).unwrap();
    parser.close().unwrap();
    assert_eq!(handler.0, vec![Number::I64(i64::MIN)]);
}

#[test]
fn bare_number_document_is_read_at_close() {
    let mut w = Writer::buffer(8);
    w.write_i32(-15).unwrap();
    let bytes = w.finish().unwrap();
    let mut handler = EventRecorder::default();
    let mut parser = Parser::new(&mut handler);
    let mut input = bytes.as_slice();
    parser.receive(&mut input).unwrap();
    assert!(parser.is_underflow());
    parser.close().unwrap();
    assert_eq!(handler.events, vec!["number:-15".to_string()]);
}


#[test]
fn indented_output_reads_back_as_written() {
    for indent in [IndentConfig::spaces2(), IndentConfig::tabs()] {
        let mut w = Writer::with_indent(Vec::new(), indent);
        w.write_start_object().unwrap();
        w.write_key("list").unwrap();
        w.write_start_array().unwrap();
        w.write_i32(5).unwrap();
        w.write_string("x\ny").unwrap();
        w.write_start_object().unwrap();
        w.write_end_object().unwrap();
        w.write_end_array().unwrap();
        w.write_key("ok").unwrap();
        w.write_boolean(true).unwrap();
        w.write_end_object().unwrap();
        let bytes = w.finish().unwrap();

        let mut handler = EventRecorder::default();
        let mut parser = Parser::new(&mut handler);
        let mut input = bytes.as_slice();
        parser.receive(&mut input).unwrap();
        parser.close().unwrap();
        assert_eq!(
            handler.events,
            vec![
                "start_object".to_string(),
                "key:list".to_string(),
                "start_array".to_string(),
                "number:5".to_string(),
                "string:x\ny".to_string(),
                "start_object".to_string(),
                "end_object".to_string(),
                "end_array".to_string(),
                "key:ok".to_string(),
                "bool:true".to_string(),
                "end_object".to_string(),
            ]
        );
    }
}
