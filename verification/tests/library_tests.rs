use rjsonparser::keys::KeySymbolTable;
use rjsonparser::tokenizer::{after_answer, Tokenizer};
use rjsonparser::{ContentHandler, Number, ParseError, ParseResult, ParserLimits, WriteError};

#[test]
fn key_table_lookup_after_put() {
    let mut t = KeySymbolTable::new();
    let key = b"name";
    let mut h = KeySymbolTable::initial_hash();
    for &b in key.iter() {
        h = KeySymbolTable::hash_byte(h, b);
    }
    assert_eq!(t.lookup(key, h), None);
    t.put(key, h, "name".to_string());
    assert_eq!(t.lookup(key, h), Some("name"));
    assert_eq!(t.lookup(b"nam", h), None);
}

#[test]
fn key_table_fnv1a_values() {
    assert_eq!(KeySymbolTable::initial_hash(), 0x811c_9dc5);
    // FNV-1a of "a" is 0xe40c292c.
    assert_eq!(KeySymbolTable::hash_byte(0x811c_9dc5, b'a'), 0xe40c_292c);
}

#[test]
fn key_table_grows_and_keeps_entries() {
    let mut t = KeySymbolTable::new();
    let mut keys = Vec::new();
    for i in 0..200u32 {
        let k = format!("key{i}");
        let mut h = KeySymbolTable::initial_hash();
        for &b in k.as_bytes() {
            h = KeySymbolTable::hash_byte(h, b);
        }
        t.put(k.as_bytes(), h, k.clone());
        keys.push((k, h));
    }
    for (k, h) in &keys {
        assert_eq!(t.lookup(k.as_bytes(), *h), Some(k.as_str()));
    }
}

#[test]
fn key_table_stops_at_max_entries() {
    let mut t = KeySymbolTable::new();
    for i in 0..10_000u32 {
        let k = i.to_string();
        t.put(k.as_bytes(), i, k.clone());
    }
    t.put(b"late", 7, "late".to_string());
    assert_eq!(t.lookup(b"late", 7), None);
    assert_eq!(t.lookup(b"9999", 9999), Some("9999"));
}

#[test]
fn parser_limits_defaults_and_disable() {
    let mut l = ParserLimits::default();
    assert_eq!(l.max_nesting_depth, 1000);
    assert_eq!(l.max_number_length, 1000);
    assert_eq!(l.max_string_length, 20_000_000);
    assert_eq!(l.max_name_length, 50_000);
    assert_eq!(l.max_document_length, 0);
    assert_eq!(l.max_token_count, 0);
    l.disable_all();
    assert_eq!(
        (l.max_nesting_depth, l.max_number_length, l.max_string_length, l.max_name_length),
        (0, 0, 0, 0)
    );
    assert_eq!((l.max_document_length, l.max_token_count), (0, 0));
}

#[test]
fn error_messages() {
    let e = ParseError::new("bad");
    assert_eq!(e.message(), "bad");
    assert_eq!(e.to_string(), "bad");
    let w = WriteError::new("io");
    assert_eq!(w.message(), "io");
    assert_eq!(w.to_string(), "io");
}

#[derive(Default)]
struct Collect {
    events: Vec<String>,
}

impl ContentHandler for Collect {
    fn start_array(&mut self) -> ParseResult<()> {
        self.events.push("[".into());
        Ok(())
    }
    fn end_array(&mut self) -> ParseResult<()> {
        self.events.push("]".into());
        Ok(())
    }
    fn number_value(&mut self, value: &Number) -> ParseResult<()> {
        self.events.push(value.to_text());
        Ok(())
    }
}

#[test]
fn tokenizer_consumes_complete_tokens_only() {
    let mut handler = Collect::default();
    let mut table = KeySymbolTable::new();
    let limits = ParserLimits::default();
    let mut tok = Tokenizer::new(false, false);
    let (n, r) = tok.receive(&mut handler, &mut table, &limits, b"[1, 23");
    assert!(r.is_ok());
    assert_eq!(n, 4);
    assert_eq!(handler.events, vec!["[", "1"]);
    tok.set_closed(true);
    let (n, r) = tok.receive(&mut handler, &mut table, &limits, b"23");
    assert!(r.is_ok());
    assert_eq!(n, 2);
    assert_eq!(handler.events, vec!["[", "1", "23"]);
    assert!(tok.seen_any_token());
}

#[test]
fn key_table_lookup_gives_first_entry_and_keeps_others() {
    let hash_of = |key: &[u8]| {
        let mut h = KeySymbolTable::initial_hash();
        for &b in key.iter() {
            h = KeySymbolTable::hash_byte(h, b);
        }
        h
    };
    let mut t = KeySymbolTable::new();
    let ha = hash_of(b"a");
    let hb = hash_of(b"b");
    t.put(b"a", ha, "first".to_string());
    t.put(b"b", hb, "bee".to_string());
    t.put(b"a", ha, "second".to_string());
    assert_eq!(t.lookup(b"a", ha), Some("first"));
    t.put(b"c", hash_of(b"c"), "sea".to_string());
    assert_eq!(t.lookup(b"b", hb), Some("bee"));
    assert_eq!(t.lookup(b"a", ha), Some("first"));
}

#[test]
fn handler_answer_decides_what_follows() {
    assert_eq!(after_answer(Ok(()), Ok(())), Ok(()));
    let stop = ParseError::new("stop");
    let fault = ParseError::new("Unexpected ','");
    assert_eq!(after_answer(Err(stop.clone()), Err(fault.clone())), Err(stop.clone()));
    assert_eq!(after_answer(Err(stop.clone()), Ok(())), Err(stop));
    assert_eq!(after_answer(Ok(()), Err(fault.clone())), Err(fault));
}
