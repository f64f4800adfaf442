use kv::codec::{decode_record, encode_record, Command};

fn chars(s: &str) -> Vec<char> {
    s.chars().collect()
}

fn text(v: &[char]) -> String {
    v.iter().collect()
}

fn put(key: &str, value: &str) -> Command {
    Command::Put { key: key.to_string(), value: value.to_string() }
}

fn rm(key: &str) -> Command {
    Command::Remove { key: key.to_string() }
}

fn serde_set_record(key: &str, value: &str) -> String {
    let mut inner = serde_json::Map::new();
    inner.insert("key".to_string(), serde_json::Value::String(key.to_string()));
    inner.insert("value".to_string(), serde_json::Value::String(value.to_string()));
    let mut outer = serde_json::Map::new();
    outer.insert("Set".to_string(), serde_json::Value::Object(inner));
    serde_json::to_string(&serde_json::Value::Object(outer)).unwrap()
}

fn serde_remove_record(key: &str) -> String {
    let mut inner = serde_json::Map::new();
    inner.insert("key".to_string(), serde_json::Value::String(key.to_string()));
    let mut outer = serde_json::Map::new();
    outer.insert("Remove".to_string(), serde_json::Value::Object(inner));
    serde_json::to_string(&serde_json::Value::Object(outer)).unwrap()
}

#[test]
fn encode_set_literal() {
    let r = encode_record(&put("a", "1"));
    assert_eq!(text(&r), "{\"Set\":{\"key\":\"a\",\"value\":\"1\"}}");
}

#[test]
fn encode_remove_literal() {
    let r = encode_record(&rm("k"));
    assert_eq!(text(&r), "{\"Remove\":{\"key\":\"k\"}}");
}

#[test]
fn encode_matches_reference_encoder() {
    let cases = [
        ("a", "1"),
        ("", ""),
        ("with \"quotes\"", "back\\slash"),
        ("tab\there", "line\nbreak"),
        ("ctrl\u{01}\u{1f}", "bell\u{07}"),
        ("caf\u{e9}", "\u{4e2d}\u{6587}"),
        ("\u{08}\u{0c}\u{0d}", "\u{0b}\u{0e}"),
    ];
    for (k, v) in cases {
        let ours = text(&encode_record(&put(k, v)));
        assert_eq!(ours, serde_set_record(k, v), "key {:?} value {:?}", k, v);
        let ours_rm = text(&encode_record(&rm(k)));
        assert_eq!(ours_rm, serde_remove_record(k), "key {:?}", k);
    }
}

#[test]
fn decode_inverts_encode() {
    let cases = [
        ("a", "1"),
        ("", ""),
        ("q\"uo\"te", "b\\s"),
        ("ctrl\u{01}", "nl\n"),
        ("caf\u{e9}", "\u{4e2d}"),
    ];
    for (k, v) in cases {
        let enc = encode_record(&put(k, v));
        let (cmd, end) = decode_record(&enc, 0).expect("decodes");
        assert_eq!(end, enc.len());
        match cmd {
            Command::Put { key, value } => {
                assert_eq!(key, k);
                assert_eq!(value, v);
            }
            Command::Remove { .. } => panic!("wrong variant"),
        }
        let enc2 = encode_record(&rm(k));
        let (cmd2, end2) = decode_record(&enc2, 0).expect("decodes");
        assert_eq!(end2, enc2.len());
        match cmd2 {
            Command::Remove { key } => assert_eq!(key, k),
            Command::Put { .. } => panic!("wrong variant"),
        }
    }
}

#[test]
fn decode_offsets_match_reference_stream() {
    // back-to-back records with no separators, as a segment holds them
    let s = format!(
        "{}{}{}",
        serde_set_record("a", "1"),
        serde_remove_record("a"),
        serde_set_record("b", "two")
    );
    let data = chars(&s);
    let mut ours = Vec::new();
    let mut pos = 0usize;
    while pos < data.len() {
        let (_cmd, end) = decode_record(&data, pos).expect("decodes");
        ours.push(end);
        pos = end;
    }
    let mut reference = Vec::new();
    let mut stream = serde_json::Deserializer::from_str(&s).into_iter::<serde_json::Value>();
    while let Some(item) = stream.next() {
        item.expect("reference decodes");
        reference.push(stream.byte_offset());
    }
    assert_eq!(ours, reference);
}

#[test]
fn decode_rejects_truncation() {
    let enc = encode_record(&put("key", "value"));
    for cut in 1..enc.len() {
        let partial: Vec<char> = enc[..cut].to_vec();
        assert!(decode_record(&partial, 0).is_none(), "cut at {}", cut);
    }
}

#[test]
fn decode_rejects_garbage() {
    assert!(decode_record(&chars("hello"), 0).is_none());
    assert!(decode_record(&chars("{\"Get\":{\"key\":\"a\"}}"), 0).is_none());
    assert!(decode_record(&chars(""), 0).is_none());
}
