use yotei_notify::event::Action;
use yotei_notify::event::Payload;
use yotei_notify::wire::encode_payload;
use yotei_notify::wire::parse_payload;

fn sample() -> Payload {
    Payload {
        timestamp: "2024-01-01T00:00:00Z".to_string(),
        table: "tasks".to_string(),
        action: Action::INSERT,
        id: "42".to_string(),
        record: "{\"name\":\"x\"}".to_string(),
        old: None,
    }
}

#[test]
fn encode_exact_wire_text() {
    let s = encode_payload(&sample());
    assert_eq!(
        s,
        "{\"timestamp\":\"2024-01-01T00:00:00Z\",\"table\":\"tasks\",\"action\":\"INSERT\",\
         \"id\":\"42\",\"record\":\"{\\\"name\\\":\\\"x\\\"}\",\"old\":null}"
    );
}

#[test]
fn encode_update_with_old() {
    let p = Payload {
        timestamp: "t".to_string(),
        table: "tasks".to_string(),
        action: Action::UPDATE,
        id: "1".to_string(),
        record: "new".to_string(),
        old: Some("prev".to_string()),
    };
    let s = encode_payload(&p);
    assert_eq!(
        s,
        "{\"timestamp\":\"t\",\"table\":\"tasks\",\"action\":\"UPDATE\",\"id\":\"1\",\
         \"record\":\"new\",\"old\":\"prev\"}"
    );
}

#[test]
fn encode_escapes_controls() {
    let p = Payload {
        timestamp: "a\nb".to_string(),
        table: "t\tq".to_string(),
        action: Action::DELETE,
        id: "\\\"".to_string(),
        record: "\u{1}".to_string(),
        old: None,
    };
    let s = encode_payload(&p);
    assert_eq!(
        s,
        "{\"timestamp\":\"a\\nb\",\"table\":\"t\\tq\",\"action\":\"DELETE\",\
         \"id\":\"\\\\\\\"\",\"record\":\"\\u0001\",\"old\":null}"
    );
}

#[test]
fn round_trip_parse_of_encoded() {
    let p = Payload {
        timestamp: "2024-06-07".to_string(),
        table: "tasks".to_string(),
        action: Action::UPDATE,
        id: "id-9".to_string(),
        record: "line1\nline2 \"quoted\" \\slash\u{8}\u{c}\r\t".to_string(),
        old: Some("caf\u{e9} \u{1F600}".to_string()),
    };
    let s = encode_payload(&p);
    let q = parse_payload(&s).expect("well-formed");
    assert_eq!(q.timestamp, p.timestamp);
    assert_eq!(q.table, p.table);
    assert_eq!(q.action, Action::UPDATE);
    assert_eq!(q.id, p.id);
    assert_eq!(q.record, p.record);
    assert_eq!(q.old, p.old);
}

#[test]
fn parse_plain_object() {
    let s = "{\"timestamp\":\"t\",\"table\":\"tasks\",\"action\":\"INSERT\",\"id\":\"1\",\
             \"record\":\"r\",\"old\":null}";
    let p = parse_payload(s).expect("well-formed");
    assert_eq!(p.action, Action::INSERT);
    assert_eq!(p.old, None);
}

#[test]
fn parse_allows_whitespace_and_reordering() {
    let s = " { \"old\" : \"o\" , \"record\" : \"r\" , \"id\" : \"1\" ,\n\t\"action\" : \"DELETE\" , \"table\" : \"tasks\" , \"timestamp\" : \"t\" } ";
    let p = parse_payload(s).expect("well-formed");
    assert_eq!(p.action, Action::DELETE);
    assert_eq!(p.old, Some("o".to_string()));
    assert_eq!(p.record, "r");
}

#[test]
fn parse_ignores_unknown_members() {
    let s = "{\"timestamp\":\"t\",\"extra\":{\"deep\":[1,2,{\"x\":null}],\"n\":-1.5e3},\
             \"table\":\"tasks\",\"action\":\"INSERT\",\"id\":\"1\",\"record\":\"r\",\
             \"old\":null,\"more\":true}";
    let p = parse_payload(s).expect("well-formed");
    assert_eq!(p.id, "1");
}

#[test]
fn parse_missing_old_means_absent() {
    let s = "{\"timestamp\":\"t\",\"table\":\"tasks\",\"action\":\"INSERT\",\"id\":\"1\",\
             \"record\":\"r\"}";
    let p = parse_payload(s).expect("well-formed");
    assert_eq!(p.old, None);
}

#[test]
fn parse_unicode_escapes() {
    let s = "{\"timestamp\":\"\\u0041\\uD83D\\uDE00\",\"table\":\"tasks\",\
             \"action\":\"INSERT\",\"id\":\"1\",\"record\":\"r\",\"old\":null}";
    let p = parse_payload(s).expect("well-formed");
    assert_eq!(p.timestamp, "A\u{1F600}");
}

#[test]
fn parse_rejects_missing_required_member() {
    let s = "{\"timestamp\":\"t\",\"table\":\"tasks\",\"action\":\"INSERT\",\"record\":\"r\",\
             \"old\":null}";
    assert!(parse_payload(s).is_none());
}

#[test]
fn parse_rejects_unknown_action() {
    let s = "{\"timestamp\":\"t\",\"table\":\"tasks\",\"action\":\"insert\",\"id\":\"1\",\
             \"record\":\"r\",\"old\":null}";
    assert!(parse_payload(s).is_none());
}

#[test]
fn parse_rejects_duplicate_member() {
    let s = "{\"timestamp\":\"t\",\"table\":\"tasks\",\"action\":\"INSERT\",\"id\":\"1\",\
             \"id\":\"2\",\"record\":\"r\",\"old\":null}";
    assert!(parse_payload(s).is_none());
}

#[test]
fn parse_rejects_ill_typed_member() {
    let s = "{\"timestamp\":\"t\",\"table\":\"tasks\",\"action\":\"INSERT\",\"id\":7,\
             \"record\":\"r\",\"old\":null}";
    assert!(parse_payload(s).is_none());
}

#[test]
fn parse_rejects_trailing_text() {
    let s = "{\"timestamp\":\"t\",\"table\":\"tasks\",\"action\":\"INSERT\",\"id\":\"1\",\
             \"record\":\"r\",\"old\":null}x";
    assert!(parse_payload(s).is_none());
}

#[test]
fn parse_rejects_raw_control_character() {
    let s = "{\"timestamp\":\"a\nb\",\"table\":\"tasks\",\"action\":\"INSERT\",\"id\":\"1\",\
             \"record\":\"r\",\"old\":null}";
    assert!(parse_payload(s).is_none());
}

#[test]
fn parse_rejects_lone_surrogate() {
    let s = "{\"timestamp\":\"\\uD83D\",\"table\":\"tasks\",\"action\":\"INSERT\",\"id\":\"1\",\
             \"record\":\"r\",\"old\":null}";
    assert!(parse_payload(s).is_none());
}

#[test]
fn parse_rejects_non_object() {
    assert!(parse_payload("[]").is_none());
    assert!(parse_payload("null").is_none());
    assert!(parse_payload("").is_none());
    assert!(parse_payload("{").is_none());
    assert!(parse_payload("{}").is_none());
}

#[test]
fn encoded_text_reads_back_with_serde() {
    let p = Payload {
        timestamp: "2024-01-01".to_string(),
        table: "tasks".to_string(),
        action: Action::UPDATE,
        id: "7".to_string(),
        record: "a \"b\" \n c\u{1F600}".to_string(),
        old: Some("old \\ state".to_string()),
    };
    let s = encode_payload(&p);
    let v: serde_json::Value = serde_json::from_str(&s).expect("valid JSON");
    assert_eq!(v.get("timestamp").unwrap().as_str().unwrap(), "2024-01-01");
    assert_eq!(v.get("table").unwrap().as_str().unwrap(), "tasks");
    assert_eq!(v.get("action").unwrap().as_str().unwrap(), "UPDATE");
    assert_eq!(v.get("id").unwrap().as_str().unwrap(), "7");
    assert_eq!(v.get("record").unwrap().as_str().unwrap(), "a \"b\" \n c\u{1F600}");
    assert_eq!(v.get("old").unwrap().as_str().unwrap(), "old \\ state");
}

#[test]
fn serde_written_text_parses_here() {
    let mut m = serde_json::Map::new();
    m.insert(
        "timestamp".to_string(),
        serde_json::Value::String("2024-02-03T04:05:06Z".to_string()),
    );
    m.insert("table".to_string(), serde_json::Value::String("tasks".to_string()));
    m.insert("action".to_string(), serde_json::Value::String("DELETE".to_string()));
    m.insert("id".to_string(), serde_json::Value::String("x/1".to_string()));
    m.insert(
        "record".to_string(),
        serde_json::Value::String("weird \u{7} control".to_string()),
    );
    m.insert("old".to_string(), serde_json::Value::Null);
    let s = serde_json::to_string(&serde_json::Value::Object(m)).unwrap();
    let p = parse_payload(&s).expect("well-formed");
    assert_eq!(p.timestamp, "2024-02-03T04:05:06Z");
    assert_eq!(p.action, Action::DELETE);
    assert_eq!(p.id, "x/1");
    assert_eq!(p.record, "weird \u{7} control");
    assert_eq!(p.old, None);
}
