use ru_cdc::binlog::{EventHeader, EventHeaderFlag, EventRaw, TableMap};
use ru_cdc::config::Instance;
use ru_cdc::executor::{
    array_text, backoff_micros, check_rows_fit, coerce, copy_fields, current_ms_ts, current_ts,
    generate_random_number, member_text, object_text, push_joined, seconds_to_millis, DmlData,
    DmlMessage, FieldMeta, Pool, RowEvents, TableMetaMapping, Workers,
};
use ru_cdc::ingest::{payload_table, Ingest, IngestAction};
use ru_cdc::mysql::DecodeError;
use ru_cdc::value::Value;
use ru_cdc::worker::{prepare, publish, Prepare};
use std::collections::HashMap;

fn field(name: &str, ty: &str, pk: bool) -> FieldMeta {
    FieldMeta { name: name.to_string(), field_type: ty.to_string(), is_pk: pk }
}

fn text(s: &str) -> Value {
    Value::Text(s.to_string())
}

#[test]
fn sql_types() {
    let cases = [
        ("tinyint(1)", -6),
        ("smallint(6)", 5),
        ("mediumint(9)", 4),
        ("int(11)", 4),
        ("int", 4),
        ("bigint(20) unsigned", -5),
        ("float", 7),
        ("double", 8),
        ("decimal(10,2)", 3),
        ("date", 91),
        ("time", 92),
        ("time(3)", 92),
        ("year(4)", 12),
        ("datetime", 93),
        ("datetime(6)", 93),
        ("timestamp", 93),
        ("char(3)", 1),
        ("varchar(50)", 12),
        ("blob", 2004),
        ("longblob", 2004),
        ("text", 2005),
        ("mediumtext", 2005),
        ("json", -999),
        ("", -999),
        ("enum('a','b')", -999),
    ];
    for (ty, code) in cases {
        assert_eq!(field("c", ty, false).get_sql_type(), code, "{}", ty);
    }
}

#[test]
fn values_as_json() {
    assert_eq!(DmlMessage::format_val(&Value::Null), "null");
    assert_eq!(DmlMessage::format_val(&Value::Int(7)), "7");
    assert_eq!(DmlMessage::format_val(&Value::Int(-12)), "-12");
    assert_eq!(DmlMessage::format_val(&Value::Int(i64::MIN)), "-9223372036854775808");
    assert_eq!(DmlMessage::format_val(&Value::Int(i64::MAX)), "9223372036854775807");
    assert_eq!(DmlMessage::format_val(&text("hi")), "\"hi\"");
    assert_eq!(DmlMessage::format_val(&text("a\"b\\c\nd")), "\"a\\\"b\\\\c\\nd\"");
    assert_eq!(DmlMessage::format_val(&text("")), "\"\"");
    assert_eq!(DmlMessage::format_val(&Value::Bytes(vec![1, 20, 255])), "[1,20,255]");
    assert_eq!(DmlMessage::format_val(&Value::Bytes(vec![])), "[]");
    assert_eq!(DmlMessage::format_val(&Value::Number("1.5".to_string())), "1.5");
    assert_eq!(DmlMessage::format_val(&Value::Float(0x3fc0_0000)), "null");
    assert_eq!(DmlMessage::format_val(&Value::Double(0)), "null");
}

#[test]
fn joined_texts() {
    let items = vec!["a".to_string(), "".to_string(), "b,c".to_string()];
    let mut out = "x".to_string();
    push_joined(&mut out, &items);
    assert_eq!(out, "xa,,b,c");
    let mut out = "x".to_string();
    push_joined(&mut out, &vec![]);
    assert_eq!(out, "x");
    assert_eq!(array_text(&items), "[a,,b,c]");
    assert_eq!(array_text(&vec![]), "[]");
    assert_eq!(object_text(&vec!["\"k\":1".to_string()]), "{\"k\":1}");
    assert_eq!(object_text(&vec![]), "{}");
    assert_eq!(member_text("\"k\"", "null"), "\"k\":null");
}

#[test]
fn waiting_times() {
    for _ in 0..200 {
        let n = generate_random_number();
        assert!((1..=7).contains(&n));
        let us = backoff_micros();
        assert!((1..=7).contains(&us));
    }
}

#[test]
fn text_and_blob_values() {
    let bytes = Value::Bytes(vec![0x68, 0x69, 0xc3, 0xa9]);
    assert_eq!(DmlMessage::text_field_data(&bytes), "hi\u{e9}");
    assert_eq!(DmlMessage::blob_field_data(&bytes), "hi\u{c3}\u{a9}");
    assert_eq!(DmlMessage::text_field_data(&Value::Bytes(vec![0x61, 0xff])), "a\u{fffd}");
    assert_eq!(DmlMessage::text_field_data(&Value::Int(1)), "");
    assert_eq!(DmlMessage::blob_field_data(&Value::Null), "");
    assert!(matches!(coerce(2005, &bytes), Value::Text(ref s) if s == "hi\u{e9}"));
    assert!(matches!(coerce(2004, &bytes), Value::Text(ref s) if s == "hi\u{c3}\u{a9}"));
    assert!(matches!(coerce(12, &bytes), Value::Bytes(ref b) if b.len() == 4));
    assert!(matches!(coerce(2005, &Value::Null), Value::Null));
    assert!(matches!(coerce(2004, &Value::Int(3)), Value::Int(3)));
}

#[test]
fn same_values() {
    assert!(Value::Null.same(&Value::Null));
    assert!(Value::Int(3).same(&Value::Int(3)));
    assert!(!Value::Int(3).same(&Value::Int(4)));
    assert!(!Value::Int(0).same(&Value::Null));
    assert!(text("a").same(&text("a")));
    assert!(!text("a").same(&text("b")));
    assert!(!text("1").same(&Value::Number("1".to_string())));
    assert!(Value::Bytes(vec![1, 2]).same(&Value::Bytes(vec![1, 2])));
    assert!(!Value::Bytes(vec![1, 2]).same(&Value::Bytes(vec![1])));
    assert!(Value::Float(1).same(&Value::Float(1)));
    assert!(!Value::Float(1).same(&Value::Double(1)));
    assert!(Value::Null.is_null());
    assert!(!Value::Int(0).is_null());
    assert!(matches!(text("x").duplicate(), Value::Text(ref s) if s == "x"));
}

fn insert() -> DmlData {
    let mut dml = DmlData::new_data(42, "db1".to_string(), "t1".to_string());
    assert_eq!((dml.id, dml.table_id, dml.es, dml.pos), (0, 42, 0, 0));
    assert_eq!((dml.dml_type.as_str(), dml.data.len(), dml.old_data.len()), ("", 0, 0));
    dml.append_data(5, "INSERT".to_string(), 1_700_000_000_000, vec![vec![Value::Int(7), text("hi")]], vec![], 4321);
    dml
}

fn fields() -> Vec<FieldMeta> {
    vec![field("c1", "int(11)", true), field("c2", "varchar(50)", false)]
}

#[test]
fn insert_record() {
    let dml = insert();
    assert_eq!((dml.id, dml.es, dml.pos, dml.dml_type.as_str()), (5, 1_700_000_000_000, 4321, "INSERT"));
    let m = DmlMessage::from_dml(dml, &fields(), 1_700_000_000_123);
    assert_eq!(m.dml_type, "INSERT");
    assert_eq!(m.pkNames, Some(vec!["c1".to_string()]));
    assert_eq!(m.sqlType, vec![("c1".to_string(), 4), ("c2".to_string(), 12)]);
    assert_eq!(m.mysqlType.len(), 2);
    assert_eq!(m.data.len(), 1);
    assert_eq!(m.data[0][0].0, "c1");
    assert!(matches!(m.data[0][0].1, Value::Int(7)));
    assert!(matches!(m.data[0][1].1, Value::Text(ref s) if s == "hi"));
    assert!(m.old.is_none());
    assert!(!m.isDdl);
    assert_eq!(
        m.format_json(),
        "{\"data\":[{\"c1\":7,\"c2\":\"hi\"}],\"database\":\"db1\",\"es\":1700000000000,\
         \"id\":5,\"isDdl\": false,\"mysqlType\":{\"c1\":\"int(11)\",\"c2\":\"varchar(50)\"},\
         \"pkNames\":[\"c1\"],\"sql\":\"\",\"sqlType\":{\"c1\":4,\"c2\":12},\"table\":\"t1\",\
         \"ts\":1700000000123,\"type\":\"INSERT\"}"
    );
}

#[test]
fn update_record() {
    let mut dml = DmlData::new_data(42, "db1".to_string(), "t1".to_string());
    dml.append_data(
        6,
        "UPDATE".to_string(),
        1000,
        vec![vec![Value::Int(7), text("bye")], vec![Value::Int(8), text("same")]],
        vec![vec![Value::Int(7), text("hi")], vec![Value::Int(8), text("same")]],
        9,
    );
    let m = DmlMessage::from_dml(dml, &fields(), 2000);
    assert_eq!(m.data.len(), 2);
    assert_eq!(m.data[0].len(), 2);
    let old = m.old.as_ref().unwrap();
    assert_eq!(old.len(), 2);
    assert_eq!(old[0].len(), 1);
    assert_eq!(old[0][0].0, "c2");
    assert!(matches!(old[0][0].1, Value::Text(ref s) if s == "hi"));
    assert!(old[1].is_empty());
    assert_eq!(
        m.format_json(),
        "{\"data\":[{\"c1\":7,\"c2\":\"bye\"},{\"c1\":8,\"c2\":\"same\"}],\"database\":\"db1\",\
         \"es\":1000,\"id\":6,\"isDdl\": false,\
         \"mysqlType\":{\"c1\":\"int(11)\",\"c2\":\"varchar(50)\"},\
         \"old\":[{\"c2\":\"hi\"},{}],\"pkNames\":[\"c1\"],\"sql\":\"\",\
         \"sqlType\":{\"c1\":4,\"c2\":12},\"table\":\"t1\",\"ts\":2000,\"type\":\"UPDATE\"}"
    );
}

#[test]
fn record_without_keys_and_rows() {
    let mut dml = DmlData::new_data(1, "d\"b".to_string(), "t".to_string());
    dml.append_data(0, "DELETE".to_string(), 0, vec![], vec![vec![Value::Null]], 0);
    let m = DmlMessage::from_dml(dml, &vec![field("a", "blob", false)], 0);
    assert_eq!(m.pkNames, None);
    assert!(m.old.is_none());
    assert_eq!(
        m.format_json(),
        "{\"data\":[],\"database\":\"d\\\"b\",\"es\":0,\"id\":0,\"isDdl\": false,\
         \"mysqlType\":{\"a\":\"blob\"},\"pkNames\":null,\"sql\":\"\",\"sqlType\":{\"a\":2004},\
         \"table\":\"t\",\"ts\":0,\"type\":\"DELETE\"}"
    );
    let mut empty = DmlMessage::new(1, "d".to_string(), "t".to_string(), "INSERT".to_string(), 2, u128::MAX);
    empty.isDdl = true;
    empty.sql = Some("x".to_string());
    empty.old = Some(vec![]);
    assert_eq!(
        empty.format_json(),
        "{\"data\":[],\"database\":\"d\",\"es\":2,\"id\":1,\"isDdl\": true,\"mysqlType\":{},\
         \"pkNames\":null,\"sql\":\"x\",\"sqlType\":{},\"table\":\"t\",\
         \"ts\":340282366920938463463374607431768211455,\"type\":\"INSERT\"}"
    );
}

#[test]
fn text_and_blob_columns_in_a_record() {
    let fields = vec![field("t", "text", false), field("b", "blob", false), field("n", "int", false)];
    let mut dml = DmlData::new_data(1, "d".to_string(), "x".to_string());
    dml.append_data(
        0,
        "UPDATE".to_string(),
        0,
        vec![vec![Value::Bytes(b"new".to_vec()), Value::Bytes(vec![0x41, 0xff]), Value::Null]],
        vec![vec![Value::Bytes(b"old".to_vec()), Value::Bytes(vec![0x42]), Value::Null]],
        0,
    );
    let m = DmlMessage::from_dml(dml, &fields, 0);
    assert!(matches!(m.data[0][0].1, Value::Text(ref s) if s == "new"));
    assert!(matches!(m.data[0][1].1, Value::Text(ref s) if s == "A\u{ff}"));
    assert!(matches!(m.data[0][2].1, Value::Null));
    let old = m.old.unwrap();
    assert_eq!(old[0].len(), 2);
    assert_eq!(old[0][0].0, "t");
    assert!(matches!(old[0][0].1, Value::Text(ref s) if s == "old"));
    assert_eq!(old[0][1].0, "b");
    assert!(matches!(old[0][1].1, Value::Text(ref s) if s == "B"));
}

#[test]
fn primary_key_names() {
    let fields = vec![
        field("a", "int", true),
        field("b", "int", false),
        field("c", "int", true),
        field("a", "int", true),
    ];
    let mut dml = DmlData::new_data(1, "d".to_string(), "t".to_string());
    dml.append_data(0, "INSERT".to_string(), 0, vec![], vec![], 0);
    let m = DmlMessage::from_dml(dml, &fields, 0);
    assert_eq!(m.pkNames, Some(vec!["c".to_string(), "a".to_string()]));
    let mut names = m.pkNames.unwrap();
    names.sort();
    let mut expected: Vec<String> =
        fields.iter().filter(|f| f.is_pk).map(|f| f.name.clone()).collect();
    expected.sort();
    expected.dedup();
    assert_eq!(names, expected);
}

#[test]
fn values_beyond_the_fields_are_left_out() {
    let mut dml = DmlData::new_data(1, "d".to_string(), "t".to_string());
    dml.append_data(
        0,
        "UPDATE".to_string(),
        0,
        vec![vec![Value::Int(1), Value::Int(2)]],
        vec![vec![Value::Int(9), Value::Int(8)]],
        0,
    );
    let m = DmlMessage::from_dml(dml, &vec![field("a", "int", false)], 0);
    assert_eq!(m.data[0].len(), 1);
    assert_eq!(m.old.unwrap()[0].len(), 1);
}

#[test]
fn rows_must_fit_the_fields() {
    let dml = insert();
    assert!(check_rows_fit(&dml, &fields()));
    assert!(!check_rows_fit(&dml, &vec![field("c1", "int", true)]));
    let mut short_old = insert();
    short_old.old_data.push(vec![Value::Null]);
    assert!(!check_rows_fit(&short_old, &fields()));
    let copy = copy_fields(&fields());
    assert_eq!(copy.len(), 2);
    assert_eq!((copy[1].name.as_str(), copy[1].field_type.as_str(), copy[1].is_pk), ("c2", "varchar(50)", false));
}

fn raw(event_type: u8, payload: Vec<u8>) -> EventRaw {
    EventRaw {
        header: EventHeader {
            timestamp: 1_700_000_000,
            event_type,
            server_id: 1,
            event_size: 0,
            log_pos: 4321,
            flags: EventHeaderFlag { bits: 0 },
        },
        payload,
    }
}

fn table_map_payload() -> Vec<u8> {
    let mut p = vec![0x2a, 0, 0, 0, 0, 0, 1, 0];
    p.push(3);
    p.extend_from_slice(b"db1\0");
    p.push(2);
    p.extend_from_slice(b"t1\0");
    p.extend_from_slice(&[2, 3, 15]);
    p.extend_from_slice(&[2, 50, 0]);
    p.push(0b0000_0010);
    p
}

fn write_payload() -> Vec<u8> {
    let mut p = vec![0x2a, 0, 0, 0, 0, 0, 1, 0, 2, 0, 2, 0xff];
    p.extend_from_slice(&[0, 7, 0, 0, 0, 2, b'h', b'i']);
    p.extend_from_slice(&[0xde, 0xad, 0xbe, 0xef]);
    p
}

fn update_payload() -> Vec<u8> {
    let mut p = vec![0x2a, 0, 0, 0, 0, 0, 1, 0, 2, 0, 2, 0xff, 0xff];
    p.extend_from_slice(&[0, 7, 0, 0, 0, 2, b'h', b'i']);
    p.extend_from_slice(&[0, 7, 0, 0, 0, 3, b'b', b'y', b'e']);
    p.extend_from_slice(&[0xde, 0xad, 0xbe, 0xef]);
    p
}

fn instances() -> Vec<Instance> {
    vec![
        Instance {
            mq: "the_kafka".to_string(),
            schemas: "db*".to_string(),
            tables: "t*".to_string(),
            black_list: vec![],
            topic: "db_change".to_string(),
        },
        Instance {
            mq: "other".to_string(),
            schemas: "shop".to_string(),
            tables: "*".to_string(),
            black_list: vec![],
            topic: "shop".to_string(),
        },
        Instance {
            mq: "the_redis".to_string(),
            schemas: "*".to_string(),
            tables: "t1".to_string(),
            black_list: vec!["x*".to_string()],
            topic: "all_t1".to_string(),
        },
    ]
}

fn pair(row_type: u8, payload: Vec<u8>, seq: u64) -> RowEvents {
    let mut p = RowEvents::new(raw(19, table_map_payload()));
    assert!(p.row_event.is_none());
    assert_eq!(p.seq_idx, 0);
    p.append(raw(row_type, payload), seq);
    assert_eq!(p.seq_idx, seq);
    p
}

#[test]
fn insert_end_to_end() {
    let mut tm = TableMap::new();
    let (dml, ports) = match prepare(&pair(30, write_payload(), 3), &mut tm, &instances()) {
        Prepare::Ready(dml, ports) => (dml, ports),
        _ => panic!("a record was expected"),
    };
    assert_eq!(
        ports,
        vec![
            ("the_kafka".to_string(), "db_change".to_string()),
            ("the_redis".to_string(), "all_t1".to_string()),
        ]
    );
    assert_eq!((dml.id, dml.table_id, dml.pos), (3, 0x2a, 4321));
    assert_eq!(dml.es, 1_700_000_000_000);
    assert_eq!(tm.mapping[&0x2a].len(), 2);
    let messages = publish(dml, &ports, &fields(), 1_700_000_000_123).unwrap();
    assert_eq!(messages.len(), 2);
    assert_eq!(messages[0].0, "the_kafka");
    assert_eq!(messages[0].1.topic, "db_change");
    assert_eq!(messages[0].1.pos, 4321);
    assert_eq!(messages[1].0, "the_redis");
    assert_eq!(messages[1].1.topic, "all_t1");
    assert_eq!(messages[1].1.payload, messages[0].1.payload);
    assert_eq!(
        messages[0].1.payload,
        "{\"data\":[{\"c1\":7,\"c2\":\"hi\"}],\"database\":\"db1\",\"es\":1700000000000,\
         \"id\":3,\"isDdl\": false,\"mysqlType\":{\"c1\":\"int(11)\",\"c2\":\"varchar(50)\"},\
         \"pkNames\":[\"c1\"],\"sql\":\"\",\"sqlType\":{\"c1\":4,\"c2\":12},\"table\":\"t1\",\
         \"ts\":1700000000123,\"type\":\"INSERT\"}"
    );
    let parsed: serde_json::Value = serde_json::from_str(&messages[0].1.payload).unwrap();
    assert_eq!(parsed["type"], "INSERT");
    assert_eq!(parsed["data"][0]["c1"], 7);
    assert_eq!(parsed["data"][0]["c2"], "hi");
    assert_eq!(parsed["pkNames"][0], "c1");
    assert_eq!(parsed["sqlType"]["c1"], 4);
    assert_eq!(parsed["sqlType"]["c2"], 12);
    assert!(parsed.get("old").is_none());
}

#[test]
fn update_end_to_end() {
    let mut tm = TableMap::new();
    let (dml, ports) = match prepare(&pair(31, update_payload(), 4), &mut tm, &instances()) {
        Prepare::Ready(dml, ports) => (dml, ports),
        _ => panic!("a record was expected"),
    };
    assert_eq!(dml.dml_type, "UPDATE");
    let messages = publish(dml, &ports, &fields(), 1).unwrap();
    let parsed: serde_json::Value = serde_json::from_str(&messages[0].1.payload).unwrap();
    assert_eq!(parsed["type"], "UPDATE");
    assert_eq!(parsed["data"].to_string(), "[{\"c1\":7,\"c2\":\"bye\"}]");
    assert_eq!(parsed["old"].to_string(), "[{\"c2\":\"hi\"}]");
    assert!(messages[0].1.payload.contains("\"old\":[{\"c2\":\"hi\"}],"));
}

#[test]
fn delete_end_to_end() {
    let mut tm = TableMap::new();
    let (dml, ports) = match prepare(&pair(32, write_payload(), 9), &mut tm, &instances()) {
        Prepare::Ready(dml, ports) => (dml, ports),
        _ => panic!("a record was expected"),
    };
    assert_eq!(dml.dml_type, "DELETE");
    assert_eq!((dml.data.len(), dml.old_data.len()), (0, 1));
    let messages = publish(dml, &ports, &fields(), 1).unwrap();
    let parsed: serde_json::Value = serde_json::from_str(&messages[0].1.payload).unwrap();
    assert_eq!(parsed["type"], "DELETE");
    assert_eq!(parsed["id"], 9);
}

#[test]
fn pairs_that_give_no_record() {
    let mut tm = TableMap::new();
    let none: Vec<Instance> = vec![];
    assert!(matches!(prepare(&pair(30, write_payload(), 0), &mut tm, &none), Prepare::Skip));
    assert_eq!(tm.mapping[&0x2a].len(), 2);
    let waiting = RowEvents::new(raw(19, table_map_payload()));
    assert!(matches!(prepare(&waiting, &mut tm, &instances()), Prepare::Skip));
    assert!(matches!(prepare(&pair(2, vec![], 0), &mut tm, &instances()), Prepare::Skip));
    let mut broken = pair(30, write_payload(), 0);
    broken.table_map.payload.truncate(10);
    let mut fresh = TableMap::new();
    assert!(matches!(
        prepare(&broken, &mut fresh, &instances()),
        Prepare::Failed(DecodeError::Eof)
    ));
    assert!(fresh.mapping.is_empty());
    let mut cut = write_payload();
    cut.truncate(14);
    assert!(matches!(
        prepare(&pair(30, cut, 0), &mut tm, &instances()),
        Prepare::Failed(DecodeError::Eof)
    ));
    let mut other_table = write_payload();
    other_table[0] = 0x2b;
    assert!(matches!(
        prepare(&pair(30, other_table, 0), &mut tm, &instances()),
        Prepare::Failed(DecodeError::Fail)
    ));
}

#[test]
fn nothing_is_published_without_fitting_fields() {
    let ports = vec![("q".to_string(), "t".to_string())];
    assert!(publish(insert(), &ports, &vec![], 0).is_none());
    assert!(publish(insert(), &ports, &vec![field("c1", "int", true)], 0).is_none());
    assert_eq!(publish(insert(), &vec![], &fields(), 0).map(|m| m.len()), Some(0));
}

#[test]
fn workers_by_sequence_index() {
    let mut workers: Workers<&'static str> = Workers::new();
    workers.regist_tx(0, "zero");
    workers.regist_tx(1, "one");
    workers.regist_tx(2, "two");
    let mut seen = vec![];
    for seq in 0..7u64 {
        let mut p = RowEvents::new(raw(19, vec![]));
        p.append(raw(30, vec![]), seq);
        let tx = workers.push(&p).unwrap();
        assert_eq!(*tx, ["zero", "one", "two"][((seq + 1) % 3) as usize]);
        seen.push(*tx);
    }
    assert_eq!(seen, vec!["one", "two", "zero", "one", "two", "zero", "one"]);
    let mut last = RowEvents::new(raw(19, vec![]));
    last.append(raw(30, vec![]), u64::MAX);
    assert_eq!(workers.push(&last), Some(&"one"));

    let mut gap: Pool<u8> = Pool { tx_channel: HashMap::new() };
    gap.regist_tx(5, 50);
    gap.regist_tx(7, 70);
    let mut p = RowEvents::new(raw(19, vec![]));
    p.append(raw(30, vec![]), 0);
    assert_eq!(gap.push(&p), None);
    gap.regist_tx(1, 10);
    p.append(raw(30, vec![]), 3);
    assert_eq!(gap.push(&p), Some(&10));
}

#[test]
fn described_tables() {
    let mut mapping = TableMetaMapping::new();
    assert!(mapping.lookup(42).is_none());
    let stored = mapping.update_mapping(42, Some(fields()));
    assert_eq!(stored.len(), 2);
    let found = mapping.lookup(42).unwrap();
    assert_eq!(found.len(), 2);
    assert_eq!(found[0].name, "c1");
    assert!(found[0].is_pk);
    assert!(mapping.update_mapping(43, None).is_empty());
    assert_eq!(mapping.lookup(43).map(|f| f.len()), Some(0));
    assert_eq!(mapping.lookup(42).map(|f| f.len()), Some(2));
}

#[test]
fn clocks() {
    assert_eq!(seconds_to_millis(0), 0);
    assert_eq!(seconds_to_millis(1_700_000_000), 1_700_000_000_000);
    assert_eq!(seconds_to_millis(u64::MAX / 1000), u64::MAX / 1000 * 1000);
    assert_eq!(seconds_to_millis(u64::MAX / 1000 + 1), u64::MAX);
    let ts = current_ts();
    assert_eq!(ts % 1000, 0);
    assert!(ts > 1_600_000_000_000);
    let ms = current_ms_ts();
    assert!(ms >= ts as u128);
    assert!(ms - (ts as u128) < 5_000);
}

#[test]
fn ingest_pairs_and_numbers() {
    let mut ingest = Ingest::new();
    assert!(matches!(ingest.on_event(raw(30, write_payload())), IngestAction::Dropped));
    assert_eq!(ingest.seq_idx, 0);
    assert!(matches!(ingest.on_event(raw(19, table_map_payload())), IngestAction::Nothing));
    assert!(ingest.pending.is_some());
    assert!(matches!(ingest.on_event(raw(15, vec![])), IngestAction::Nothing));
    assert!(ingest.pending.is_some());
    let first = match ingest.on_event(raw(30, write_payload())) {
        IngestAction::Dispatch(pair) => pair,
        _ => panic!("a pair was expected"),
    };
    assert_eq!(first.seq_idx, 1);
    assert_eq!(first.table_map.payload, table_map_payload());
    assert_eq!(first.row_event.as_ref().unwrap().payload, write_payload());
    assert!(ingest.pending.is_none());
    assert!(matches!(ingest.on_event(raw(31, update_payload())), IngestAction::Dropped));
    let mut indices = vec![first.seq_idx];
    for kind in [30u8, 31, 32] {
        assert!(matches!(ingest.on_event(raw(19, table_map_payload())), IngestAction::Nothing));
        match ingest.on_event(raw(kind, write_payload())) {
            IngestAction::Dispatch(pair) => indices.push(pair.seq_idx),
            _ => panic!("a pair was expected"),
        }
    }
    assert_eq!(indices, vec![1, 2, 3, 4]);
    assert!(indices.windows(2).all(|w| w[0] < w[1]));

    assert!(matches!(ingest.on_event(raw(19, table_map_payload())), IngestAction::Nothing));
    // A row event of another table than that of the table map is dropped.
    assert!(matches!(ingest.on_event(raw(19, table_map_payload())), IngestAction::Nothing));
    let mut other = write_payload();
    other[0] = 0x2b;
    assert!(matches!(ingest.on_event(raw(30, other)), IngestAction::Dropped));
    assert!(ingest.pending.is_none());
    assert_eq!(ingest.seq_idx, 4);
    assert!(matches!(ingest.on_event(raw(19, table_map_payload())), IngestAction::Nothing));
    assert!(matches!(ingest.on_event(raw(30, vec![0x2a, 0])), IngestAction::Dropped));
    assert_eq!(payload_table(&table_map_payload()), Some(0x2a));
    assert_eq!(payload_table(&[1, 2, 3]), None);

    assert!(matches!(ingest.on_event(raw(19, table_map_payload())), IngestAction::Nothing));
    let mut payload = vec![1u8];
    payload.extend_from_slice(b"mysql-000002");
    match ingest.on_event(raw(4, payload)) {
        IngestAction::Rotate(r) => assert_eq!((r.binlog_name.as_str(), r.position), ("mysql-000002", 0)),
        _ => panic!("a rotation was expected"),
    }
    assert!(ingest.pending.is_none());
    assert!(matches!(ingest.on_event(raw(30, write_payload())), IngestAction::Dropped));
    assert!(matches!(ingest.on_event(raw(4, vec![])), IngestAction::Nothing));

    assert!(matches!(ingest.on_event(raw(19, table_map_payload())), IngestAction::Nothing));
    let mut q = vec![0u8; 13];
    q.extend_from_slice(b"db1\0BEGIN\x01\x02\x03\x04");
    match ingest.on_event(raw(2, q)) {
        IngestAction::Query(query) => assert_eq!(query.statement, "BEGIN"),
        _ => panic!("a statement was expected"),
    }
    assert!(ingest.pending.is_some());
    assert!(matches!(ingest.on_event(raw(2, vec![])), IngestAction::Nothing));

    let mut spent = Ingest { pending: None, seq_idx: u64::MAX };
    assert!(matches!(spent.on_event(raw(19, table_map_payload())), IngestAction::Nothing));
    assert!(matches!(spent.on_event(raw(30, write_payload())), IngestAction::Dropped));
    assert_eq!(spent.seq_idx, u64::MAX);
    assert!(spent.pending.is_none());
}
