use ru_cdc::binlog::{
    DeleteRowEvent, EventHeader, EventHeaderFlag, EventRaw, QueryEvent, QueryEventHeader,
    RotateEvent, RowEventHeader, TableMap, TableMapEvent, UpdateRowEvent, WriteRowEvent,
    LOG_EVENT_ARTIFICIAL_F, LOG_EVENT_SUPPRESS_USE_F,
};
use ru_cdc::mysql::{DecodeError, Decoder};
use ru_cdc::position_manager::{update_name_pos, PositionMng};
use ru_cdc::value::Value;

fn header_bytes(event_type: u8, flags: u16) -> Vec<u8> {
    let mut b = vec![0u8];
    b.extend_from_slice(&0x6655_4433u32.to_le_bytes());
    b.push(event_type);
    b.extend_from_slice(&100u32.to_le_bytes());
    b.extend_from_slice(&77u32.to_le_bytes());
    b.extend_from_slice(&4321u32.to_le_bytes());
    b.extend_from_slice(&flags.to_le_bytes());
    b
}

fn table_map_payload() -> Vec<u8> {
    let mut p = vec![0x2a, 0, 0, 0, 0, 0, 1, 0];
    p.push(3);
    p.extend_from_slice(b"db1\0");
    p.push(2);
    p.extend_from_slice(b"t1\0");
    p.extend_from_slice(&[2, 3, 15]);
    p.extend_from_slice(&[2, 50, 0]);
    p.push(0b0000_0010);
    p
}

#[test]
fn event_header() {
    let mut bytes = header_bytes(19, 0x8);
    bytes.extend_from_slice(&[1, 2, 3]);
    let (rest, h) = EventHeader::decode(&bytes).unwrap();
    assert_eq!(rest, &[1u8, 2, 3][..]);
    assert_eq!(h.timestamp, 0x6655_4433);
    assert_eq!(h.event_type, 19);
    assert_eq!(h.server_id, 100);
    assert_eq!(h.event_size, 77);
    assert_eq!(h.log_pos, 4321);
    assert_eq!(h.flags.bits(), 0x8);
    assert!(h.flags.contains(LOG_EVENT_SUPPRESS_USE_F));
    assert!(!h.flags.contains(LOG_EVENT_ARTIFICIAL_F));
    assert_eq!(EventHeader::decode(&bytes[..19]).map(|r| r.1.log_pos), Err(DecodeError::Eof));
    let unknown = header_bytes(19, 0x1);
    assert_eq!(EventHeader::decode(&unknown).map(|r| r.1.log_pos), Err(DecodeError::Fail));
    let (rest, raw) = EventRaw::decode(&bytes).unwrap();
    assert!(rest.is_empty());
    assert_eq!(raw.payload, vec![1, 2, 3]);
    assert_eq!(raw.header.event_type, 19);
    assert_eq!(raw.duplicate().payload, vec![1, 2, 3]);
}

#[test]
fn event_header_flags() {
    assert_eq!(EventHeaderFlag::from_bits(0x3ec).map(|f| f.bits()), Some(0x3ec));
    assert_eq!(EventHeaderFlag::from_bits(0), Some(EventHeaderFlag { bits: 0 }));
    assert_eq!(EventHeaderFlag::from_bits(0x400), None);
    assert_eq!(EventHeaderFlag::from_bits(0x1), None);
    assert_eq!(EventHeaderFlag::decode(&[0x20, 0, 9]).unwrap(), (&[9u8][..], EventHeaderFlag { bits: 0x20 }));
    assert_eq!(EventHeaderFlag::decode(&[0x10, 0]), Err(DecodeError::Fail));
    assert_eq!(EventHeaderFlag::decode(&[0x10]), Err(DecodeError::Eof));
}

#[test]
fn row_event_header() {
    let (rest, h) = RowEventHeader::decode(&[1, 2, 3, 4, 5, 6, 7, 8, 9]).unwrap();
    assert_eq!(rest, &[9u8][..]);
    assert_eq!(h.table_id, 0x060504030201);
    assert_eq!(h.flag, 0x0807);
    assert_eq!(RowEventHeader::decode(&[1; 7]).map(|r| r.1.flag), Err(DecodeError::Eof));
}

#[test]
fn table_map_event() {
    let payload = table_map_payload();
    let (rest, tm) = TableMapEvent::decode(&payload).unwrap();
    assert_eq!(rest, &[0b0000_0010u8][..]);
    assert_eq!(tm.header.table_id, 0x2a);
    assert_eq!(tm.header.flag, 1);
    assert_eq!(tm.schema_name, "db1");
    assert_eq!(tm.table_name, "t1");
    assert_eq!(tm.column_count, 2);
    assert_eq!(tm.column_types, vec![3, 15]);
    assert_eq!(tm.column_metas, vec![50, 0]);
    for cut in 0..payload.len() - 1 {
        assert_eq!(
            TableMapEvent::decode(&payload[..cut]).map(|r| r.1.column_count),
            Err(DecodeError::Eof),
            "cut at {}",
            cut
        );
    }
}

fn write_payload(rows: &[&[u8]]) -> Vec<u8> {
    let mut p = vec![0x2a, 0, 0, 0, 0, 0, 1, 0, 2, 0, 2, 0xff];
    for r in rows {
        p.extend_from_slice(r);
    }
    p.extend_from_slice(&[0xde, 0xad, 0xbe, 0xef]);
    p
}

fn table() -> TableMap {
    let mut tm = TableMap::new();
    tm.decode_columns(0x2a, vec![3, 15], &[50, 0]);
    tm
}

#[test]
fn write_rows() {
    let payload = write_payload(&[&[0, 7, 0, 0, 0, 2, b'h', b'i'], &[2, 8, 0, 0, 0]]);
    let (body, ev) = WriteRowEvent::decode(&payload).unwrap();
    assert_eq!(ev.header.table_id, 0x2a);
    assert_eq!(ev.col_count, 2);
    assert_eq!(ev.col_map_len, 1);
    let (rest, rows) =
        WriteRowEvent::decode_column_multirow_vals(&table(), body, 0x2a, ev.col_map_len).unwrap();
    assert_eq!(rest, &[0xdeu8, 0xad, 0xbe, 0xef][..]);
    assert_eq!(rows.len(), 2);
    assert!(rows.iter().all(|row| row.len() == table().mapping[&0x2a].len()));
    assert_eq!(rows[0].len(), 2);
    assert!(matches!(rows[0][0], Value::Int(7)));
    assert!(matches!(rows[0][1], Value::Text(ref s) if s == "hi"));
    assert!(matches!(rows[1][0], Value::Int(8)));
    assert!(matches!(rows[1][1], Value::Null));
    let (_, deleted) = DeleteRowEvent::decode(&payload).unwrap();
    assert_eq!(deleted.col_map_len, 1);
    let (_, rows) = DeleteRowEvent::fetch_rows(body, &table(), 0x2a, 1).unwrap();
    assert_eq!(rows.len(), 2);
    assert_eq!(
        WriteRowEvent::decode_column_multirow_vals(&table(), &body[..5], 0x2a, 1).map(|r| r.1.len()),
        Err(DecodeError::Eof)
    );
}

#[test]
fn extra_data_is_passed_over() {
    let mut p = vec![0x2a, 0, 0, 0, 0, 0, 1, 0, 3, 0, 9, 9, 9, 10, 0xff, 0x03, 1, 2];
    let (body, ev) = WriteRowEvent::decode(&p).unwrap();
    assert_eq!(ev.col_count, 10);
    assert_eq!(ev.col_map_len, 2);
    assert_eq!(body, &[1u8, 2][..]);
    p.truncate(15);
    assert_eq!(WriteRowEvent::decode(&p).map(|r| r.1.col_count), Err(DecodeError::Eof));
    assert_eq!(WriteRowEvent::decode(&[0; 9]).map(|r| r.1.col_count), Err(DecodeError::Eof));
}

#[test]
fn update_rows() {
    let mut p = vec![0x2a, 0, 0, 0, 0, 0, 1, 0, 2, 0, 2, 0xff, 0xff];
    p.extend_from_slice(&[0, 7, 0, 0, 0, 2, b'h', b'i']);
    p.extend_from_slice(&[0, 7, 0, 0, 0, 3, b'b', b'y', b'e']);
    p.extend_from_slice(&[1, 2, 3, 4]);
    let (body, ev) = UpdateRowEvent::decode(&p).unwrap();
    assert_eq!(ev.col_map_len, 1);
    assert_eq!(ev.header.table_id, 0x2a);
    let (rest, (old_rows, new_rows)) = UpdateRowEvent::fetch_rows(body, &table(), 0x2a, 1).unwrap();
    assert_eq!(rest.len(), 4);
    assert_eq!((old_rows.len(), new_rows.len()), (1, 1));
    assert!(old_rows.iter().chain(new_rows.iter()).all(|row| row.len() == 2));
    assert!(matches!(old_rows[0][1], Value::Text(ref s) if s == "hi"));
    assert!(matches!(new_rows[0][1], Value::Text(ref s) if s == "bye"));
    assert_eq!(
        UpdateRowEvent::fetch_rows(&body[..8], &table(), 0x2a, 1).map(|r| r.0.len()),
        Err(DecodeError::Eof)
    );
}

#[test]
fn rows_without_columns_do_not_loop() {
    let mut tm = TableMap::new();
    tm.decode_columns(1, vec![], &[]);
    let r = WriteRowEvent::decode_column_multirow_vals(&tm, &[1, 2, 3, 4, 5], 1, 0);
    assert_eq!(r.map(|r| r.1.len()), Err(DecodeError::Fail));
    let (rest, rows) = WriteRowEvent::decode_column_multirow_vals(&tm, &[1, 2, 3, 4], 1, 0).unwrap();
    assert_eq!((rest.len(), rows.len()), (4, 1));
}

#[test]
fn query_event() {
    let mut p = vec![];
    p.extend_from_slice(&11u32.to_le_bytes());
    p.extend_from_slice(&22u32.to_le_bytes());
    p.push(3);
    p.extend_from_slice(&0u16.to_le_bytes());
    p.extend_from_slice(&2u16.to_le_bytes());
    let (_, head) = QueryEventHeader::decode(&p).unwrap();
    assert_eq!((head.thread_id, head.timestamp, head.db_name_len), (11, 22, 3));
    assert_eq!((head.error_code, head.status_len), (0, 2));
    p.extend_from_slice(&[0xaa, 0xbb]);
    p.extend_from_slice(b"db1\0");
    p.extend_from_slice(b"BEGIN");
    p.extend_from_slice(&[1, 2, 3, 4]);
    let (rest, q) = QueryEvent::decode(&p).unwrap();
    assert!(rest.is_empty());
    assert_eq!(q.database, "db1");
    assert_eq!(q.statement, "BEGIN");
    assert_eq!(q.header.status_len, 2);
    assert_eq!(
        QueryEvent::decode(&p[..p.len() - 6]).map(|r| r.1.statement),
        Err(DecodeError::Eof)
    );
    assert_eq!(QueryEvent::decode(&p[..12]).map(|r| r.1.statement), Err(DecodeError::Eof));
}

#[test]
fn rotate_sets_the_position() {
    let mut payload = vec![0x01u8];
    payload.extend_from_slice(b"mysql-000002");
    let (rest, rotate) = RotateEvent::decode(&payload).unwrap();
    assert!(rest.is_empty());
    assert_eq!(rotate.binlog_name, "mysql-000002");
    assert_eq!(rotate.position, 0);
    let mut mng = PositionMng::new();
    assert!(!mng.loaded);
    let saved = update_name_pos(&mut mng, &rotate.binlog_name, rotate.position as u32);
    assert_eq!((mng.binlog.as_str(), mng.position, mng.loaded), ("mysql-000002", 0, true));
    assert_eq!((saved.binlog.as_str(), saved.position), ("mysql-000002", 0));
    assert_eq!(saved.saving_ts % 1000, 0);
    assert_eq!(RotateEvent::decode(&[]).map(|r| r.1.position), Err(DecodeError::Eof));
}
