use bytes::BytesMut;
use ru_cdc::mysql::{encode_package, native_password_auth, DecodeError, Decoder, Encoder, Header};
use ru_cdc::protocal::{
    AuthSwitchReq, AuthSwitchResp, Capabilities, ColDef, ComBinLogDump, ComPing, ComQuery,
    ErrPacket, HandshakeResponse41, HandshakeV10, OkPacket, TextResult, CLIENT_CAPABILITIES,
    CLIENT_CONNECT_ATTRS, CLIENT_CONNECT_WITH_DB, CLIENT_DEPRECATE_EOF, CLIENT_LONG_PASSWORD,
    CLIENT_PLUGIN_AUTH, CLIENT_PLUGIN_AUTH_LENENC_CLIENT_DATA, CLIENT_PROTOCOL_41,
    CLIENT_RESERVED, CLIENT_RESERVED2, CLIENT_SSL,
};
use ru_cdc::session::{
    binlog_dump, check_pk, checksum_query, desc_fields, desc_sql, status_query, ConnectAction,
    ConnectPhase, Connector, ReadPhase, TextResultReader, FIRST_EVENT_OFFSET, KEEPALIVE_SECS,
    SERVER_ID,
};

fn encoded<E: Encoder>(e: &E) -> Vec<u8> {
    let mut buf = BytesMut::new();
    e.encode(&mut buf);
    buf.to_vec()
}

fn greeting(caps: u32, auth_len: u8, tail: &[u8], name: &[u8]) -> Vec<u8> {
    let mut g = vec![10u8];
    g.extend_from_slice(b"8.0.36\0");
    g.extend_from_slice(&99u32.to_le_bytes());
    g.extend_from_slice(&[1, 2, 3, 4, 5, 6, 7, 8]);
    g.push(0);
    g.extend_from_slice(&(caps as u16).to_le_bytes());
    g.push(45);
    g.extend_from_slice(&2u16.to_le_bytes());
    g.extend_from_slice(&((caps >> 16) as u16).to_le_bytes());
    g.push(auth_len);
    g.extend_from_slice(&[0; 10]);
    g.extend_from_slice(tail);
    g.extend_from_slice(name);
    g
}

const TAIL: [u8; 13] = [9, 10, 11, 12, 13, 14, 15, 16, 17, 18, 19, 20, 0];

#[test]
fn capabilities() {
    assert_eq!(
        CLIENT_CAPABILITIES,
        CLIENT_LONG_PASSWORD
            | CLIENT_PROTOCOL_41
            | CLIENT_PLUGIN_AUTH_LENENC_CLIENT_DATA
            | CLIENT_RESERVED
            | CLIENT_RESERVED2
            | CLIENT_DEPRECATE_EOF
            | CLIENT_PLUGIN_AUTH
    );
    let caps = Capabilities::from_bits(CLIENT_CAPABILITIES).unwrap();
    assert_eq!(caps.bits(), CLIENT_CAPABILITIES);
    assert!(caps.contains(CLIENT_PLUGIN_AUTH));
    assert!(caps.contains(CLIENT_PLUGIN_AUTH | CLIENT_PROTOCOL_41));
    assert!(!caps.contains(CLIENT_SSL));
    assert!(!caps.contains(CLIENT_SSL | CLIENT_PROTOCOL_41));
    assert!(Capabilities::from_bits(u32::MAX).is_some());
}

#[test]
fn handshake_greeting() {
    let caps = 0xffff_f7ffu32;
    let bytes = greeting(caps, 21, &TAIL, b"mysql_native_password\0");
    let (rest, h) = HandshakeV10::decode(&bytes).unwrap();
    assert!(rest.is_empty());
    assert_eq!(h.protocol_version, 10);
    assert_eq!(h.server_version, "8.0.36");
    assert_eq!(h.thread_id, 99);
    assert_eq!(h.caps.bits(), caps);
    assert_eq!(h.charset, 45);
    assert_eq!(h.status, 2);
    assert_eq!(h.auth_plugin_name, "mysql_native_password");
    let mut challenge = vec![1, 2, 3, 4, 5, 6, 7, 8];
    challenge.extend_from_slice(&TAIL);
    assert_eq!(h.auth_plugin_data, challenge);

    let mut other = bytes.clone();
    other[0] = 9;
    assert_eq!(HandshakeV10::decode(&other).map(|r| r.1.thread_id), Err(DecodeError::Not));
    assert_eq!(HandshakeV10::decode(&[]).map(|r| r.1.thread_id), Err(DecodeError::Eof));
    assert_eq!(
        HandshakeV10::decode(&bytes[..bytes.len() - 1]).map(|r| r.1.thread_id),
        Err(DecodeError::Eof)
    );
    assert_eq!(HandshakeV10::decode(&bytes[..30]).map(|r| r.1.thread_id), Err(DecodeError::Eof));

    let plain = greeting(CLIENT_PROTOCOL_41, 0, &[], b"trailing");
    let (rest, h) = HandshakeV10::decode(&plain).unwrap();
    assert_eq!(rest, b"trailing");
    assert_eq!(h.auth_plugin_name, "");
    assert_eq!(h.auth_plugin_data, vec![1, 2, 3, 4, 5, 6, 7, 8]);

    let long_tail: Vec<u8> = (0..22u8).collect();
    let long = greeting(CLIENT_PLUGIN_AUTH, 30, &long_tail, b"x\0");
    let (_, h) = HandshakeV10::decode(&long).unwrap();
    assert_eq!(h.auth_plugin_data.len(), 8 + 22);
    assert_eq!(h.auth_plugin_name, "x");
    let short = greeting(CLIENT_PLUGIN_AUTH, 3, &TAIL, b"x\0");
    assert_eq!(HandshakeV10::decode(&short).unwrap().1.auth_plugin_data.len(), 21);
}

#[test]
fn handshake_response() {
    let resp = HandshakeResponse41::new(0x0100_0000, "canal".to_string(), Some("p".to_string()));
    assert_eq!(resp.caps.bits(), CLIENT_CAPABILITIES);
    let mut expected = vec![];
    expected.extend_from_slice(&CLIENT_CAPABILITIES.to_le_bytes());
    expected.extend_from_slice(&0x0100_0000u32.to_le_bytes());
    expected.push(255);
    expected.extend_from_slice(&[0; 23]);
    expected.extend_from_slice(b"canal\0");
    expected.push(0);
    expected.extend_from_slice(b"p\0");
    expected.push(0);
    assert_eq!(encoded(&resp), expected);

    let full = HandshakeResponse41 {
        caps: Capabilities { bits: CLIENT_CONNECT_WITH_DB | CLIENT_CONNECT_ATTRS },
        max_packet_size: 1,
        charset: 33,
        user_name: "u".to_string(),
        auth_resp: vec![7, 8],
        database: None,
        plugin_name: Some("ignored".to_string()),
        connect_attrs: vec![("k".to_string(), "vv".to_string()), ("a".to_string(), "".to_string())],
        zstd_level: 0x102,
    };
    let mut expected = vec![];
    expected.extend_from_slice(&(CLIENT_CONNECT_WITH_DB | CLIENT_CONNECT_ATTRS).to_le_bytes());
    expected.extend_from_slice(&1u32.to_le_bytes());
    expected.push(33);
    expected.extend_from_slice(&[0; 23]);
    expected.extend_from_slice(b"u\0");
    expected.extend_from_slice(&[2, 7, 8]);
    expected.extend_from_slice(b"default\0");
    expected.extend_from_slice(&[2, 1, b'k', 2, b'v', b'v', 1, b'a', 0]);
    expected.push(2);
    assert_eq!(encoded(&full), expected);

    let mut with_db = full.clone();
    with_db.database = Some("shop".to_string());
    with_db.caps = Capabilities { bits: CLIENT_CONNECT_WITH_DB | CLIENT_PLUGIN_AUTH };
    with_db.plugin_name = None;
    let bytes = encoded(&with_db);
    assert!(bytes.ends_with(b"shop\0\0\x02"));
}

#[test]
fn auth_switch() {
    let mut bytes = vec![0xfe];
    bytes.extend_from_slice(b"mysql_native_password\0");
    bytes.extend_from_slice(&[1, 2, 3]);
    let (rest, req) = AuthSwitchReq::decode(&bytes).unwrap();
    assert!(rest.is_empty());
    assert_eq!(req.plugin_name, "mysql_native_password");
    assert_eq!(req.plugin_data, vec![1, 2, 3]);
    bytes[0] = 0;
    assert_eq!(AuthSwitchReq::decode(&bytes).map(|r| r.1.plugin_name), Err(DecodeError::Fail));
    assert_eq!(AuthSwitchReq::decode(&[0xfe, b'x']).map(|r| r.1.plugin_name), Err(DecodeError::Eof));
    assert_eq!(AuthSwitchReq::decode(&[]).map(|r| r.1.plugin_name), Err(DecodeError::Eof));
    assert_eq!(encoded(&AuthSwitchResp { data: vec![4, 5] }), vec![4, 5]);
}

#[test]
fn commands() {
    assert_eq!(encoded(&ComQuery::new("show master status")), b"\x03show master status".to_vec());
    assert_eq!(ComQuery::new("x").query, "x");
    assert_eq!(ComQuery::from("desc db1.t1".to_string()).query, "desc db1.t1");
    assert_eq!(encoded(&ComPing {}), vec![0x0e]);
    let dump = ComBinLogDump {
        pos: 4,
        flags: 0,
        server_id: 100,
        filename: "mysql-000002".to_string(),
    };
    let mut expected = vec![0x12, 4, 0, 0, 0, 0, 0, 100, 0, 0, 0];
    expected.extend_from_slice(b"mysql-000002");
    assert_eq!(encoded(&dump), expected);
}

#[test]
fn commands_of_the_reader() {
    assert_eq!(
        checksum_query().query,
        "set @master_binlog_checksum= @@global.binlog_checksum"
    );
    assert_eq!(status_query().query, "show master status");
    let dump = binlog_dump("mysql-000002".to_string(), 4);
    assert_eq!((dump.pos, dump.flags, dump.server_id), (4, 0, 100));
    assert_eq!(dump.filename, "mysql-000002");
    assert_eq!((SERVER_ID, KEEPALIVE_SECS, FIRST_EVENT_OFFSET), (100, 600, 4));
}

#[test]
fn ok_and_error_packets() {
    let (rest, ok) = OkPacket::decode(&[0, 3, 0xfc, 0x34, 0x12, 2, 0, 1, 0, 9, 9]).unwrap();
    assert!(rest.is_empty());
    assert!(ok.is_ok());
    assert!(!ok.is_eof());
    assert_eq!(ok.affected_rows.value(), 3);
    assert_eq!(ok.last_insert_id.value(), 0x1234);
    assert_eq!((ok.status_flags, ok.warnings), (2, 1));
    assert_eq!(ok.info, "");
    let (_, eof) = OkPacket::decode(&[0xfe, 0, 0, 0x22, 0, 0, 0]).unwrap();
    assert!(eof.is_eof());
    assert_eq!(eof.status_flags, 0x22);
    assert_eq!(OkPacket::decode(&[0xff, 0, 0, 0, 0, 0, 0]).map(|r| r.1.header), Err(DecodeError::Fail));
    assert_eq!(OkPacket::decode(&[0, 0, 0, 0, 0, 0]).map(|r| r.1.header), Err(DecodeError::Eof));
    assert_eq!(OkPacket::decode(&[]).map(|r| r.1.header), Err(DecodeError::Eof));

    let mut bytes = vec![0xff, 0x15, 0x04, b'#'];
    bytes.extend_from_slice(b"28000");
    bytes.extend_from_slice(b"Access denied");
    let (rest, err) = ErrPacket::decode(&bytes).unwrap();
    assert!(rest.is_empty());
    assert_eq!((err.header, err.code, err.sql_state_marker), (0xff, 1045, b'#'));
    assert_eq!(err.sql_state, "28000");
    assert_eq!(err.error_msg, "Access denied");
    assert_eq!(ErrPacket::decode(&bytes[..8]).map(|r| r.1.code), Err(DecodeError::Eof));
    bytes.push(0xff);
    assert_eq!(ErrPacket::decode(&bytes).map(|r| r.1.code), Err(DecodeError::Fail));
}

#[test]
fn text_rows() {
    let (rest, row) = TextResult::decode(&[2, b'i', b'd', 0xfb, 0, 1, b'x']).unwrap();
    assert!(rest.is_empty());
    assert_eq!(row.columns, vec![b"id".to_vec(), b"NULL".to_vec(), vec![], b"x".to_vec()]);
    assert_eq!(TextResult::decode(&[]).unwrap().1.columns.len(), 0);
    assert_eq!(TextResult::decode(&[2, b'i']).map(|r| r.1.columns.len()), Err(DecodeError::Eof));
    assert_eq!(TextResult::decode(&[1, b'i', 0xff]).map(|r| r.1.columns.len()), Err(DecodeError::Fail));
}

fn col_def_bytes() -> Vec<u8> {
    let mut b = vec![];
    for s in ["def", "db1", "t1", "t1", "c1", "c1"] {
        b.push(s.len() as u8);
        b.extend_from_slice(s.as_bytes());
    }
    b.push(0x0c);
    b.extend_from_slice(&33u16.to_le_bytes());
    b.extend_from_slice(&11u32.to_le_bytes());
    b.push(3);
    b.extend_from_slice(&0x4203u16.to_le_bytes());
    b.push(0);
    b
}

#[test]
fn column_definition() {
    let mut bytes = col_def_bytes();
    bytes.extend_from_slice(&[0, 0]);
    let (rest, col) = ColDef::decode(&bytes).unwrap();
    assert_eq!(rest, &[0u8, 0][..]);
    assert_eq!(col.catalog, "def");
    assert_eq!(col.schema, "db1");
    assert_eq!(col.table, "t1");
    assert_eq!(col.original_table, "t1");
    assert_eq!(col.name, "c1");
    assert_eq!(col.original_name, "c1");
    assert_eq!(col.length_of_fixed_length_fields.value(), 0x0c);
    assert_eq!((col.charset, col.column_length, col.ty), (33, 11, 3));
    assert_eq!((col.flags, col.decimals), (0x4203, 0));
    let whole = col_def_bytes();
    for cut in 0..whole.len() {
        assert_eq!(
            ColDef::decode(&whole[..cut]).map(|r| r.1.ty),
            Err(DecodeError::Eof),
            "cut at {}",
            cut
        );
    }
    let mut bad = col_def_bytes();
    bad[1] = 0xff;
    assert_eq!(ColDef::decode(&bad).map(|r| r.1.ty), Err(DecodeError::Eof));
}

fn head(len: usize, seq: u32) -> Header {
    Header { len: len as u32, serial_id: seq }
}

#[test]
fn result_set_reader() {
    let mut reader = TextResultReader::new();
    assert_eq!(reader.phase, ReadPhase::Count);
    assert_eq!(reader.feed(head(1, 1), &[0xff, 1]), Err(DecodeError::Fail));
    assert_eq!(reader.phase, ReadPhase::Count);
    assert_eq!(reader.feed(head(1, 1), &[2]), Ok(false));
    assert_eq!((reader.phase, reader.remaining), (ReadPhase::Columns, 2));
    assert_eq!(reader.feed(head(1, 2), &[1, 2]), Err(DecodeError::Fail));
    assert_eq!(reader.feed(head(1, 2), &col_def_bytes()), Ok(false));
    assert_eq!((reader.phase, reader.remaining), (ReadPhase::Columns, 1));
    assert_eq!(reader.feed(head(1, 3), &col_def_bytes()), Ok(false));
    assert_eq!((reader.phase, reader.remaining), (ReadPhase::Rows, 0));
    assert_eq!(reader.feed(head(1, 4), &[1, b'a', 0xfb]), Ok(false));
    assert_eq!(reader.feed(head(1, 5), &[0xff, 1, 2]), Err(DecodeError::Fail));
    assert_eq!(reader.feed(head(1, 5), &[5, b'a']), Err(DecodeError::Eof));
    assert_eq!(reader.feed(head(1, 5), &[0xfe, 0, 0]), Err(DecodeError::Eof));
    assert_eq!(reader.phase, ReadPhase::Rows);
    // A row of nine bytes or more may begin with 0xFE.
    assert_eq!(
        reader.feed(head(1, 5), &[0xfe, 1, 0, 0, 0, 0, 0, 0, 0, b'z']),
        Ok(false)
    );
    assert_eq!(reader.feed(head(1, 6), &[0xfe, 0, 0, 0x22, 0, 0, 0]), Ok(true));
    assert_eq!(reader.phase, ReadPhase::Done);
    assert_eq!(reader.feed(head(1, 7), &[1, b'a']), Err(DecodeError::Not));
    let set = reader.into_result();
    assert_eq!(set.column_count.value(), 2);
    assert_eq!(set.col_defs.len(), 2);
    assert_eq!(set.rows.len(), 2);
    assert_eq!(set.rows[0].columns, vec![b"a".to_vec(), b"NULL".to_vec()]);

    let mut no_columns = TextResultReader::new();
    assert_eq!(no_columns.feed(head(1, 1), &[0]), Ok(false));
    assert_eq!(no_columns.phase, ReadPhase::Rows);
}

#[test]
fn describing_a_table() {
    assert_eq!(desc_sql("db1", "t1"), "desc db1.t1");
    assert!(check_pk(&"PRI".to_string()));
    assert!(check_pk(&"PRIMARY".to_string()));
    assert!(!check_pk(&"".to_string()));
    assert!(!check_pk(&"UNI".to_string()));
    assert!(!check_pk(&"pri".to_string()));
    let rows = vec![
        TextResultRow::row(&["c1", "int(11)", "NO", "PRI", "NULL", ""]),
        TextResultRow::row(&["c2", "varchar(50)", "YES", "", "NULL", ""]),
    ];
    let fields = desc_fields(&rows).unwrap();
    assert_eq!(fields.len(), 2);
    assert_eq!((fields[0].name.as_str(), fields[0].field_type.as_str(), fields[0].is_pk), ("c1", "int(11)", true));
    assert_eq!((fields[1].name.as_str(), fields[1].field_type.as_str(), fields[1].is_pk), ("c2", "varchar(50)", false));
    assert_eq!(desc_fields(&vec![]).map(|f| f.len()), Some(0));
    let short = vec![TextResultRow::row(&["c1", "int(11)", "NO"])];
    assert!(desc_fields(&short).is_none());
}

struct TextResultRow;

impl TextResultRow {
    fn row(cols: &[&str]) -> TextResult {
        TextResult { columns: cols.iter().map(|c| c.as_bytes().to_vec()).collect() }
    }
}

fn framed<E: Encoder>(seq: u8, e: &E) -> Vec<u8> {
    let mut buf = BytesMut::new();
    encode_package(&mut buf, seq, e);
    buf.to_vec()
}

#[test]
fn opening_a_session() {
    let mut c = Connector::new("canal".to_string(), "canal".to_string(), 0x0100_0000, None);
    assert_eq!(c.phase, ConnectPhase::Greeting);
    let g = greeting(0xffff_f7ff, 21, &TAIL, b"caching_sha2_password\0");
    let first = match c.on_packet(head(g.len(), 0), &g) {
        ConnectAction::Send(bytes) => bytes,
        other => panic!("{:?}", other),
    };
    let resp = HandshakeResponse41::new(0x0100_0000, "canal".to_string(), None);
    assert_eq!(first, framed(1, &resp));
    assert_eq!(first[3], 1);
    assert_eq!(c.phase, ConnectPhase::Switch);
    assert_eq!(c.auth_plugin_data.len(), 21);

    let mut switch = vec![0xfe];
    switch.extend_from_slice(b"mysql_native_password\0");
    switch.extend_from_slice(&TAIL);
    let second = match c.on_packet(head(switch.len(), 2), &switch) {
        ConnectAction::Send(bytes) => bytes,
        other => panic!("{:?}", other),
    };
    let token = native_password_auth(b"canal", &c.auth_plugin_data);
    assert_eq!(second, framed(3, &AuthSwitchResp { data: token.to_vec() }));
    assert_eq!(second.len(), 24);
    assert_eq!(c.phase, ConnectPhase::Verdict);

    assert!(matches!(c.on_packet(head(7, 4), &[0, 0, 0, 2, 0, 0, 0]), ConnectAction::Connected));
    assert_eq!(c.phase, ConnectPhase::Connected);
    assert!(matches!(c.on_packet(head(7, 5), &[0, 0, 0, 2, 0, 0, 0]), ConnectAction::Failed));
    assert_eq!(c.phase, ConnectPhase::Failed);
}

#[test]
fn a_session_that_does_not_open() {
    let g = greeting(0xffff_f7ff, 21, &TAIL, b"x\0");
    let mut c = Connector::new("u".to_string(), "p".to_string(), 1, Some("n".to_string()));
    assert!(matches!(c.on_packet(head(3, 0), &[0xff, 1, 2]), ConnectAction::Failed));
    assert_eq!(c.phase, ConnectPhase::Failed);
    assert!(matches!(c.on_packet(head(g.len(), 0), &g), ConnectAction::Failed));

    let mut c = Connector::new("u".to_string(), "p".to_string(), 1, Some("n".to_string()));
    assert!(matches!(c.on_packet(head(g.len(), 0), &g), ConnectAction::Send(_)));
    let mut other = vec![0xfe];
    other.extend_from_slice(b"caching_sha2_password\0");
    assert!(matches!(c.on_packet(head(other.len(), 2), &other), ConnectAction::Failed));
    assert_eq!(c.phase, ConnectPhase::Failed);

    let mut c = Connector::new("u".to_string(), "p".to_string(), 1, None);
    let no_tail = greeting(CLIENT_PROTOCOL_41, 0, &[], b"");
    assert!(matches!(c.on_packet(head(no_tail.len(), 0), &no_tail), ConnectAction::Send(_)));
    let mut switch = vec![0xfe];
    switch.extend_from_slice(b"mysql_native_password\0");
    // The challenge of the greeting has eight bytes only.
    assert!(matches!(c.on_packet(head(switch.len(), 2), &switch), ConnectAction::Failed));

    let mut c = Connector::new("u".to_string(), "p".to_string(), 1, None);
    assert!(matches!(c.on_packet(head(g.len(), 0), &g), ConnectAction::Send(_)));
    let mut switch = vec![0xfe];
    switch.extend_from_slice(b"mysql_native_password\0");
    assert!(matches!(c.on_packet(head(switch.len(), 2), &switch), ConnectAction::Send(_)));
    assert!(matches!(c.on_packet(head(9, 4), b"\xff\x15\x04#28000"), ConnectAction::Failed));
}
