use ru_cdc::binlog::{
    check_bit, compute_null_map, decode_column_vals, parse_bcd, read_bits, ColMeta, ColumnType,
    DecimalVal, TableMap,
};
use ru_cdc::mysql::DecodeError;
use ru_cdc::value::Value;

fn text(v: &Value) -> String {
    match v {
        Value::Text(s) => s.clone(),
        other => panic!("no text: {:?}", other),
    }
}

fn meta() -> ColMeta {
    ColMeta::new()
}

fn decode(tp: ColumnType, input: &[u8], meta: &ColMeta) -> (usize, Value) {
    let (rest, v) = ColumnType::decode_val(tp, input, meta).unwrap();
    (input.len() - rest.len(), v)
}

#[test]
fn decimal_of_two_places() {
    let (rest, dec) = DecimalVal::decode(&[0x80, 0x00, 0x00, 0x7b, 0x2d, 0xee], 10, 2).unwrap();
    assert_eq!(dec.val, "123.45");
    assert_eq!(rest, &[0xeeu8][..]);
    let (_, dec) = DecimalVal::decode(&[0x7f, 0xff, 0xff, 0x84, 0xd2], 10, 2).unwrap();
    assert_eq!(dec.val, "-123.45");
    let (_, dec) = DecimalVal::decode(&[0x7f, 0xff, 0xff, 0x84, 0xd1], 10, 2).unwrap();
    assert_eq!(dec.val, "-123.46");
}

#[test]
fn decimal_in_six_bytes() {
    // Precision 10 and scale 2 take five bytes: four for eight digits
    // before the point, one for two digits after it.
    let raw = [0x80u8, 0x00, 0x00, 0x00, 0x7b, 0x2d];
    let (rest, dec) = DecimalVal::decode(&raw, 10, 2).unwrap();
    assert_eq!(rest, &[0x2du8][..]);
    assert_eq!(dec.val, "0.123");
    let (rest, dec) = DecimalVal::decode(&raw, 12, 2).unwrap();
    assert!(rest.is_empty());
    assert_eq!(dec.val, "123.45");
    let (_, dec) = DecimalVal::decode(&[0x7f, 0xff, 0xff, 0xff, 0x84, 0xd2], 12, 2).unwrap();
    assert_eq!(dec.val, "-123.45");
}

#[test]
fn decimal_groups_of_nine() {
    // 1234567890.000000012 with precision 19 and scale 9: one leftover
    // digit in one byte, one group of nine before the point, one after.
    let mut raw = vec![0x81u8];
    raw.extend_from_slice(&234_567_890u32.to_be_bytes());
    raw.extend_from_slice(&12u32.to_be_bytes());
    let (_, dec) = DecimalVal::decode(&raw, 19, 9).unwrap();
    assert_eq!(dec.val, "1234567890.000000012");
    // The first group that is not zero is written as it is.
    let mut raw = vec![0x80u8];
    raw.extend_from_slice(&42u32.to_be_bytes());
    raw.extend_from_slice(&500_000_000u32.to_be_bytes());
    let (_, dec) = DecimalVal::decode(&raw, 19, 9).unwrap();
    assert_eq!(dec.val, "42.500000000");
    // Two groups before the point: the second is filled with zeros.
    let mut raw = vec![];
    raw.extend_from_slice(&(7u32 | 0x8000_0000).to_be_bytes());
    raw.extend_from_slice(&5u32.to_be_bytes());
    let (_, dec) = DecimalVal::decode(&raw, 18, 0).unwrap();
    assert_eq!(dec.val, "7000000005");
    let (_, dec) = DecimalVal::decode(&[0x80, 0, 0, 0, 0, 0, 0, 0], 18, 0).unwrap();
    assert_eq!(dec.val, "0");
}

#[test]
fn decimal_refusals() {
    assert_eq!(DecimalVal::decode(&[0x80], 0, 0).map(|r| r.1.val), Err(DecodeError::Fail));
    assert_eq!(DecimalVal::decode(&[0x80; 8], 2, 3).map(|r| r.1.val), Err(DecodeError::Fail));
    assert_eq!(DecimalVal::decode(&[0x80, 0], 10, 2).map(|r| r.1.val), Err(DecodeError::Eof));
    let mut m = meta();
    m.precision = Some(10);
    m.decimals = Some(2);
    let (used, v) = decode(ColumnType::DECIMAL, &[0x80, 0x00, 0x00, 0x7b, 0x2d], &m);
    assert_eq!((used, text(&v).as_str()), (5, "123.45"));
    assert_eq!(
        ColumnType::decode_val(ColumnType::DECIMAL, &[0x80], &meta()).map(|r| r.0.len()),
        Err(DecodeError::Fail)
    );
}

fn datetime_bytes(y: u64, mo: u64, d: u64, h: u64, mi: u64, s: u64) -> Vec<u8> {
    let v = ((y * 13 + mo) << 22 | d << 17 | h << 12 | mi << 6 | s) + 0x80_0000_0000;
    v.to_be_bytes()[3..].to_vec()
}

#[test]
fn datetime_with_fraction() {
    let mut m = meta();
    m.fsp = Some(3);
    let mut raw = datetime_bytes(2024, 6, 15, 7, 45, 22);
    assert_eq!(raw, vec![0x99, 0xb3, 0x9e, 0x7b, 0x56]);
    raw.extend_from_slice(&[0x03, 0xe8]);
    let (used, v) = decode(ColumnType::DATETIME, &raw, &m);
    assert_eq!(used, 7);
    assert_eq!(text(&v), "2024-06-15 07:45:22.100");
    m.fsp = Some(6);
    let mut raw = datetime_bytes(2024, 6, 15, 7, 45, 22);
    raw.extend_from_slice(&[0x01, 0x86, 0xa0]);
    assert_eq!(text(&decode(ColumnType::DATETIME, &raw, &m).1), "2024-06-15 07:45:22.100000");
    m.fsp = Some(1);
    let mut raw = datetime_bytes(999, 1, 2, 3, 4, 5);
    raw.push(70);
    assert_eq!(text(&decode(ColumnType::DATETIME, &raw, &m).1), "0999-01-02 03:04:05.7");
    m.fsp = None;
    let raw = datetime_bytes(2024, 12, 31, 23, 59, 59);
    let (used, v) = decode(ColumnType::DATETIME, &raw, &m);
    assert_eq!((used, text(&v).as_str()), (5, "2024-12-31 23:59:59"));
}

#[test]
fn datetime_with_a_byte_to_spare() {
    // These bytes hold 2016-09-21 07:35:02 by the layout of the fields,
    // and precision 3 reads two bytes of fraction: 0x0186 is 390, which
    // stands for 39 thousandths.
    let mut m = meta();
    m.fsp = Some(3);
    let raw = [0x99u8, 0x9a, 0x6a, 0x78, 0xc2, 0x01, 0x86, 0xa0];
    let (used, v) = decode(ColumnType::DATETIME, &raw, &m);
    assert_eq!(used, 7);
    assert_eq!(text(&v), "2016-09-21 07:35:02.039");
}

#[test]
fn datetime_refusals() {
    let m = meta();
    assert_eq!(
        ColumnType::decode_val(ColumnType::DATETIME, &[0x7f, 0, 0, 0, 0], &m).map(|r| r.0.len()),
        Err(DecodeError::Fail)
    );
    assert_eq!(
        ColumnType::decode_val(ColumnType::DATETIME, &[0x99, 0, 0, 0], &m).map(|r| r.0.len()),
        Err(DecodeError::Eof)
    );
    let mut m = meta();
    m.fsp = Some(4);
    let mut raw = datetime_bytes(2024, 6, 15, 7, 45, 22);
    raw.push(1);
    assert_eq!(
        ColumnType::decode_val(ColumnType::DATETIME, &raw, &m).map(|r| r.0.len()),
        Err(DecodeError::Eof)
    );
    m.fsp = Some(9);
    assert_eq!(text(&decode(ColumnType::DATETIME, &raw, &m).1), "2024-06-15 07:45:22.000");
}

#[test]
fn integers() {
    let m = meta();
    assert!(matches!(decode(ColumnType::TINYINT, &[0xff], &m), (1, Value::Int(255))));
    assert!(matches!(decode(ColumnType::SMALLINT, &[0xff, 0xff], &m), (2, Value::Int(65535))));
    assert!(matches!(decode(ColumnType::MEDIUMINT, &[1, 2, 3], &m), (3, Value::Int(0x030201))));
    assert!(matches!(decode(ColumnType::INT, &[7, 0, 0, 0, 9], &m), (4, Value::Int(7))));
    assert!(matches!(decode(ColumnType::INT, &[0xff; 4], &m), (4, Value::Int(-1))));
    assert!(matches!(decode(ColumnType::BIGINT, &[0xff; 8], &m), (8, Value::Int(-1))));
    assert!(matches!(decode(ColumnType::YEAR, &[124], &m), (1, Value::Int(2024))));
    assert!(matches!(
        decode(ColumnType::FLOAT, &1.5f32.to_le_bytes(), &m),
        (4, Value::Float(0x3fc0_0000))
    ));
    let (used, v) = decode(ColumnType::DOUBLE, &(-2.25f64).to_le_bytes(), &m);
    assert_eq!(used, 8);
    match v {
        Value::Double(bits) => assert_eq!(f64::from_bits(bits), -2.25),
        other => panic!("{:?}", other),
    }
    assert_eq!(
        ColumnType::decode_val(ColumnType::INT, &[1, 2, 3], &m).map(|r| r.0.len()),
        Err(DecodeError::Eof)
    );
    assert!(matches!(decode(ColumnType::NOT_MATCH, &[1, 2], &m), (0, Value::Null)));
}

#[test]
fn dates_and_times() {
    let m = meta();
    let v: u32 = 2024 << 9 | 6 << 5 | 15;
    let raw = v.to_le_bytes();
    let (used, value) = decode(ColumnType::DATE, &raw[..3], &m);
    assert_eq!((used, text(&value).as_str()), (3, "2024-06-15"));
    let v: u32 = 987 << 9 | 1 << 5 | 2;
    assert_eq!(text(&decode(ColumnType::DATE, &v.to_le_bytes()[..3], &m).1), "0987-01-02");
    assert!(matches!(decode(ColumnType::DATE, &[0, 0, 0], &m), (3, Value::Null)));
    // 13:07:09: sign bit, ten bits of hours, six of minutes, six of
    // seconds.
    let t: u32 = 1 << 23 | 13 << 12 | 7 << 6 | 9;
    let raw = t.to_be_bytes();
    let (used, value) = decode(ColumnType::TIME, &raw[1..], &m);
    assert_eq!((used, text(&value).as_str()), (3, "13:07:09.0"));
    let mut with_fsp = meta();
    with_fsp.fsp = Some(2);
    let mut raw = t.to_be_bytes()[1..].to_vec();
    raw.push(25);
    let (used, value) = decode(ColumnType::TIME, &raw, &with_fsp);
    assert_eq!((used, text(&value).as_str()), (4, "13:07:09.250000"));
    assert_eq!(text(&decode(ColumnType::TIME, &[0, 0, 0], &m).1), "00:00:00.0");
    let (used, value) = decode(ColumnType::TIMESTAMP, &[0x66, 0x6d, 0x4a, 0x12, 0x03, 0xe8], &{
        let mut m = meta();
        m.fsp = Some(3);
        m
    });
    assert_eq!((used, text(&value).as_str()), (6, "1718438418.100000"));
    assert_eq!(text(&decode(ColumnType::TIMESTAMP, &[0xff; 4], &m).1), "-1.0");
}

#[test]
fn negative_time_is_negated_within_three_bytes() {
    let m = meta();
    // The sign bit is clear: the number is read little-endian, negated
    // within 24 bits and written back before the fields are taken.
    let raw = [0x7fu8, 0xff, 0xff];
    let n: u32 = 0xffff7f;
    let negated = (0x100_0000 - n) % 0x100_0000;
    let data = [negated as u8, (negated >> 8) as u8, (negated >> 16) as u8];
    let hours = read_bits(&data, 2, 10);
    let minutes = read_bits(&data, 12, 6);
    let seconds = read_bits(&data, 18, 6);
    assert_eq!((hours, minutes, seconds), (16, 0, 0));
    assert_eq!(text(&decode(ColumnType::TIME, &raw, &m).1), "16:00:00.0");
}

#[test]
fn strings_and_blobs() {
    let mut m = meta();
    m.max_length = Some(50);
    let (used, v) = decode(ColumnType::VARCHAR, &[2, b'h', b'i', 9], &m);
    assert_eq!((used, text(&v).as_str()), (3, "hi"));
    m.max_length = Some(256);
    let (used, v) = decode(ColumnType::VARCHAR, &[2, 0, b'h', b'i', 9], &m);
    assert_eq!((used, text(&v).as_str()), (4, "hi"));
    m.max_length = Some(255);
    let (used, v) = decode(ColumnType::CHAR, &[1, 0xff], &m);
    assert_eq!((used, text(&v).as_str()), (2, ""));
    assert_eq!(
        ColumnType::decode_val(ColumnType::CHAR, &[3, b'a'], &m).map(|r| r.0.len()),
        Err(DecodeError::Eof)
    );
    let mut m = meta();
    m.length_size = Some(2);
    let (used, v) = decode(ColumnType::TEXT, &[3, 0, 1, 2, 3, 4], &m);
    assert_eq!(used, 5);
    assert!(matches!(v, Value::Bytes(ref b) if b == &vec![1u8, 2, 3]));
    let (used, v) = decode(ColumnType::TEXT, &[1, 7], &meta());
    assert_eq!(used, 2);
    assert!(matches!(v, Value::Bytes(ref b) if b == &vec![7u8]));
    m.length_size = Some(0);
    let (used, v) = decode(ColumnType::TEXT, &[1, 7], &m);
    assert_eq!(used, 0);
    assert!(matches!(v, Value::Bytes(ref b) if b.is_empty()));
}

#[test]
fn column_kinds_by_code() {
    let pairs = [
        (1u8, ColumnType::TINYINT),
        (2, ColumnType::SMALLINT),
        (3, ColumnType::INT),
        (4, ColumnType::FLOAT),
        (5, ColumnType::DOUBLE),
        (8, ColumnType::BIGINT),
        (9, ColumnType::MEDIUMINT),
        (246, ColumnType::DECIMAL),
        (10, ColumnType::DATE),
        (19, ColumnType::TIME),
        (18, ColumnType::DATETIME),
        (13, ColumnType::YEAR),
        (17, ColumnType::TIMESTAMP),
        (254, ColumnType::CHAR),
        (15, ColumnType::VARCHAR),
        (252, ColumnType::TEXT),
        (0, ColumnType::NOT_MATCH),
        (255, ColumnType::NOT_MATCH),
    ];
    for (code, kind) in pairs {
        assert_eq!(ColumnType::from_code(code), kind);
        assert_eq!(ColumnType::from(code), kind);
    }
}

#[test]
fn bits_and_digits() {
    assert_eq!(read_bits(&[0b1010_0000], 0, 1), 1);
    assert_eq!(read_bits(&[0b1010_0000], 1, 1), 0);
    assert_eq!(read_bits(&[0b1010_0000, 0xff], 0, 12), 0b1010_0000_1111);
    assert_eq!(read_bits(&[0xff, 0xff, 0xff, 0xff], 0, 32), u32::MAX);
    assert_eq!(read_bits(&[0xff], 3, 0), 0);
    assert_eq!(parse_bcd(&[0x12, 0x34], 3), "123");
    assert_eq!(parse_bcd(&[0x12, 0x34], 0), "");
    assert_eq!(parse_bcd(&[0x12, 0x34], 4), "1234");
    assert_eq!(parse_bcd(&[0x12, 0x34], 9), "1234");
    assert_eq!(parse_bcd(&[0x1f], 1), "1");
    assert_eq!(check_bit(&[0b0000_0010, 1], 1), 1);
    assert_eq!(check_bit(&[0b0000_0010, 1], 0), 0);
    assert_eq!(check_bit(&[0b0000_0010, 1], 8), 1);
    assert_eq!(compute_null_map(&[0b0000_0101], 4), vec![true, false, true, false]);
}

#[test]
fn table_map_columns_and_metadata() {
    let mut tm = TableMap::new();
    let codes = vec![3u8, 15, 254, 246, 18, 252, 4, 99, 246];
    let block = [50u8, 0, 0xfe, 20, 10, 2, 3, 2, 4, 12];
    tm.decode_columns(5, codes.clone(), &block);
    let kinds = &tm.mapping[&5];
    assert_eq!(kinds.len(), codes.len());
    assert_eq!(kinds[1], ColumnType::VARCHAR);
    assert_eq!(kinds[7], ColumnType::NOT_MATCH);
    let metas = &tm.metas[&5];
    assert_eq!(metas.len(), codes.len());
    assert_eq!(metas[0], ColMeta::new());
    assert_eq!(metas[1].max_length, Some(50));
    assert_eq!(metas[2].max_length, Some((((0xfe14u16 >> 4) & 0x300) ^ 0x300) + 0x14));
    assert_eq!((metas[3].precision, metas[3].decimals), (Some(10), Some(2)));
    assert_eq!(metas[4].fsp, Some(3));
    assert_eq!(metas[5].length_size, Some(2));
    assert_eq!(metas[6].size, Some(4));
    assert_eq!(metas[7], ColMeta::new());
    // The block ends after the precision of the last decimal.
    assert_eq!((metas[8].precision, metas[8].decimals), (Some(12), None));
    tm.decode_columns(5, vec![3], &[]);
    assert_eq!(tm.mapping[&5].len(), 1);
    tm.decode_columns(6, vec![15], &[9]);
    assert_eq!(tm.metas[&6][0].max_length, None);
    assert_eq!(tm.mapping[&5].len(), 1);
}

#[test]
fn one_row_with_nulls() {
    let mut tm = TableMap::new();
    tm.decode_columns(9, vec![3, 15, 1], &[50, 0]);
    let row = [0b0000_0010u8, 7, 0, 0, 0, 5, 0xaa];
    let (rest, values) = decode_column_vals(&tm, &row, 9, 1).unwrap();
    assert_eq!(rest, &[0xaau8][..]);
    assert_eq!(values.len(), 3);
    assert!(matches!(values[0], Value::Int(7)));
    assert!(matches!(values[1], Value::Null));
    assert!(matches!(values[2], Value::Int(5)));
    let (_, again) = tm.decode_column_vals(&row, 9, 1).unwrap();
    assert_eq!(again.len(), 3);
    assert_eq!(decode_column_vals(&tm, &row, 8, 1).map(|r| r.1.len()), Err(DecodeError::Fail));
    assert_eq!(decode_column_vals(&tm, &row, 9, 0).map(|r| r.1.len()), Err(DecodeError::Fail));
    assert_eq!(decode_column_vals(&tm, &row[..3], 9, 1).map(|r| r.1.len()), Err(DecodeError::Eof));
    assert_eq!(decode_column_vals(&tm, &[], 9, 1).map(|r| r.1.len()), Err(DecodeError::Eof));
}
