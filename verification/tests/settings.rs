use ru_cdc::config::{
    match_pattern, Config, Instance, KafkaConfig, MqConfig, RedisConfig, DEFAULT_WORKERS,
};
use ru_cdc::message_queue::{kafka_settings, redis_url, MessageQueues, QueueMessage};
use ru_cdc::position_manager::{
    check_valid_pos, parse_u32, read_from_row, update_pos, PositionMng,
};
use ru_cdc::protocal::{TextResult, TextResultSet, VLenInt};
use ru_cdc::statistics::{Checkpoint, Statistics};

#[test]
fn patterns() {
    assert!(match_pattern("db*", "db1"));
    assert!(match_pattern("db*", "db"));
    assert!(!match_pattern("db*", "d"));
    assert!(match_pattern("*", "anything"));
    assert!(match_pattern("*", ""));
    assert!(match_pattern("*_log", "audit_log"));
    assert!(!match_pattern("*_log", "audit_logs"));
    assert!(match_pattern("foo*bar", "foo_x_bar"));
    assert!(match_pattern("foo*bar", "foobar"));
    assert!(!match_pattern("foo*bar", "foo_x_baz"));
    assert!(!match_pattern("foo*bar", "fo_bar"));
    assert!(match_pattern("exact", "exact"));
    assert!(!match_pattern("exact", "exact1"));
    assert!(!match_pattern("a*b*c", "abc"));
    assert!(match_pattern("a*b*c", "a*b*c"));
    assert!(match_pattern("a**", "a*z"));
    assert!(match_pattern("", ""));
    assert!(!match_pattern("", "x"));
    assert!(match_pattern("t*", "t1"));
}

fn instance() -> Instance {
    Instance {
        mq: "the_kafka".to_string(),
        schemas: "db*".to_string(),
        tables: "t*".to_string(),
        black_list: vec!["t_tmp*".to_string(), "t9".to_string()],
        topic: "db_change".to_string(),
    }
}

#[test]
fn instance_chooses_tables() {
    let inst = instance();
    assert_eq!(
        inst.check_if_need_a_mq("db1".to_string(), "t1".to_string()),
        Some(("the_kafka".to_string(), "db_change".to_string()))
    );
    assert_eq!(inst.check_if_need_a_mq("other".to_string(), "t1".to_string()), None);
    assert_eq!(inst.check_if_need_a_mq("db1".to_string(), "t9".to_string()), None);
    assert_eq!(inst.check_if_need_a_mq("db1".to_string(), "t_tmp_1".to_string()), None);
    assert_eq!(inst.check_if_need_a_mq("db1".to_string(), "users".to_string()), None);
    let mut open = instance();
    open.black_list.clear();
    assert!(open.check_if_need_a_mq("db1".to_string(), "t9".to_string()).is_some());
}

#[test]
fn default_settings() {
    let c = Config::gen_default();
    assert_eq!(c.db_ip, "127.0.0.1");
    assert_eq!(c.db_port, 3306);
    assert_eq!(c.max_packages, 4294967295);
    assert_eq!(c.user_name, "canal");
    assert_eq!(c.passwd, "canal");
    assert_eq!(c.workers, 0);
    assert_eq!(c.from_start, Some(false));
    assert_eq!(c.mqs.len(), 1);
    assert_eq!(c.mqs[0].mq_name, "the_kafka");
    match &c.mqs[0].mq_cfg {
        MqConfig::KAFKA(k) => {
            assert_eq!(k.brokers, "127.0.0.1:9092");
            assert_eq!(k.queue_buffering_max, 333);
        }
        MqConfig::REDIS(_) => panic!("kafka expected"),
    }
    assert_eq!(c.instances.len(), 1);
    let inst = &c.instances[0];
    assert_eq!(inst.mq, "the_kafka");
    assert_eq!(inst.schemas, "test*");
    assert_eq!(inst.tables, "s*");
    assert_eq!(inst.black_list, vec!["tb01".to_string(), "tb02".to_string()]);
    assert_eq!(inst.topic, "db_change");
    assert_eq!(c.worker_count(), DEFAULT_WORKERS);
    assert_eq!(DEFAULT_WORKERS, 7);
    assert!(!c.reads_from_start());
    let mut other = c.clone();
    other.workers = 3;
    other.from_start = Some(true);
    assert_eq!(other.worker_count(), 3);
    assert!(other.reads_from_start());
    other.from_start = None;
    assert!(!other.reads_from_start());
}

#[test]
fn queue_settings() {
    let k = KafkaConfig { brokers: "10.0.0.1:9092".to_string(), queue_buffering_max: 333 };
    let settings = kafka_settings(&k).unwrap();
    assert_eq!(
        settings,
        vec![
            ("bootstrap.servers".to_string(), "10.0.0.1:9092".to_string()),
            ("message.timeout.ms".to_string(), "5000".to_string()),
            ("queue.buffering.max.ms".to_string(), "333".to_string()),
        ]
    );
    let none = KafkaConfig { brokers: String::new(), queue_buffering_max: 1 };
    assert_eq!(kafka_settings(&none), None);
    let r = RedisConfig { ip: "127.0.0.1".to_string(), port: 6379 };
    assert_eq!(redis_url(&r), "redis://127.0.0.1:6379");
}

fn message(topic: &str) -> QueueMessage {
    QueueMessage { topic: topic.to_string(), payload: "{}".to_string(), pos: 5 }
}

#[test]
fn channels_by_name() {
    let mut q: MessageQueues<u32> = MessageQueues::new();
    assert!(q.push(&"a".to_string(), message("t")).is_none());
    q.register_tx(&"a".to_string(), 1);
    q.register_tx(&"b".to_string(), 2);
    q.register_tx(&"a".to_string(), 3);
    assert_eq!(q.chanels.len(), 2);
    let (tx, m) = q.push(&"a".to_string(), message("t")).unwrap();
    assert_eq!((*tx, m.topic.as_str(), m.pos), (3, "t", 5));
    assert_eq!(q.push(&"b".to_string(), message("u")).map(|r| *r.0), Some(2));
    assert!(q.push(&"c".to_string(), message("t")).is_none());
}

#[test]
fn numbers_in_text() {
    assert_eq!(parse_u32(b"0"), Some(0));
    assert_eq!(parse_u32(b"154"), Some(154));
    assert_eq!(parse_u32(b"+154"), Some(154));
    assert_eq!(parse_u32(b"00012"), Some(12));
    assert_eq!(parse_u32(b"4294967295"), Some(u32::MAX));
    assert_eq!(parse_u32(b"4294967296"), None);
    assert_eq!(parse_u32(b"99999999999999999999999"), None);
    assert_eq!(parse_u32(b""), None);
    assert_eq!(parse_u32(b"+"), None);
    assert_eq!(parse_u32(b"-1"), None);
    assert_eq!(parse_u32(b"12a"), None);
    assert_eq!(parse_u32(b" 12"), None);
    for text in ["0", "7", "+7", "4294967295", "4294967296", "", "+", "1x", "++1"] {
        assert_eq!(parse_u32(text.as_bytes()), text.parse::<u32>().ok(), "{:?}", text);
    }
}

fn row(file: &[u8], pos: &[u8]) -> TextResult {
    TextResult { columns: vec![file.to_vec(), pos.to_vec(), vec![], vec![]] }
}

fn status(rows: Vec<TextResult>) -> TextResultSet {
    TextResultSet { column_count: VLenInt::new(4), col_defs: vec![], rows }
}

#[test]
fn start_position() {
    let rd = status(vec![row(b"mysql-000001", b"154"), row(b"mysql-000007", b"9001")]);
    let mut mng = PositionMng::new();
    assert_eq!(check_valid_pos(&mng, &rd, false), Some(("mysql-000007".to_string(), 9001)));
    assert_eq!(check_valid_pos(&mng, &rd, true), Some(("mysql-000001".to_string(), 4)));
    mng.update(&"mysql-000003".to_string(), 77);
    assert_eq!(check_valid_pos(&mng, &rd, false), Some(("mysql-000003".to_string(), 77)));
    assert_eq!(check_valid_pos(&mng, &rd, true), Some(("mysql-000001".to_string(), 4)));
    let empty = status(vec![]);
    assert_eq!(check_valid_pos(&mng, &empty, false), Some(("mysql-000003".to_string(), 77)));
    assert_eq!(check_valid_pos(&mng, &empty, true), None);
    assert_eq!(check_valid_pos(&PositionMng::new(), &empty, false), None);
    let bad = status(vec![row(b"mysql-000001", b"x")]);
    assert_eq!(check_valid_pos(&PositionMng::new(), &bad, false), None);
    assert_eq!(check_valid_pos(&PositionMng::new(), &bad, true), None);
    assert_eq!(read_from_row(&row(&[0xff], b"1")), None);
    assert_eq!(read_from_row(&TextResult { columns: vec![b"f".to_vec()] }), None);
    assert_eq!(read_from_row(&row(b"f", b"12")), Some(("f".to_string(), 12)));
}

#[test]
fn offset_alone() {
    let mut mng = PositionMng::new();
    mng.update(&"mysql-000003".to_string(), 77);
    let saved = update_pos(&mut mng, 1234);
    assert_eq!((mng.binlog.as_str(), mng.position, mng.loaded), ("mysql-000003", 1234, true));
    assert_eq!((saved.binlog.as_str(), saved.position), ("mysql-000003", 1234));
    let mut fresh = PositionMng::new();
    update_pos(&mut fresh, 9);
    assert_eq!((fresh.binlog.as_str(), fresh.position, fresh.loaded), ("", 9, false));
    let r = fresh.record(42);
    assert_eq!((r.binlog.as_str(), r.position, r.saving_ts), ("", 9, 42));
}

#[test]
fn byte_counts() {
    let mut s = Statistics::new();
    assert_eq!((s.all_bytes, s.check_bytes, s.last_checkpoint), (0, 0, 0));
    assert_eq!(s.feed_bytes_at(100, 1, 1000), None);
    assert_eq!((s.all_bytes, s.check_bytes, s.last_checkpoint), (1000, 0, 100));
    assert_eq!(s.feed_bytes_at(104, 2, 500), None);
    assert_eq!((s.all_bytes, s.last_checkpoint), (1500, 100));
    assert_eq!(
        s.feed_bytes_at(105, 3, 500),
        Some(Checkpoint { seq_idx: 3, all_bytes: 2000, byte_rate: 400 })
    );
    assert_eq!((s.all_bytes, s.check_bytes, s.last_checkpoint), (2000, 2000, 105));
    assert_eq!(s.feed_bytes_at(90, 4, 10), None);
    assert_eq!(
        s.feed_bytes_at(115, 5, 90),
        Some(Checkpoint { seq_idx: 5, all_bytes: 2100, byte_rate: 10 })
    );
    let mut saturated = Statistics { all_bytes: u128::MAX - 1, check_bytes: 0, last_checkpoint: 1 };
    saturated.feed_bytes_at(2, 0, 5);
    assert_eq!(saturated.all_bytes, u128::MAX);
    let mut live = Statistics::new();
    assert_eq!(live.feed_bytes(0, 10), None);
    assert_eq!(live.all_bytes, 10);
    assert!(live.last_checkpoint > 0);
}
