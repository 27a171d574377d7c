//! The settings of the agent, and the patterns that choose the tables to
//! publish.

use vstd::prelude::*;
use vstd::slice::*;
use vstd::string::*;
use vstd::utf8::*;
use crate::text::{bytes_end_with, bytes_eq, bytes_start_with, ends_with, starts_with};

verus! {

/// How to reach Kafka.
#[derive(Debug, Clone)]
pub struct KafkaConfig {
    pub brokers: String,
    pub queue_buffering_max: u16,
}

/// How to reach Redis.
#[derive(Debug, Clone)]
pub struct RedisConfig {
    pub ip: String,
    pub port: u16,
}

/// The settings of one message queue.
#[allow(non_camel_case_types)]
#[derive(Debug, Clone)]
pub enum MqConfig {
    KAFKA(KafkaConfig),
    REDIS(RedisConfig),
}

/// A message queue, by name.
#[derive(Debug, Clone)]
pub struct Mq {
    pub mq_name: String,
    pub mq_cfg: MqConfig,
}

/// What to publish where: the tables of the schemas that fit the patterns,
/// but for those on the black list, go to topic `topic` of queue `mq`.
#[derive(Debug, Clone)]
pub struct Instance {
    pub mq: String,
    pub schemas: String,
    pub tables: String,
    pub black_list: Vec<String>,
    pub topic: String,
}

/// The settings of the agent.
#[derive(Debug, Clone)]
pub struct Config {
    pub db_ip: String,
    pub db_port: u16,
    pub max_packages: u64,
    pub user_name: String,
    pub passwd: String,
    pub workers: u8,
    pub from_start: Option<bool>,
    pub mqs: Vec<Mq>,
    pub instances: Vec<Instance>,
}

/// The number of workers where the settings name none.
pub const DEFAULT_WORKERS: usize = 7;

/// The byte of the wildcard `*`.
pub const STAR: u8 = 0x2a;

/// The index of the first `*`, or the length where there is none.
pub open spec fn star_index(p: Seq<u8>) -> nat
    decreases p.len(),
{
    if p.len() == 0 || p[0] == STAR {
        0
    } else {
        1 + star_index(p.skip(1))
    }
}

/// Whether the pattern holds exactly one `*`.
pub open spec fn one_star(p: Seq<u8>) -> bool {
    star_index(p) < p.len() && star_index(p.skip(star_index(p) as int + 1)) == p.len() - star_index(p)
        - 1
}

/// Whether a name fits a pattern, byte for byte. A pattern that ends in
/// `*` fits the names that begin with what stands before the `*`; else a
/// pattern that begins with `*` fits the names that end with what stands
/// after it; else a pattern with one `*` inside fits the names that begin
/// with what stands before it and end with what stands after it; any other
/// pattern fits the one name that equals it.
pub open spec fn pattern_matches(p: Seq<u8>, name: Seq<u8>) -> bool {
    if p.len() > 0 && p.last() == STAR {
        starts_with(name, p.drop_last())
    } else if p.len() > 0 && p[0] == STAR {
        ends_with(name, p.skip(1))
    } else if one_star(p) {
        starts_with(name, p.take(star_index(p) as int)) && ends_with(
            name,
            p.skip(star_index(p) as int + 1),
        )
    } else {
        name == p
    }
}

fn find_star(p: &[u8], pos: usize) -> (k: usize)
    requires
        pos <= p@.len(),
    ensures
        k == pos + star_index(p@.skip(pos as int)),
        pos <= k <= p@.len(),
{
    let mut k: usize = pos;
    while k < p.len() && p[k] != STAR
        invariant
            pos <= k <= p@.len(),
            pos + star_index(p@.skip(pos as int)) == k + star_index(p@.skip(k as int)),
        decreases p@.len() - k,
    {
        proof {
            let s = p@.skip(k as int);
            assert(s[0] == p@[k as int]);
            assert(s.skip(1) =~= p@.skip(k + 1));
        }
        k = k + 1;
    }
    proof {
        let s = p@.skip(k as int);
        if k < p@.len() {
            assert(s[0] == p@[k as int]);
        }
    }
    k
}

/// Whether `input` fits `pattern`: see [`pattern_matches`].
pub fn match_pattern(pattern: &str, input: &str) -> (b: bool)
    ensures
        b == pattern_matches(pattern.spec_bytes(), input.spec_bytes()),
{
    let p = pattern.as_bytes();
    let name = input.as_bytes();
    let n = p.len();
    if n > 0 && p[n - 1] == STAR {
        let prefix = slice_subrange(p, 0, n - 1);
        assert(prefix@ =~= p@.drop_last());
        bytes_start_with(name, prefix)
    } else if n > 0 && p[0] == STAR {
        let suffix = slice_subrange(p, 1, n);
        assert(suffix@ =~= p@.skip(1));
        bytes_end_with(name, suffix)
    } else {
        let first = find_star(p, 0);
        assert(p@.skip(0) =~= p@);
        if first < n && find_star(p, first + 1) == n {
            let prefix = slice_subrange(p, 0, first);
            let suffix = slice_subrange(p, first + 1, n);
            assert(prefix@ =~= p@.take(first as int));
            assert(suffix@ =~= p@.skip(first + 1));
            bytes_start_with(name, prefix) && bytes_end_with(name, suffix)
        } else {
            bytes_eq(name, p)
        }
    }
}

impl Instance {
    /// Whether some pattern of the black list fits the table.
    pub open spec fn black_listed(&self, table: Seq<u8>) -> bool {
        exists|k: int|
            0 <= k < self.black_list@.len() && pattern_matches(
                encode_utf8(#[trigger] self.black_list@[k]@),
                table,
            )
    }

    /// Whether the instance publishes the table: the schema fits, the
    /// table is not on the black list, and the table fits.
    pub open spec fn wants(&self, db: Seq<u8>, table: Seq<u8>) -> bool {
        pattern_matches(encode_utf8(self.schemas@), db) && !self.black_listed(table)
            && pattern_matches(encode_utf8(self.tables@), table)
    }

    /// The queue and the topic for a table, where the instance publishes
    /// it.
    pub fn check_if_need_a_mq(&self, db: String, table: String) -> (r: Option<(String, String)>)
        ensures
            match r {
                Some((mq, topic)) => self.wants(encode_utf8(db@), encode_utf8(table@)) && mq@
                    == self.mq@ && topic@ == self.topic@,
                None => !self.wants(encode_utf8(db@), encode_utf8(table@)),
            },
    {
        if match_pattern(self.schemas.as_str(), db.as_str()) {
            let mut k: usize = 0;
            while k < self.black_list.len()
                invariant
                    k <= self.black_list@.len(),
                    forall|j: int|
                        0 <= j < k ==> !pattern_matches(
                            encode_utf8(#[trigger] self.black_list@[j]@),
                            encode_utf8(table@),
                        ),
                decreases self.black_list@.len() - k,
            {
                if match_pattern(self.black_list[k].as_str(), table.as_str()) {
                    return None;
                }
                k = k + 1;
            }
            if match_pattern(self.tables.as_str(), table.as_str()) {
                return Some((self.mq.clone(), self.topic.clone()));
            }
        }
        None
    }
}

impl Config {
    /// The number of workers to start: the number that the settings name,
    /// or the default where they name none.
    pub fn worker_count(&self) -> (n: usize)
        ensures
            n == if self.workers > 0 {
                self.workers as usize
            } else {
                DEFAULT_WORKERS
            },
    {
        if self.workers > 0 {
            self.workers as usize
        } else {
            DEFAULT_WORKERS
        }
    }

    /// Whether the binary log is to be read from its start, whatever
    /// position was saved.
    pub fn reads_from_start(&self) -> (b: bool)
        ensures
            b == (self.from_start == Some(true)),
    {
        match self.from_start {
            Some(b) => b,
            None => false,
        }
    }

    /// The settings that a new configuration file starts from: a local
    /// database for the user `canal`, one Kafka queue, and one instance
    /// that publishes the tables `s*` of the schemas `test*` to it.
    pub fn gen_default() -> (c: Config)
        ensures
            c.db_ip@ == "127.0.0.1"@,
            c.db_port == 3306,
            c.max_packages == 4294967295,
            c.user_name@ == "canal"@,
            c.passwd@ == "canal"@,
            c.workers == 0,
            c.from_start == Some(false),
            c.mqs@.len() == 1,
            c.mqs@[0].mq_name@ == "the_kafka"@,
            match c.mqs@[0].mq_cfg {
                MqConfig::KAFKA(k) => k.brokers@ == "127.0.0.1:9092"@ && k.queue_buffering_max
                    == 333,
                MqConfig::REDIS(_) => false,
            },
            c.instances@.len() == 1,
            c.instances@[0].mq@ == "the_kafka"@,
            c.instances@[0].schemas@ == "test*"@,
            c.instances@[0].tables@ == "s*"@,
            c.instances@[0].black_list@.len() == 2,
            c.instances@[0].black_list@[0]@ == "tb01"@,
            c.instances@[0].black_list@[1]@ == "tb02"@,
            c.instances@[0].topic@ == "db_change"@,
    {
        let mut black_list: Vec<String> = Vec::new();
        black_list.push(String::from_str("tb01"));
        black_list.push(String::from_str("tb02"));
        let mut mqs: Vec<Mq> = Vec::new();
        mqs.push(
            Mq {
                mq_name: String::from_str("the_kafka"),
                mq_cfg: MqConfig::KAFKA(
                    KafkaConfig {
                        brokers: String::from_str("127.0.0.1:9092"),
                        queue_buffering_max: 333,
                    },
                ),
            },
        );
        let mut instances: Vec<Instance> = Vec::new();
        instances.push(
            Instance {
                mq: String::from_str("the_kafka"),
                schemas: String::from_str("test*"),
                tables: String::from_str("s*"),
                black_list,
                topic: String::from_str("db_change"),
            },
        );
        Config {
            db_ip: String::from_str("127.0.0.1"),
            db_port: 3306,
            max_packages: 4294967295,
            user_name: String::from_str("canal"),
            passwd: String::from_str("canal"),
            workers: 0,
            from_start: Some(false),
            mqs,
            instances,
        }
    }
}

} // verus!
