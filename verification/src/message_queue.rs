//! The queues that records are published to: the messages, the channels
//! to the tasks that send them, and the settings of the clients.

use vstd::prelude::*;
use vstd::string::*;
use crate::config::{KafkaConfig, RedisConfig};
use crate::text::{decimal_text, push_decimal};

verus! {

/// A record on its way to a queue.
#[derive(Debug, Clone)]
pub struct QueueMessage {
    pub topic: String,
    pub payload: String,
    /// The position in the binary log after the event of the record.
    pub pos: u32,
}

/// The channels to the tasks that publish, by the name of the queue. No
/// name stands twice.
#[derive(Debug, Clone)]
pub struct MessageQueues<T> {
    pub chanels: Vec<(String, T)>,
}

/// The place of the queue named `name` among the channels, or the number
/// of channels where there is none.
pub open spec fn place_of<T>(chanels: Seq<(String, T)>, name: Seq<char>) -> int
    decreases chanels.len(),
{
    if chanels.len() == 0 {
        0
    } else if chanels[0].0@ == name {
        0
    } else {
        1 + place_of(chanels.skip(1), name)
    }
}

/// `place_of` is the first place that holds the name.
pub proof fn lemma_place_of<T>(chanels: Seq<(String, T)>, name: Seq<char>)
    ensures
        0 <= place_of(chanels, name) <= chanels.len(),
        forall|j: int| 0 <= j < place_of(chanels, name) ==> chanels[j].0@ != name,
        place_of(chanels, name) < chanels.len() ==> chanels[place_of(chanels, name)].0@ == name,
    decreases chanels.len(),
{
    if chanels.len() > 0 && chanels[0].0@ != name {
        lemma_place_of(chanels.skip(1), name);
        let k = place_of(chanels.skip(1), name);
        assert forall|j: int| 0 <= j < place_of(chanels, name) implies chanels[j].0@ != name by {
            if j > 0 {
                assert(chanels.skip(1)[j - 1] == chanels[j]);
            }
        }
        if k < chanels.skip(1).len() {
            assert(chanels.skip(1)[k] == chanels[k + 1]);
        }
    }
}

impl<T> MessageQueues<T> {
    /// Whether no name stands twice.
    pub open spec fn wf(&self) -> bool {
        forall|i: int, j: int|
            0 <= i < j < self.chanels@.len() ==> self.chanels@[i].0@ != self.chanels@[j].0@
    }

    /// The channel of the queue named `name`, where one is registered.
    pub open spec fn channel_of(&self, name: Seq<char>) -> Option<T> {
        let k = place_of(self.chanels@, name);
        if k < self.chanels@.len() {
            Some(self.chanels@[k].1)
        } else {
            None
        }
    }

    /// No channel yet.
    pub fn new() -> (q: MessageQueues<T>)
        ensures
            q.wf(),
            q.chanels@.len() == 0,
    {
        MessageQueues { chanels: Vec::new() }
    }

    fn find(&self, chn: &String) -> (k: usize)
        ensures
            k == place_of(self.chanels@, chn@),
            k <= self.chanels@.len(),
    {
        let mut k: usize = 0;
        assert(self.chanels@.skip(0) =~= self.chanels@);
        while k < self.chanels.len() && !(self.chanels[k].0 == *chn)
            invariant
                k <= self.chanels@.len(),
                place_of(self.chanels@, chn@) == k + place_of(
                    self.chanels@.skip(k as int),
                    chn@,
                ),
            decreases self.chanels@.len() - k,
        {
            proof {
                let s = self.chanels@.skip(k as int);
                assert(s[0] == self.chanels@[k as int]);
                assert(s.skip(1) =~= self.chanels@.skip(k + 1));
            }
            k = k + 1;
        }
        proof {
            let s = self.chanels@.skip(k as int);
            if k < self.chanels@.len() {
                assert(s[0] == self.chanels@[k as int]);
            }
        }
        k
    }

    /// Sets the channel of the queue named `chn`: it takes the place of
    /// the channel that the name had, or comes last where the name is new.
    /// The other queues keep theirs.
    pub fn register_tx(&mut self, chn: &String, tx: T)
        ensures
            old(self).wf() ==> final(self).wf(),
            final(self).channel_of(chn@) == Some(tx),
            forall|name: Seq<char>|
                name != chn@ ==> final(self).channel_of(name) == old(self).channel_of(name),
            final(self).chanels@.len() == if old(self).channel_of(chn@) is Some {
                old(self).chanels@.len()
            } else {
                old(self).chanels@.len() + 1
            },
    {
        let k = self.find(chn);
        proof {
            lemma_place_of(self.chanels@, chn@);
        }
        if k < self.chanels.len() {
            self.chanels.remove(k);
            self.chanels.insert(k, (chn.clone(), tx));
        } else {
            self.chanels.push((chn.clone(), tx));
        }
        proof {
            let before = old(self).chanels@;
            let after = self.chanels@;
            assert(after[k as int].0@ == chn@);
            assert(after.len() >= before.len());
            assert forall|j: int| 0 <= j < after.len() && j != k implies after[j] == before[j] by {}
            lemma_place_of(after, chn@);
            assert(place_of(after, chn@) == k) by {
                if place_of(after, chn@) < k {
                    assert(before[place_of(after, chn@)].0@ != chn@);
                }
            }
            assert forall|name: Seq<char>|
                name != chn@ implies self.channel_of(name) == old(self).channel_of(name) by {
                lemma_place_of(after, name);
                lemma_place_of(before, name);
                let a = place_of(after, name);
                let b = place_of(before, name);
                if a < b {
                    assert(a != k);
                    assert(before[a].0@ == name);
                } else if b < a {
                    if b < before.len() {
                        assert(before[b].0@ == name);
                        assert(b != k);
                        assert(after[b].0@ == name);
                    }
                }
            }
        }
    }

    /// The channel on which a message for the queue named `chn` is to be
    /// sent, with the message; `None` where the queue has no channel.
    pub fn push(&self, chn: &String, msg: QueueMessage) -> (r: Option<(&T, QueueMessage)>)
        ensures
            match r {
                Some((tx, m)) => self.channel_of(chn@) == Some(*tx) && m == msg,
                None => self.channel_of(chn@) is None,
            },
    {
        let k = self.find(chn);
        if k < self.chanels.len() {
            Some((&self.chanels[k].1, msg))
        } else {
            None
        }
    }
}

/// The settings of the Kafka producer: the brokers, a message timeout of
/// five seconds, and the longest time to buffer, each by its key.
pub open spec fn kafka_settings_of(config: &KafkaConfig) -> Seq<(Seq<char>, Seq<char>)> {
    seq![
        ("bootstrap.servers"@, config.brokers@),
        ("message.timeout.ms"@, "5000"@),
        ("queue.buffering.max.ms"@, decimal_text(config.queue_buffering_max as nat)),
    ]
}

/// The settings as mathematical values.
pub open spec fn settings_view(settings: Seq<(String, String)>) -> Seq<(Seq<char>, Seq<char>)> {
    Seq::new(settings.len(), |k: int| (settings[k].0@, settings[k].1@))
}

/// The settings of the Kafka producer, or `None` where no broker is named.
pub fn kafka_settings(config: &KafkaConfig) -> (r: Option<Vec<(String, String)>>)
    ensures
        match r {
            Some(settings) => config.brokers@.len() > 0 && settings_view(settings@)
                == kafka_settings_of(config),
            None => config.brokers@.len() == 0,
        },
{
    if config.brokers.as_str().is_empty() {
        return None;
    }
    let mut settings: Vec<(String, String)> = Vec::new();
    settings.push((String::from_str("bootstrap.servers"), config.brokers.clone()));
    settings.push((String::from_str("message.timeout.ms"), String::from_str("5000")));
    let mut buffering = String::new();
    push_decimal(&mut buffering, config.queue_buffering_max as u64);
    assert(buffering@ =~= decimal_text(config.queue_buffering_max as nat));
    settings.push((String::from_str("queue.buffering.max.ms"), buffering));
    assert(settings_view(settings@) =~= kafka_settings_of(config));
    Some(settings)
}

/// The address of a Redis server: `redis://`, the host, a colon, the port.
pub fn redis_url(config: &RedisConfig) -> (url: String)
    ensures
        url@ == "redis://"@ + config.ip@ + ":"@ + decimal_text(config.port as nat),
{
    let mut url = String::from_str("redis://");
    url.append(config.ip.as_str());
    url.append(":");
    push_decimal(&mut url, config.port as u64);
    url
}

} // verus!
