//! The count of the bytes read from the binary log.

use vstd::prelude::*;
use crate::executor::current_ts;

verus! {

/// The bytes read in all, the bytes read up to the last report, and the
/// time of the last report in seconds.
pub struct Statistics {
    pub all_bytes: u128,
    pub check_bytes: u128,
    pub last_checkpoint: u64,
}

/// What a report says: the sequence index reached, the bytes read in all,
/// and the bytes read in each second since the report before.
#[derive(Debug, Clone, Copy, PartialEq, Eq)]
pub struct Checkpoint {
    pub seq_idx: u64,
    pub all_bytes: u128,
    pub byte_rate: u128,
}

/// The sum of two counts, held at the largest number where it does not
/// fit.
pub open spec fn capped_sum(a: u128, b: nat) -> u128 {
    if a + b <= u128::MAX {
        (a + b) as u128
    } else {
        u128::MAX
    }
}

/// The bytes read in each second between two reports: those read since
/// the first of them, none where the count went back, by the seconds
/// between them.
pub open spec fn byte_rate_of(all: u128, check: u128, from: u64, to: u64) -> int {
    if all >= check {
        (all - check) / (to - from)
    } else {
        0
    }
}

impl Statistics {
    /// Nothing counted yet.
    pub fn new() -> (s: Statistics)
        ensures
            s.all_bytes == 0,
            s.check_bytes == 0,
            s.last_checkpoint == 0,
    {
        Statistics { all_bytes: 0, check_bytes: 0, last_checkpoint: 0 }
    }

    /// Whether time `ts` calls for a report: one was started, and five
    /// seconds or more have passed since.
    pub open spec fn due(&self, ts: u64) -> bool {
        self.last_checkpoint > 0 && ts >= self.last_checkpoint && ts - self.last_checkpoint >= 5
    }

    /// Counts `bytes_count` bytes read at time `ts`, in seconds. The first
    /// call starts the clock of the reports. A report is due when five
    /// seconds or more have passed since the last one: it is handed back,
    /// and what it counted is set aside.
    pub fn feed_bytes_at(&mut self, ts: u64, seq_idx: u64, bytes_count: usize) -> (r: Option<
        Checkpoint,
    >)
        ensures
            final(self).all_bytes == capped_sum(old(self).all_bytes, bytes_count as nat),
            r is Some <==> old(self).due(ts),
            r is Some ==> {
                &&& r.unwrap().seq_idx == seq_idx
                &&& r.unwrap().all_bytes == final(self).all_bytes
                &&& r.unwrap().byte_rate == byte_rate_of(
                    final(self).all_bytes,
                    old(self).check_bytes,
                    old(self).last_checkpoint,
                    ts,
                )
                &&& final(self).check_bytes == final(self).all_bytes
                &&& final(self).last_checkpoint == ts
            },
            r is None ==> {
                &&& final(self).check_bytes == old(self).check_bytes
                &&& final(self).last_checkpoint == if old(self).last_checkpoint > 0 {
                    old(self).last_checkpoint
                } else {
                    ts
                }
            },
    {
        let added = bytes_count as u128;
        self.all_bytes = if self.all_bytes <= u128::MAX - added {
            self.all_bytes + added
        } else {
            u128::MAX
        };
        if self.last_checkpoint > 0 {
            if ts >= self.last_checkpoint && ts - self.last_checkpoint >= 5 {
                let rest_bytes = if self.all_bytes >= self.check_bytes {
                    self.all_bytes - self.check_bytes
                } else {
                    0
                };
                let time_used = ts - self.last_checkpoint;
                let byte_rate = rest_bytes / (time_used as u128);
                self.check_bytes = self.all_bytes;
                self.last_checkpoint = ts;
                return Some(Checkpoint { seq_idx, all_bytes: self.all_bytes, byte_rate });
            }
            None
        } else {
            self.last_checkpoint = ts;
            None
        }
    }

    /// Counts `bytes_count` bytes read now, by the clock of the system:
    /// see [`Statistics::feed_bytes_at`].
    pub fn feed_bytes(&mut self, seq_idx: u64, bytes_count: usize) -> (r: Option<Checkpoint>)
        ensures
            final(self).all_bytes == capped_sum(old(self).all_bytes, bytes_count as nat),
            r is Some ==> old(self).last_checkpoint > 0 && r.unwrap().seq_idx == seq_idx
                && r.unwrap().all_bytes == final(self).all_bytes && final(self).check_bytes
                == final(self).all_bytes,
            r is None ==> final(self).check_bytes == old(self).check_bytes,
    {
        let ts = current_ts() / 1000;
        self.feed_bytes_at(ts, seq_idx, bytes_count)
    }
}

} // verus!
