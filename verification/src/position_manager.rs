//! The position in the binary log from which the agent goes on after a
//! restart.

use vstd::prelude::*;
use vstd::slice::*;
use vstd::string::*;
use vstd::utf8::*;
use crate::executor::current_ts;
use crate::protocal::{TextResult, TextResultSet};
use crate::session::FIRST_EVENT_OFFSET;
use crate::text::string_from_utf8;

verus! {

/// A position as it is saved: the file, the offset, and the time of
/// saving in milliseconds.
#[derive(Debug, Clone)]
pub struct PositionSet {
    pub binlog: String,
    pub position: u32,
    pub saving_ts: u64,
}

/// The position that the agent has reached, and whether one was set.
#[derive(Debug, Clone)]
pub struct PositionMng {
    pub binlog: String,
    pub position: u32,
    pub loaded: bool,
}

impl PositionMng {
    /// No position yet.
    pub fn new() -> (p: PositionMng)
        ensures
            p.binlog@.len() == 0,
            p.position == 0,
            !p.loaded,
    {
        PositionMng { binlog: String::new(), position: 0, loaded: false }
    }

    /// Sets the file and the offset.
    pub fn update(&mut self, binlog: &String, position: u32)
        ensures
            final(self).binlog@ == binlog@,
            final(self).position == position,
            final(self).loaded,
    {
        self.binlog = binlog.clone();
        self.position = position;
        self.loaded = true;
    }

    /// Sets the offset; the file stays.
    pub fn new_pos(&mut self, position: u32)
        ensures
            final(self).binlog == old(self).binlog,
            final(self).position == position,
            final(self).loaded == old(self).loaded,
    {
        self.position = position;
    }

    /// The position as it is to be saved at time `saving_ts`.
    pub fn record(&self, saving_ts: u64) -> (r: PositionSet)
        ensures
            r.binlog@ == self.binlog@,
            r.position == self.position,
            r.saving_ts == saving_ts,
    {
        PositionSet { binlog: self.binlog.clone(), position: self.position, saving_ts }
    }
}

/// Sets the file and the offset, and hands back the position to save,
/// with the time of the system clock.
pub fn update_name_pos(p: &mut PositionMng, binlog: &String, position: u32) -> (r: PositionSet)
    ensures
        final(p).binlog@ == binlog@,
        final(p).position == position,
        final(p).loaded,
        r.binlog@ == binlog@,
        r.position == position,
        r.saving_ts % 1000 == 0 || r.saving_ts == u64::MAX,
{
    p.update(binlog, position);
    p.record(current_ts())
}

/// Sets the offset, and hands back the position to save, with the time of
/// the system clock.
pub fn update_pos(p: &mut PositionMng, position: u32) -> (r: PositionSet)
    ensures
        final(p).binlog == old(p).binlog,
        final(p).position == position,
        final(p).loaded == old(p).loaded,
        r.binlog@ == old(p).binlog@,
        r.position == position,
        r.saving_ts % 1000 == 0 || r.saving_ts == u64::MAX,
{
    p.new_pos(position);
    p.record(current_ts())
}

/// Whether a byte is a decimal digit.
pub open spec fn is_digit(b: u8) -> bool {
    0x30 <= b <= 0x39
}

/// The number that decimal digits write.
pub open spec fn digits_value(digits: Seq<u8>) -> nat
    decreases digits.len(),
{
    if digits.len() == 0 {
        0
    } else {
        10 * digits_value(digits.drop_last()) + (digits.last() - 0x30) as nat
    }
}

/// Whether every byte is a decimal digit.
pub open spec fn all_digits(digits: Seq<u8>) -> bool {
    forall|k: int| 0 <= k < digits.len() ==> is_digit(#[trigger] digits[k])
}

/// The digits of a number: what follows a plus sign at the head, or all
/// of it.
pub open spec fn number_digits(text: Seq<u8>) -> Seq<u8> {
    if text.len() > 0 && text[0] == 0x2b {
        text.skip(1)
    } else {
        text
    }
}

/// The number that a text writes in 32 bits: one digit at least, digits
/// only, after a plus sign or none, and a value that fits.
pub open spec fn parsed_u32(text: Seq<u8>) -> Option<u32> {
    let digits = number_digits(text);
    if digits.len() > 0 && all_digits(digits) && digits_value(digits) <= u32::MAX {
        Some(digits_value(digits) as u32)
    } else {
        None
    }
}

proof fn lemma_digits_grow(digits: Seq<u8>, k: int)
    requires
        0 <= k <= digits.len(),
        all_digits(digits),
    ensures
        digits_value(digits.take(k)) <= digits_value(digits),
    decreases digits.len() - k,
{
    if k < digits.len() {
        lemma_digits_grow(digits, k + 1);
        let next = digits.take(k + 1);
        assert(next.drop_last() =~= digits.take(k));
        assert(is_digit(digits[k]));
        assert(next.last() == digits[k]);
    } else {
        assert(digits.take(k) =~= digits);
    }
}

/// Reads a number in 32 bits: see [`parsed_u32`].
pub fn parse_u32(text: &[u8]) -> (r: Option<u32>)
    ensures
        r == parsed_u32(text@),
{
    let start: usize = if text.len() > 0 && text[0] == 0x2b {
        1
    } else {
        0
    };
    let digits = slice_subrange(text, start, text.len());
    assert(digits@ =~= number_digits(text@));
    if digits.len() == 0 {
        return None;
    }
    let mut acc: u64 = 0;
    let mut k: usize = 0;
    assert(digits@.take(0) =~= Seq::<u8>::empty());
    while k < digits.len()
        invariant
            k <= digits@.len(),
            digits@ == number_digits(text@),
            acc == digits_value(digits@.take(k as int)),
            acc <= u32::MAX,
            forall|j: int| 0 <= j < k ==> is_digit(#[trigger] digits@[j]),
        decreases digits@.len() - k,
    {
        let b = digits[k];
        if b < 0x30 || b > 0x39 {
            assert(!is_digit(digits@[k as int]));
            return None;
        }
        proof {
            let next = digits@.take(k + 1);
            assert(next.drop_last() =~= digits@.take(k as int));
            assert(next.last() == b);
        }
        acc = acc * 10 + (b - 0x30) as u64;
        if acc > 0xffff_ffff {
            proof {
                if all_digits(digits@) {
                    lemma_digits_grow(digits@, k + 1);
                }
            }
            return None;
        }
        k = k + 1;
    }
    assert(digits@.take(k as int) =~= digits@);
    Some(acc as u32)
}

/// The file and the offset that a row of `SHOW MASTER STATUS` names in
/// its first two columns, or `None` where the row does not name them: it
/// has fewer columns, the file is not UTF-8, or the offset is no number
/// in 32 bits.
pub fn read_from_row(row: &TextResult) -> (r: Option<(String, u32)>)
    ensures
        match r {
            Some((file, pos)) => row.columns@.len() >= 2 && valid_utf8(row.columns@[0]@)
                && encode_utf8(file@) == row.columns@[0]@ && parsed_u32(row.columns@[1]@) == Some(
                pos,
            ),
            None => row.columns@.len() < 2 || !valid_utf8(row.columns@[0]@) || parsed_u32(
                row.columns@[1]@,
            ) is None,
        },
{
    if row.columns.len() < 2 {
        return None;
    }
    let file = match string_from_utf8(row.columns[0].clone()) {
        Some(f) => f,
        None => { return None; },
    };
    match parse_u32(row.columns[1].as_slice()) {
        Some(pos) => Some((file, pos)),
        None => None,
    }
}

/// Where to start reading the binary log, given the rows of
/// `SHOW MASTER STATUS`: at the position that was loaded, unless the log is
/// to be read from its start; from the start, at offset 4 of the file of
/// the first row; and otherwise at the file and the offset of the last
/// row. `None` where the row that is asked for is missing or does not name
/// a position.
pub fn check_valid_pos(p: &PositionMng, rd: &TextResultSet, from_start: bool) -> (r: Option<
    (String, u32),
>)
    ensures
        p.loaded && !from_start ==> r is Some && r.unwrap().0@ == p.binlog@ && r.unwrap().1
            == p.position,
        from_start ==> match r {
            Some((file, pos)) => rd.rows@.len() > 0 && pos == FIRST_EVENT_OFFSET && row_names(
                rd.rows@[0],
                file@,
            ),
            None => rd.rows@.len() == 0 || !row_readable(rd.rows@[0]),
        },
        !p.loaded && !from_start ==> match r {
            Some((file, pos)) => rd.rows@.len() > 0 && row_names(rd.rows@.last(), file@)
                && parsed_u32(rd.rows@.last().columns@[1]@) == Some(pos),
            None => rd.rows@.len() == 0 || !row_readable(rd.rows@.last()),
        },
{
    let record_count = rd.rows.len();
    if from_start {
        if record_count == 0 {
            return None;
        }
        match read_from_row(&rd.rows[0]) {
            Some((file, _)) => Some((file, FIRST_EVENT_OFFSET)),
            None => None,
        }
    } else if p.loaded {
        Some((p.binlog.clone(), p.position))
    } else {
        if record_count == 0 {
            return None;
        }
        read_from_row(&rd.rows[record_count - 1])
    }
}

/// Whether a row of `SHOW MASTER STATUS` names a position.
pub open spec fn row_readable(row: TextResult) -> bool {
    row.columns@.len() >= 2 && valid_utf8(row.columns@[0]@) && parsed_u32(row.columns@[1]@) is Some
}

/// Whether a row of `SHOW MASTER STATUS` names a position in the file
/// `file`.
pub open spec fn row_names(row: TextResult, file: Seq<char>) -> bool {
    row_readable(row) && encode_utf8(file) == row.columns@[0]@
}

} // verus!
