//! The binary-log decoder: event framing, table maps, and the values of
//! the rows that write, update and delete events carry.

use vstd::prelude::*;
use vstd::arithmetic::power2::{lemma2_to64, lemma_pow2_strictly_increases, lemma_pow2_unfold, pow2};
use vstd::slice::*;
use vstd::string::*;
use vstd::utf8::*;
use std::collections::HashMap;
use byteorder::BigEndian;
use byteorder::ByteOrder;
use crate::mysql::{
    be_at, be_value, find_nul, fps_micros, fps_width, int_n_width, le_at, le_bytes, le_value,
    lemma_be_value_bound, lemma_le_bytes_3, lemma_le_value_bound, lemma_pow256_values,
    lenenc_size, lenenc_value, nul_index, pow10_small, read_fps, rest_from, signed32, signed64,
    signed_value, take_be_int, take_bytes, take_eof_string, take_int_n, take_lenenc,
    take_var_bytes, var_bytes_body, var_bytes_end, DecodeError, Decoder,
};
use crate::text::{
    decimal_text, digit_char, digit_str, int_text, lossy_text, padded_text, pow10, push_decimal,
    push_int, push_padded, string_of_bytes, text_of,
};
use crate::value::{Value, ValueView};

verus! {

broadcast use vstd::std_specs::hash::group_hash_axioms;

/// Bit `k` of a byte, counted from its most significant bit.
pub open spec fn bit_of(byte: u8, k: u8) -> u8 {
    (byte >> (7 - k) as u8) & 1
}

/// The number written by `count` bits of `input` from bit `start` on, bits
/// counted from the most significant bit of the first byte.
pub open spec fn bits_value(input: Seq<u8>, start: int, count: int) -> nat
    decreases count,
{
    if count <= 0 {
        0
    } else {
        2 * bits_value(input, start, count - 1) + bit_of(
            input[(start + count - 1) / 8],
            ((start + count - 1) % 8) as u8,
        ) as nat
    }
}

/// Reads up to 32 bits as a number.
pub fn read_bits(input: &[u8], start: usize, count: usize) -> (v: u32)
    requires
        count <= 32,
        start + count <= usize::MAX,
        start + count <= 8 * input@.len(),
    ensures
        v == bits_value(input@, start as int, count as int),
{
    let mut acc: u64 = 0;
    let mut i: usize = 0;
    proof {
        lemma2_to64();
    }
    while i < count
        invariant
            i <= count <= 32,
            start + count <= usize::MAX,
            start + count <= 8 * input@.len(),
            acc == bits_value(input@, start as int, i as int),
            acc < pow2(i as nat),
            pow2(32) == 0x1_0000_0000,
        decreases count - i,
    {
        let bit_pos = start + i;
        let byte = input[bit_pos / 8];
        let k: u8 = (bit_pos % 8) as u8;
        let bit = (byte >> (7 - k)) & 1;
        proof {
            assert(bit <= 1) by (bit_vector)
                requires
                    bit == (byte >> (7 - k) as u8) & 1,
            ;
            lemma_pow2_unfold((i + 1) as nat);
            if i + 1 < 32 {
                lemma_pow2_strictly_increases((i + 1) as nat, 32);
            }
        }
        acc = acc * 2 + bit as u64;
        i = i + 1;
    }
    proof {
        if count < 32 {
            lemma_pow2_strictly_increases(count as nat, 32);
        }
    }
    acc as u32
}

/// Half-byte `k` of `input`, the high half of each byte first.
pub open spec fn nibble(input: Seq<u8>, k: int) -> u8 {
    if k % 2 == 0 {
        input[k / 2] >> 4
    } else {
        input[k / 2] & 0x0f
    }
}

/// The number of half-bytes that `parse_bcd` reads: as many as are asked
/// for, or all there are where that is fewer.
pub open spec fn bcd_count(len: nat, digits: nat) -> nat {
    if digits <= 2 * len {
        digits
    } else {
        2 * len
    }
}

/// The digits that the first `digits` half-bytes of `input` hold, or those
/// of all its half-bytes where there are fewer.
pub fn parse_bcd(input: &[u8], digits: usize) -> (s: String)
    requires
        forall|k: int| 0 <= k < bcd_count(input@.len(), digits as nat) ==> nibble(input@, k) < 10,
    ensures
        s@ == Seq::new(
            bcd_count(input@.len(), digits as nat),
            |k: int| digit_char(nibble(input@, k) as int),
        ),
{
    let mut out = String::new();
    let mut k: usize = 0;
    while k < digits && k / 2 < input.len()
        invariant
            k <= bcd_count(input@.len(), digits as nat),
            forall|j: int|
                0 <= j < bcd_count(input@.len(), digits as nat) ==> nibble(input@, j) < 10,
            out@ == Seq::new(k as nat, |j: int| digit_char(nibble(input@, j) as int)),
        decreases digits - k,
    {
        let byte = input[k / 2];
        let n: u8 = if k % 2 == 0 {
            byte >> 4
        } else {
            byte & 0x0f
        };
        assert(n == nibble(input@, k as int));
        out.append(digit_str(n));
        k = k + 1;
        assert(out@ =~= Seq::new(k as nat, |j: int| digit_char(nibble(input@, j) as int)));
    }
    out
}

/// The kind of a column, as a table map names it.
#[allow(non_camel_case_types)]
#[derive(Debug, Clone, Copy, PartialEq, Eq, Structural)]
pub enum ColumnType {
    TINYINT,
    SMALLINT,
    INT,
    FLOAT,
    DOUBLE,
    BIGINT,
    MEDIUMINT,
    DECIMAL,
    DATE,
    TIME,
    DATETIME,
    YEAR,
    TIMESTAMP,
    CHAR,
    VARCHAR,
    TEXT,
    NOT_MATCH,
}

/// The kind that a type code of a table map stands for.
pub open spec fn column_type_of(code: u8) -> ColumnType {
    if code == 1 {
        ColumnType::TINYINT
    } else if code == 2 {
        ColumnType::SMALLINT
    } else if code == 3 {
        ColumnType::INT
    } else if code == 4 {
        ColumnType::FLOAT
    } else if code == 5 {
        ColumnType::DOUBLE
    } else if code == 8 {
        ColumnType::BIGINT
    } else if code == 9 {
        ColumnType::MEDIUMINT
    } else if code == 246 {
        ColumnType::DECIMAL
    } else if code == 10 {
        ColumnType::DATE
    } else if code == 19 {
        ColumnType::TIME
    } else if code == 18 {
        ColumnType::DATETIME
    } else if code == 13 {
        ColumnType::YEAR
    } else if code == 17 {
        ColumnType::TIMESTAMP
    } else if code == 254 {
        ColumnType::CHAR
    } else if code == 15 {
        ColumnType::VARCHAR
    } else if code == 252 {
        ColumnType::TEXT
    } else {
        ColumnType::NOT_MATCH
    }
}

impl From<u8> for ColumnType {
    fn from(value: u8) -> (tp: ColumnType) {
        ColumnType::from_code(value)
    }
}

impl vstd::std_specs::convert::FromSpecImpl<u8> for ColumnType {
    open spec fn obeys_from_spec() -> bool {
        true
    }

    open spec fn from_spec(value: u8) -> ColumnType {
        column_type_of(value)
    }
}

impl ColumnType {
    /// The kind that a type code stands for; codes that name no supported
    /// kind give `NOT_MATCH`.
    pub fn from_code(value: u8) -> (tp: ColumnType)
        ensures
            tp == column_type_of(value),
    {
        match value {
            1 => ColumnType::TINYINT,
            2 => ColumnType::SMALLINT,
            3 => ColumnType::INT,
            4 => ColumnType::FLOAT,
            5 => ColumnType::DOUBLE,
            8 => ColumnType::BIGINT,
            9 => ColumnType::MEDIUMINT,
            246 => ColumnType::DECIMAL,
            10 => ColumnType::DATE,
            19 => ColumnType::TIME,
            18 => ColumnType::DATETIME,
            13 => ColumnType::YEAR,
            17 => ColumnType::TIMESTAMP,
            254 => ColumnType::CHAR,
            15 => ColumnType::VARCHAR,
            252 => ColumnType::TEXT,
            _ => ColumnType::NOT_MATCH,
        }
    }
}

/// What the metadata block of a table map says of one column; each entry is
/// set for the kinds that carry it.
#[derive(Debug, Clone, Copy, PartialEq, Eq)]
pub struct ColMeta {
    /// The longest value in bytes, of CHAR and VARCHAR.
    pub max_length: Option<u16>,
    /// The size, of FLOAT and DOUBLE.
    pub size: Option<u8>,
    /// The digits of the fraction of a second, of TIME, DATETIME and
    /// TIMESTAMP.
    pub fsp: Option<u8>,
    /// The bytes that hold the length, of TEXT and BLOB.
    pub length_size: Option<u8>,
    /// The digits in all, of DECIMAL.
    pub precision: Option<u8>,
    /// The digits after the point, of DECIMAL.
    pub decimals: Option<u8>,
    /// The type behind an ENUM or a SET; no kind sets it.
    pub real_type: Option<u8>,
}

/// The metadata with no entry set.
pub open spec fn empty_meta() -> ColMeta {
    ColMeta {
        max_length: None,
        size: None,
        fsp: None,
        length_size: None,
        precision: None,
        decimals: None,
        real_type: None,
    }
}

impl ColMeta {
    /// The metadata with no entry set.
    pub fn new() -> (m: ColMeta)
        ensures
            m == empty_meta(),
    {
        ColMeta {
            max_length: None,
            size: None,
            fsp: None,
            length_size: None,
            precision: None,
            decimals: None,
            real_type: None,
        }
    }
}

/// The bytes that hold `digits` decimal digits left over from the groups of
/// nine, for `digits` from 0 to 8.
pub open spec fn lead_bytes(digits: int) -> nat {
    if digits <= 0 {
        0
    } else if digits <= 2 {
        1
    } else if digits <= 4 {
        2
    } else if digits <= 6 {
        3
    } else {
        4
    }
}

/// The bytes that a decimal of the given precision and scale takes, or
/// `None` where no such decimal exists: the scale exceeds the precision, or
/// there is no digit at all.
pub open spec fn decimal_size(precision: u8, scale: u8) -> Option<nat> {
    if scale > precision || precision == 0 {
        None
    } else {
        Some(
            (4 * ((precision - scale) / 9) + 4 * (scale / 9) + lead_bytes((precision - scale) % 9)
                + lead_bytes((scale % 9) as int)) as nat,
        )
    }
}

/// Whether the stored decimal is negative: the high bit of its first byte
/// is clear.
pub open spec fn decimal_is_negative(raw: Seq<u8>) -> bool {
    raw[0] & 0x80 == 0
}

/// Byte `k` of the digits of a stored decimal: the high bit of the first
/// byte is flipped, and every byte of a negative number is inverted.
pub open spec fn decimal_digit_byte(raw: Seq<u8>, k: int) -> u8 {
    let flipped = if k == 0 {
        raw[0] ^ 0x80
    } else {
        raw[k]
    };
    if decimal_is_negative(raw) {
        flipped ^ 0xff
    } else {
        flipped
    }
}

/// The digits of a stored decimal, as bytes.
pub open spec fn decimal_digits(raw: Seq<u8>) -> Seq<u8> {
    Seq::new(raw.len(), |k: int| decimal_digit_byte(raw, k))
}

/// `count` groups of four bytes from `start` on, each as a number.
pub open spec fn decimal_groups(d: Seq<u8>, start: int, count: int) -> Seq<nat> {
    Seq::new(count as nat, |g: int| be_value(d.subrange(start + 4 * g, start + 4 * g + 4)))
}

/// The groups written one after the other, each with nine digits.
pub open spec fn padded_groups(groups: Seq<nat>) -> Seq<char>
    decreases groups.len(),
{
    if groups.len() == 0 {
        Seq::<char>::empty()
    } else {
        padded_groups(groups.drop_last()) + padded_text(groups.last(), 9)
    }
}

/// The integral part that the groups write: groups of zero at the head are
/// passed over, the first group that is not zero is written as it is, each
/// group after it with nine digits; where every group is zero the text is
/// `0`.
pub open spec fn groups_text(groups: Seq<nat>) -> Seq<char>
    decreases groups.len(),
{
    if groups.len() == 0 {
        seq!['0']
    } else if groups[0] == 0 {
        groups_text(groups.skip(1))
    } else {
        decimal_text(groups[0]) + padded_groups(groups.skip(1))
    }
}

/// The groups of the integral part: the leftover digits in the first `lead`
/// bytes (zero where there are none), then `groups` groups of nine.
pub open spec fn intg_groups(d: Seq<u8>, lead: int, groups: int) -> Seq<nat> {
    seq![be_value(d.take(lead))] + decimal_groups(d, lead, groups)
}

/// The digits after the point, from byte `start` on: `groups` groups of
/// nine, then `tail_digits` leftover digits in their own width.
pub open spec fn frac_text(d: Seq<u8>, start: int, groups: int, tail_digits: int) -> Seq<char> {
    let tail = start + 4 * groups;
    padded_groups(decimal_groups(d, start, groups)) + (if tail_digits > 0 {
        padded_text(be_value(d.subrange(tail, tail + lead_bytes(tail_digits))), tail_digits as nat)
    } else {
        Seq::<char>::empty()
    })
}

/// The text of a stored decimal: a minus sign where it is negative, the
/// integral part, and, where the scale is not zero, a point and the digits
/// after it.
pub open spec fn decimal_text_of(raw: Seq<u8>, precision: u8, scale: u8) -> Seq<char> {
    let d = decimal_digits(raw);
    let lead = lead_bytes(((precision - scale) % 9) as int) as int;
    let groups = ((precision - scale) / 9) as int;
    (if decimal_is_negative(raw) {
        seq!['-']
    } else {
        Seq::<char>::empty()
    }) + groups_text(intg_groups(d, lead, groups)) + (if scale > 0 {
        seq!['.'] + frac_text(d, lead + 4 * groups, (scale / 9) as int, (scale % 9) as int)
    } else {
        Seq::<char>::empty()
    })
}

/// `BigEndian::read_uint`: the first `nbytes` bytes as a big-endian number.
#[verifier::external_body]
fn be_uint(buf: &[u8], nbytes: usize) -> (v: u64)
    requires
        1 <= nbytes <= 8,
        nbytes <= buf@.len(),
    ensures
        v == be_value(buf@.take(nbytes as int)),
{
    BigEndian::read_uint(buf, nbytes)
}

fn lead_bytes_of(digits: u8) -> (n: usize)
    requires
        digits < 9,
    ensures
        n == lead_bytes(digits as int),
{
    if digits == 0 {
        0
    } else if digits <= 2 {
        1
    } else if digits <= 4 {
        2
    } else if digits <= 6 {
        3
    } else {
        4
    }
}

fn group_at(d: &Vec<u8>, at: usize, width: usize) -> (v: u64)
    requires
        1 <= width <= 4,
        at + width <= d@.len(),
    ensures
        v == be_value(d@.subrange(at as int, at + width)),
        v < 0x1_0000_0000,
{
    let n = d.len();
    let part = slice_subrange(d.as_slice(), at, at + width);
    proof {
        assert(part@.take(width as int) =~= d@.subrange(at as int, at + width));
        lemma_be_value_bound(d@.subrange(at as int, at + width));
        lemma_pow256_values();
    }
    be_uint(part, width)
}

fn push_groups(out: &mut String, d: &Vec<u8>, start: usize, count: usize)
    requires
        start + 4 * count <= d@.len(),
    ensures
        final(out)@ == old(out)@ + padded_groups(decimal_groups(d@, start as int, count as int)),
{
    let n = d.len();
    let mut g: usize = 0;
    assert(out@ =~= old(out)@ + padded_groups(decimal_groups(d@, start as int, 0)));
    while g < count
        invariant
            g <= count,
            start + 4 * count <= d@.len() <= usize::MAX,
            out@ == old(out)@ + padded_groups(decimal_groups(d@, start as int, g as int)),
        decreases count - g,
    {
        let v = group_at(d, start + 4 * g, 4);
        push_padded(out, v, 9);
        proof {
            let next = decimal_groups(d@, start as int, g + 1);
            assert(next.drop_last() =~= decimal_groups(d@, start as int, g as int));
            assert(next.last() == v);
        }
        g = g + 1;
    }
}

fn push_intg(out: &mut String, d: &Vec<u8>, lead: usize, groups: usize)
    requires
        lead <= 4,
        lead + 4 * groups <= d@.len(),
    ensures
        final(out)@ == old(out)@ + groups_text(intg_groups(d@, lead as int, groups as int)),
{
    let n = d.len();
    let ghost all = intg_groups(d@, lead as int, groups as int);
    let ghost tail = decimal_groups(d@, lead as int, groups as int);
    let first: u64 = if lead > 0 {
        group_at(d, 0, lead)
    } else {
        0
    };
    proof {
        assert(d@.take(lead as int) =~= d@.subrange(0, lead as int));
        if lead == 0 {
            assert(be_value(d@.take(0)) == 0);
        }
        assert(all[0] == first);
        assert(all.skip(1) =~= tail);
        assert(tail.skip(0) =~= tail);
    }
    let mut empty = true;
    if first > 0 {
        push_decimal(out, first);
        empty = false;
        assert(out@ + padded_groups(tail.skip(0)) =~= old(out)@ + groups_text(all));
    }
    let mut g: usize = 0;
    while g < groups
        invariant
            g <= groups,
            lead + 4 * groups <= d@.len() <= usize::MAX,
            tail == decimal_groups(d@, lead as int, groups as int),
            empty ==> out@ == old(out)@ && groups_text(all) == groups_text(tail.skip(g as int)),
            !empty ==> out@ + padded_groups(tail.skip(g as int)) == old(out)@ + groups_text(all),
        decreases groups - g,
    {
        let v = group_at(d, lead + 4 * g, 4);
        let ghost before = out@;
        proof {
            let rest = tail.skip(g as int);
            assert(rest[0] == v);
            assert(rest.skip(1) =~= tail.skip(g + 1));
            lemma_padded_groups_front(rest);
        }
        if empty {
            if v > 0 {
                push_decimal(out, v);
                empty = false;
                assert(out@ + padded_groups(tail.skip(g + 1)) =~= old(out)@ + (decimal_text(
                    v as nat,
                ) + padded_groups(tail.skip(g + 1))));
            }
        } else {
            push_padded(out, v, 9);
            assert(out@ + padded_groups(tail.skip(g + 1)) =~= before + (padded_text(v as nat, 9)
                + padded_groups(tail.skip(g + 1))));
        }
        g = g + 1;
    }
    proof {
        assert(tail.skip(groups as int) =~= Seq::<nat>::empty());
    }
    if empty {
        proof {
            reveal_strlit("0");
        }
        out.append("0");
    } else {
        assert(out@ =~= out@ + padded_groups(tail.skip(groups as int)));
    }
}

fn push_frac(out: &mut String, d: &Vec<u8>, start: usize, groups: usize, tail_digits: u8)
    requires
        tail_digits < 9,
        start + 4 * groups + lead_bytes(tail_digits as int) <= d@.len(),
    ensures
        final(out)@ == old(out)@ + frac_text(
            d@,
            start as int,
            groups as int,
            tail_digits as int,
        ),
{
    let n = d.len();
    push_groups(out, d, start, groups);
    if tail_digits > 0 {
        let width = lead_bytes_of(tail_digits);
        let v = group_at(d, start + 4 * groups, width);
        push_padded(out, v, tail_digits as usize);
    }
    assert(out@ =~= old(out)@ + frac_text(d@, start as int, groups as int, tail_digits as int));
}

fn decimal_unmask(raw: &[u8]) -> (d: Vec<u8>)
    requires
        raw@.len() > 0,
    ensures
        d@ == decimal_digits(raw@),
{
    let negative = (raw[0] & 0x80) == 0;
    let mut d: Vec<u8> = Vec::new();
    let mut k: usize = 0;
    while k < raw.len()
        invariant
            k <= raw@.len(),
            raw@.len() > 0,
            negative == decimal_is_negative(raw@),
            d@.len() == k,
            forall|j: int| 0 <= j < k ==> d@[j] == decimal_digit_byte(raw@, j),
        decreases raw@.len() - k,
    {
        let flipped = if k == 0 {
            raw[0] ^ 0x80
        } else {
            raw[k]
        };
        let byte = if negative {
            flipped ^ 0xff
        } else {
            flipped
        };
        d.push(byte);
        k = k + 1;
    }
    assert(d@ =~= decimal_digits(raw@));
    d
}

/// A decimal, as the text that writes it.
pub struct DecimalVal {
    pub val: String,
}

impl DecimalVal {
    /// Reads a decimal of the given precision and scale. A precision of
    /// zero and a scale beyond the precision are refused with `Fail`.
    pub fn decode(input: &[u8], precision: u8, scale: u8) -> (r: Result<
        (&[u8], DecimalVal),
        DecodeError,
    >)
        ensures
            match r {
                Ok((rest, dec)) => decimal_size(precision, scale) is Some && input@.len()
                    >= decimal_size(precision, scale).unwrap() && rest@ == input@.skip(
                    decimal_size(precision, scale).unwrap() as int,
                ) && dec.val@ == decimal_text_of(
                    input@.take(decimal_size(precision, scale).unwrap() as int),
                    precision,
                    scale,
                ),
                Err(e) => if decimal_size(precision, scale) is None {
                    e == DecodeError::Fail
                } else {
                    input@.len() < decimal_size(precision, scale).unwrap() && e
                        == DecodeError::Eof
                },
            },
    {
        if scale > precision || precision == 0 {
            return Err(DecodeError::Fail);
        }
        let integral = precision - scale;
        let groups_intg: usize = (integral / 9) as usize;
        let groups_frac: usize = (scale / 9) as usize;
        let lead_intg = lead_bytes_of(integral % 9);
        let lead_frac = lead_bytes_of(scale % 9);
        let total: usize = 4 * groups_intg + 4 * groups_frac + lead_intg + lead_frac;
        if input.len() < total {
            return Err(DecodeError::Eof);
        }
        let raw = slice_subrange(input, 0, total);
        assert(raw@ =~= input@.take(total as int));
        let negative = (raw[0] & 0x80) == 0;
        let d = decimal_unmask(raw);
        let mut out = String::new();
        if negative {
            proof {
                reveal_strlit("-");
            }
            out.append("-");
        }
        push_intg(&mut out, &d, lead_intg, groups_intg);
        if scale > 0 {
            proof {
                reveal_strlit(".");
            }
            out.append(".");
            push_frac(&mut out, &d, lead_intg + 4 * groups_intg, groups_frac, scale % 9);
        }
        assert(out@ =~= decimal_text_of(raw@, precision, scale));
        Ok((rest_from(input, total), DecimalVal { val: out }))
    }
}

/// Written from the front: the first group, then the others.
proof fn lemma_padded_groups_front(groups: Seq<nat>)
    ensures
        groups.len() > 0 ==> padded_groups(groups) == padded_text(groups[0], 9) + padded_groups(
            groups.skip(1),
        ),
    decreases groups.len(),
{
    if groups.len() == 1 {
        assert(groups.drop_last() =~= Seq::<nat>::empty());
        assert(groups.skip(1) =~= Seq::<nat>::empty());
        assert(padded_groups(groups) =~= padded_text(groups[0], 9) + padded_groups(
            groups.skip(1),
        ));
    } else if groups.len() > 1 {
        lemma_padded_groups_front(groups.drop_last());
        assert(groups.drop_last().skip(1) =~= groups.skip(1).drop_last());
        assert(groups.skip(1).last() == groups.last());
        assert(groups.drop_last()[0] == groups[0]);
        assert(padded_groups(groups) =~= padded_text(groups[0], 9) + padded_groups(
            groups.skip(1),
        ));
    }
}

/// A value of fixed width: `Eof` on a shorter input.
pub open spec fn fixed_column(input: Seq<u8>, width: nat, v: ValueView) -> Result<
    (ValueView, nat),
    DecodeError,
> {
    if input.len() < width {
        Err(DecodeError::Eof)
    } else {
        Ok((v, width))
    }
}

/// The text of a date stored in three bytes: the year in bits 23 to 9, the
/// month in bits 8 to 5, the day in bits 4 to 0.
pub open spec fn date_text(v: nat) -> Seq<char> {
    padded_text((v / 512) % 32768, 4) + seq!['-'] + padded_text((v / 32) % 16, 2) + seq!['-']
        + padded_text(v % 32, 2)
}

/// A date: three little-endian bytes; the number 0 stands for no date.
pub open spec fn date_column(input: Seq<u8>) -> Result<(ValueView, nat), DecodeError> {
    let v = le_value(input.take(3));
    fixed_column(
        input,
        3,
        if v == 0 {
            ValueView::Null
        } else {
            ValueView::Text(date_text(v))
        },
    )
}

/// The three bytes that the fields of a time are taken from: the stored
/// bytes where the sign bit is set, and otherwise their number, read
/// little-endian, negated within 24 bits and written back the same way.
pub open spec fn time_data(t: Seq<u8>) -> Seq<u8> {
    if bits_value(t, 0, 1) >= 1 {
        t
    } else {
        le_bytes(((0x100_0000 - le_value(t)) % 0x100_0000) as nat, 3)
    }
}

/// The text of a time: hours in ten bits from bit 2, minutes in six bits
/// from bit 12, seconds in six bits from bit 18, then a point and the
/// microseconds.
pub open spec fn time_text(t: Seq<u8>, micros: nat) -> Seq<char> {
    let d = time_data(t);
    padded_text(bits_value(d, 2, 10), 2) + seq![':'] + padded_text(bits_value(d, 12, 6), 2)
        + seq![':'] + padded_text(bits_value(d, 18, 6), 2) + seq!['.'] + decimal_text(micros)
}

/// A time: three bytes, then the fraction of a second.
pub open spec fn time_column(input: Seq<u8>, fsp: u8) -> Result<(ValueView, nat), DecodeError> {
    let w = fps_width(fsp);
    fixed_column(
        input,
        3 + w,
        ValueView::Text(
            time_text(input.take(3), fps_micros(fsp, be_value(input.subrange(3, 3 + w as int)))),
        ),
    )
}

/// The fraction of a second as a date and time shows it: nothing at
/// precision 0, and otherwise a point and as many digits as the precision
/// says; a precision beyond 6 stores no fraction and shows `.000`.
pub open spec fn fraction_text(fsp: u8, micros: nat) -> Seq<char> {
    if fsp == 0 {
        Seq::<char>::empty()
    } else if fsp <= 6 {
        seq!['.'] + padded_text(micros / pow10((6 - fsp) as nat), fsp as nat)
    } else {
        seq!['.', '0', '0', '0']
    }
}

/// The text of a date and time held in 40 bits, the bias taken off: from
/// the top, the year times 13 plus the month in 17 bits, the day in 5, the
/// hour in 5, the minute in 6 and the second in 6.
pub open spec fn datetime_text(v: nat, fsp: u8, micros: nat) -> Seq<char> {
    let d = v / 0x2_0000;
    let t = v % 0x2_0000;
    padded_text((d / 32) / 13, 4) + seq!['-'] + padded_text((d / 32) % 13, 2) + seq!['-']
        + padded_text(d % 32, 2) + seq![' '] + padded_text((v / 4096) % 32, 2) + seq![':']
        + padded_text((t / 64) % 64, 2) + seq![':'] + padded_text(t % 64, 2) + fraction_text(
        fsp,
        micros,
    )
}

/// The bias of a stored date and time.
pub open spec fn datetime_bias() -> nat {
    0x80_0000_0000
}

/// A date and time: five big-endian bytes above the bias, then the
/// fraction of a second. A number below the bias is refused with `Fail`.
pub open spec fn datetime_column(input: Seq<u8>, fsp: u8) -> Result<
    (ValueView, nat),
    DecodeError,
> {
    let w = fps_width(fsp);
    let raw = be_value(input.take(5));
    if input.len() < 5 {
        Err(DecodeError::Eof)
    } else if raw < datetime_bias() {
        Err(DecodeError::Fail)
    } else {
        fixed_column(
            input,
            5 + w,
            ValueView::Text(
                datetime_text(
                    (raw - datetime_bias()) as nat,
                    fsp,
                    fps_micros(fsp, be_value(input.subrange(5, 5 + w as int))),
                ),
            ),
        )
    }
}

/// The text of a timestamp: the seconds, a point, the microseconds.
pub open spec fn timestamp_text(secs: int, micros: nat) -> Seq<char> {
    int_text(secs) + seq!['.'] + decimal_text(micros)
}

/// A timestamp: four big-endian bytes of seconds in two's complement, then
/// the fraction of a second.
pub open spec fn timestamp_column(input: Seq<u8>, fsp: u8) -> Result<
    (ValueView, nat),
    DecodeError,
> {
    let w = fps_width(fsp);
    fixed_column(
        input,
        4 + w,
        ValueView::Text(
            timestamp_text(
                signed_value(be_value(input.take(4)), 4),
                fps_micros(fsp, be_value(input.subrange(4, 4 + w as int))),
            ),
        ),
    )
}

/// What a length prefix of `width` bytes announces, and where the bytes it
/// counts end, or `Eof` where the input ends before them.
pub open spec fn counted_end(input: Seq<u8>, width: nat) -> Result<nat, DecodeError> {
    if input.len() < width {
        Err(DecodeError::Eof)
    } else if input.len() - width < le_value(input.take(width as int)) {
        Err(DecodeError::Eof)
    } else {
        Ok(width + le_value(input.take(width as int)))
    }
}

/// A string column: a little-endian length in two bytes where values can
/// be longer than 255 bytes and in one byte otherwise, then the bytes.
pub open spec fn string_column(input: Seq<u8>, max_length: u16) -> Result<
    (ValueView, nat),
    DecodeError,
> {
    let width: nat = if max_length > 255 {
        2
    } else {
        1
    };
    match counted_end(input, width) {
        Err(e) => Err(e),
        Ok(end) => Ok((ValueView::Text(text_of(input.subrange(width as int, end as int))), end)),
    }
}

/// A TEXT or BLOB column: a little-endian length in `length_size` bytes,
/// then the bytes as they are.
pub open spec fn blob_column(input: Seq<u8>, length_size: u8) -> Result<
    (ValueView, nat),
    DecodeError,
> {
    let width = int_n_width(length_size as nat);
    match counted_end(input, width) {
        Err(e) => Err(e),
        Ok(end) => Ok((ValueView::Bytes(input.subrange(width as int, end as int)), end)),
    }
}

/// A decimal column of the given precision and scale.
pub open spec fn decimal_column(input: Seq<u8>, precision: u8, scale: u8) -> Result<
    (ValueView, nat),
    DecodeError,
> {
    match decimal_size(precision, scale) {
        None => Err(DecodeError::Fail),
        Some(size) => fixed_column(
            input,
            size,
            ValueView::Text(decimal_text_of(input.take(size as int), precision, scale)),
        ),
    }
}

/// The value that a column of kind `tp` with metadata `meta` holds at the
/// head of `input`, and the bytes it takes. A kind that is not supported
/// holds the null value in no bytes.
#[verifier::opaque]
pub open spec fn column_value(tp: ColumnType, meta: ColMeta, input: Seq<u8>) -> Result<
    (ValueView, nat),
    DecodeError,
> {
    match tp {
        ColumnType::TINYINT => fixed_column(input, 1, ValueView::Int(input[0] as int)),
        ColumnType::SMALLINT => fixed_column(
            input,
            2,
            ValueView::Int(le_value(input.take(2)) as int),
        ),
        ColumnType::MEDIUMINT => fixed_column(
            input,
            3,
            ValueView::Int(le_value(input.take(3)) as int),
        ),
        ColumnType::INT => fixed_column(
            input,
            4,
            ValueView::Int(signed_value(le_value(input.take(4)), 4)),
        ),
        ColumnType::BIGINT => fixed_column(
            input,
            8,
            ValueView::Int(signed_value(le_value(input.take(8)), 8)),
        ),
        ColumnType::FLOAT => fixed_column(
            input,
            4,
            ValueView::Float(le_value(input.take(4)) as u32),
        ),
        ColumnType::DOUBLE => fixed_column(
            input,
            8,
            ValueView::Double(le_value(input.take(8)) as u64),
        ),
        ColumnType::DECIMAL => decimal_column(
            input,
            meta.precision.unwrap_or(0),
            meta.decimals.unwrap_or(0),
        ),
        ColumnType::DATE => date_column(input),
        ColumnType::TIME => time_column(input, meta.fsp.unwrap_or(0)),
        ColumnType::DATETIME => datetime_column(input, meta.fsp.unwrap_or(0)),
        ColumnType::YEAR => fixed_column(input, 1, ValueView::Int(1900 + input[0])),
        ColumnType::TIMESTAMP => timestamp_column(input, meta.fsp.unwrap_or(0)),
        ColumnType::CHAR | ColumnType::VARCHAR => string_column(
            input,
            meta.max_length.unwrap_or(0),
        ),
        ColumnType::TEXT => blob_column(input, meta.length_size.unwrap_or(1)),
        ColumnType::NOT_MATCH => Ok((ValueView::Null, 0)),
    }
}

/// Whether a decoder's result is the expected one: the expected value and
/// the input after the bytes it takes, or the expected error.
pub open spec fn decoded_as(
    expected: Result<(ValueView, nat), DecodeError>,
    input: Seq<u8>,
    r: Result<(&[u8], Value), DecodeError>,
) -> bool {
    match r {
        Ok((rest, v)) => expected is Ok && v@ == expected.unwrap().0 && rest@ == input.skip(
            expected.unwrap().1 as int,
        ),
        Err(e) => expected == Err::<(ValueView, nat), DecodeError>(e),
    }
}

fn date_string(v: u64) -> (s: String)
    requires
        v < 0x100_0000,
    ensures
        s@ == date_text(v as nat),
{
    let mut out = String::new();
    proof {
        reveal_strlit("-");
    }
    push_padded(&mut out, (v / 512) % 32768, 4);
    out.append("-");
    push_padded(&mut out, (v / 32) % 16, 2);
    out.append("-");
    push_padded(&mut out, v % 32, 2);
    assert(out@ =~= date_text(v as nat));
    out
}

fn decode_date(input: &[u8]) -> (r: Result<(&[u8], Value), DecodeError>)
    ensures
        decoded_as(date_column(input@), input@, r),
{
    match take_int_n(input, 3) {
        Err(e) => Err(e),
        Ok((rest, v)) => {
            proof {
                lemma_le_value_bound(input@.take(3));
                lemma_pow256_values();
            }
            if v == 0 {
                Ok((rest, Value::Null))
            } else {
                Ok((rest, Value::Text(date_string(v))))
            }
        },
    }
}

fn time_string(time: &[u8], micros: u32) -> (s: String)
    requires
        time@.len() == 3,
    ensures
        s@ == time_text(time@, micros as nat),
{
    let sign = read_bits(time, 0, 1);
    let mut data: Vec<u8> = Vec::new();
    if sign < 1 {
        let n = le_at(time, 0, 3);
        proof {
            assert(time@.subrange(0, 3) =~= time@);
            lemma_le_value_bound(time@);
            lemma_pow256_values();
        }
        let m = (0x100_0000 - n) % 0x100_0000;
        data.push((m % 256) as u8);
        data.push(((m / 256) % 256) as u8);
        data.push(((m / 65536) % 256) as u8);
        proof {
            lemma_le_bytes_3(m as nat);
            assert(data@ =~= time_data(time@));
        }
    } else {
        data.push(time[0]);
        data.push(time[1]);
        data.push(time[2]);
        assert(data@ =~= time_data(time@));
    }
    let hours = read_bits(data.as_slice(), 2, 10);
    let minutes = read_bits(data.as_slice(), 12, 6);
    let seconds = read_bits(data.as_slice(), 18, 6);
    let mut out = String::new();
    proof {
        reveal_strlit(":");
        reveal_strlit(".");
    }
    push_padded(&mut out, hours as u64, 2);
    out.append(":");
    push_padded(&mut out, minutes as u64, 2);
    out.append(":");
    push_padded(&mut out, seconds as u64, 2);
    out.append(".");
    push_decimal(&mut out, micros as u64);
    assert(out@ =~= time_text(time@, micros as nat));
    out
}

fn decode_time(input: &[u8], fsp: u8) -> (r: Result<(&[u8], Value), DecodeError>)
    ensures
        decoded_as(time_column(input@, fsp), input@, r),
{
    let (after, time) = match take_bytes(input, 3) {
        Ok(p) => p,
        Err(e) => { return Err(e); },
    };
    let (rest, micros) = match read_fps(after, fsp) {
        Ok(p) => p,
        Err(e) => { return Err(e); },
    };
    proof {
        let w = fps_width(fsp) as int;
        assert(after@.take(w) =~= input@.subrange(3, 3 + w));
        assert(rest@ =~= input@.skip(3 + w));
    }
    Ok((rest, Value::Text(time_string(time, micros))))
}

fn push_fraction(out: &mut String, fsp: u8, micros: u32)
    ensures
        final(out)@ == old(out)@ + fraction_text(fsp, micros as nat),
{
    if fsp == 0 {
        assert(out@ =~= old(out)@ + fraction_text(fsp, micros as nat));
    } else if fsp <= 6 {
        proof {
            reveal_strlit(".");
        }
        out.append(".");
        let unit = pow10_small(6 - fsp);
        proof {
            reveal_with_fuel(pow10, 7);
        }
        push_padded(out, (micros / unit) as u64, fsp as usize);
        assert(out@ =~= old(out)@ + fraction_text(fsp, micros as nat));
    } else {
        proof {
            reveal_strlit(".000");
        }
        out.append(".000");
        assert(out@ =~= old(out)@ + fraction_text(fsp, micros as nat));
    }
}

fn datetime_string(v: u64, fsp: u8, micros: u32) -> (s: String)
    requires
        v < 0x80_0000_0000,
    ensures
        s@ == datetime_text(v as nat, fsp, micros as nat),
{
    let d = v / 0x2_0000;
    let t = v % 0x2_0000;
    let mut out = String::new();
    proof {
        reveal_strlit("-");
        reveal_strlit(" ");
        reveal_strlit(":");
    }
    push_padded(&mut out, (d / 32) / 13, 4);
    out.append("-");
    push_padded(&mut out, (d / 32) % 13, 2);
    out.append("-");
    push_padded(&mut out, d % 32, 2);
    out.append(" ");
    push_padded(&mut out, (v / 4096) % 32, 2);
    out.append(":");
    push_padded(&mut out, (t / 64) % 64, 2);
    out.append(":");
    push_padded(&mut out, t % 64, 2);
    push_fraction(&mut out, fsp, micros);
    assert(out@ =~= datetime_text(v as nat, fsp, micros as nat));
    out
}

fn decode_datetime(input: &[u8], fsp: u8) -> (r: Result<(&[u8], Value), DecodeError>)
    ensures
        decoded_as(datetime_column(input@, fsp), input@, r),
{
    if input.len() < 5 {
        return Err(DecodeError::Eof);
    }
    let raw = be_at(input, 0, 5);
    proof {
        assert(input@.take(5) =~= input@.subrange(0, 5));
        lemma_be_value_bound(input@.take(5));
        lemma_pow256_values();
    }
    if raw < 0x80_0000_0000 {
        return Err(DecodeError::Fail);
    }
    let after = rest_from(input, 5);
    let (rest, micros) = match read_fps(after, fsp) {
        Ok(p) => p,
        Err(e) => { return Err(e); },
    };
    proof {
        let w = fps_width(fsp) as int;
        assert(after@.take(w) =~= input@.subrange(5, 5 + w));
        assert(rest@ =~= input@.skip(5 + w));
    }
    Ok((rest, Value::Text(datetime_string(raw - 0x80_0000_0000, fsp, micros))))
}

fn decode_timestamp(input: &[u8], fsp: u8) -> (r: Result<(&[u8], Value), DecodeError>)
    ensures
        decoded_as(timestamp_column(input@, fsp), input@, r),
{
    let (after, secs) = match take_be_int(input, 4) {
        Ok(p) => p,
        Err(e) => { return Err(e); },
    };
    let (rest, micros) = match read_fps(after, fsp) {
        Ok(p) => p,
        Err(e) => { return Err(e); },
    };
    proof {
        let w = fps_width(fsp) as int;
        assert(after@.take(w) =~= input@.subrange(4, 4 + w));
        assert(rest@ =~= input@.skip(4 + w));
        reveal_strlit(".");
    }
    let mut out = String::new();
    push_int(&mut out, secs);
    out.append(".");
    push_decimal(&mut out, micros as u64);
    assert(out@ =~= timestamp_text(secs as int, micros as nat));
    Ok((rest, Value::Text(out)))
}

/// Takes a little-endian length of `width` bytes and the bytes it counts.
fn take_counted(input: &[u8], width: usize) -> (r: Result<(&[u8], &[u8]), DecodeError>)
    requires
        width <= 8,
    ensures
        match r {
            Ok((rest, body)) => counted_end(input@, width as nat) is Ok && body@
                == input@.subrange(width as int, counted_end(input@, width as nat).unwrap() as int)
                && rest@ == input@.skip(counted_end(input@, width as nat).unwrap() as int),
            Err(e) => counted_end(input@, width as nat) == Err::<nat, DecodeError>(e),
        },
{
    if input.len() < width {
        return Err(DecodeError::Eof);
    }
    let n = le_at(input, 0, width);
    assert(input@.take(width as int) =~= input@.subrange(0, width as int));
    if n > (input.len() - width) as u64 {
        return Err(DecodeError::Eof);
    }
    let end = width + n as usize;
    Ok((rest_from(input, end), slice_subrange(input, width, end)))
}

fn decode_string(input: &[u8], max_length: u16) -> (r: Result<(&[u8], Value), DecodeError>)
    ensures
        decoded_as(string_column(input@, max_length), input@, r),
{
    let width: usize = if max_length > 255 {
        2
    } else {
        1
    };
    match take_counted(input, width) {
        Err(e) => Err(e),
        Ok((rest, body)) => Ok((rest, Value::Text(string_of_bytes(body)))),
    }
}

fn decode_blob(input: &[u8], length_size: u8) -> (r: Result<(&[u8], Value), DecodeError>)
    ensures
        decoded_as(blob_column(input@, length_size), input@, r),
{
    let width: usize = if 1 <= length_size && length_size <= 8 {
        length_size as usize
    } else {
        0
    };
    match take_counted(input, width) {
        Err(e) => Err(e),
        Ok((rest, body)) => Ok((rest, Value::Bytes(slice_to_vec(body)))),
    }
}

fn decode_decimal(input: &[u8], precision: u8, scale: u8) -> (r: Result<
    (&[u8], Value),
    DecodeError,
>)
    ensures
        decoded_as(decimal_column(input@, precision, scale), input@, r),
{
    match DecimalVal::decode(input, precision, scale) {
        Err(e) => Err(e),
        Ok((rest, dec)) => Ok((rest, Value::Text(dec.val))),
    }
}

fn decode_int(input: &[u8], tp: ColumnType) -> (r: Result<(&[u8], Value), DecodeError>)
    requires
        tp == ColumnType::TINYINT || tp == ColumnType::SMALLINT || tp == ColumnType::MEDIUMINT
            || tp == ColumnType::INT || tp == ColumnType::BIGINT || tp == ColumnType::FLOAT || tp
            == ColumnType::DOUBLE || tp == ColumnType::YEAR,
    ensures
        decoded_as(column_value(tp, empty_meta(), input@), input@, r),
{
    reveal(column_value);
    let width: usize = match tp {
        ColumnType::TINYINT | ColumnType::YEAR => 1,
        ColumnType::SMALLINT => 2,
        ColumnType::MEDIUMINT => 3,
        ColumnType::INT | ColumnType::FLOAT => 4,
        _ => 8,
    };
    let (rest, v) = match take_int_n(input, width) {
        Ok(p) => p,
        Err(e) => { return Err(e); },
    };
    proof {
        lemma_le_value_bound(input@.take(width as int));
        lemma_pow256_values();
        if width == 1 {
            assert(input@.take(1).skip(1) =~= Seq::<u8>::empty());
            assert(le_value(input@.take(1)) == input@[0]);
        }
    }
    let value = match tp {
        ColumnType::YEAR => Value::Int(1900 + v as i64),
        ColumnType::INT => Value::Int(signed32(v as u32) as i64),
        ColumnType::BIGINT => Value::Int(signed64(v)),
        ColumnType::FLOAT => Value::Float(v as u32),
        ColumnType::DOUBLE => Value::Double(v),
        _ => Value::Int(v as i64),
    };
    Ok((rest, value))
}

impl ColumnType {
    /// Reads the value of one column of kind `tp`.
    pub fn decode_val<'a>(tp: ColumnType, input: &'a [u8], meta: &ColMeta) -> (r: Result<
        (&'a [u8], Value),
        DecodeError,
    >)
        ensures
            decoded_as(column_value(tp, *meta, input@), input@, r),
    {
        reveal(column_value);
        match tp {
            ColumnType::DECIMAL => {
                let precision = match meta.precision {
                    Some(p) => p,
                    None => 0,
                };
                let scale = match meta.decimals {
                    Some(p) => p,
                    None => 0,
                };
                decode_decimal(input, precision, scale)
            },
            ColumnType::DATE => decode_date(input),
            ColumnType::TIME => decode_time(input, fsp_of(meta)),
            ColumnType::DATETIME => decode_datetime(input, fsp_of(meta)),
            ColumnType::TIMESTAMP => decode_timestamp(input, fsp_of(meta)),
            ColumnType::CHAR | ColumnType::VARCHAR => {
                let max_length = match meta.max_length {
                    Some(m) => m,
                    None => 0,
                };
                decode_string(input, max_length)
            },
            ColumnType::TEXT => {
                let length_size = match meta.length_size {
                    Some(m) => m,
                    None => 1,
                };
                decode_blob(input, length_size)
            },
            ColumnType::NOT_MATCH => {
                Ok((rest_from(input, 0), Value::Null))
            },
            _ => decode_int(input, tp),
        }
    }
}

fn fsp_of(meta: &ColMeta) -> (fsp: u8)
    ensures
        fsp == meta.fsp.unwrap_or(0),
{
    match meta.fsp {
        Some(f) => f,
        None => 0,
    }
}

/// The kinds that the type codes of a table map stand for.
pub open spec fn column_types(codes: Seq<u8>) -> Seq<ColumnType> {
    Seq::new(codes.len(), |k: int| column_type_of(codes[k]))
}

/// The longest value of a CHAR column, from the two bytes of its metadata
/// read as one big-endian number.
pub open spec fn char_max_length(m: u16) -> u16 {
    ((((m >> 4) & 0x300) ^ 0x300) + (m & 0x00ff)) as u16
}

/// The bytes of the metadata block that a column of kind `tp` takes when
/// `block` is what is left of it. A column takes what its kind asks for
/// while the block lasts: two bytes at once for the string kinds, one byte
/// for a number, a time or a blob, and one byte after the other for a
/// decimal.
pub open spec fn meta_used(tp: ColumnType, block: Seq<u8>) -> nat {
    match tp {
        ColumnType::VARCHAR | ColumnType::CHAR => if block.len() >= 2 {
            2
        } else {
            0
        },
        ColumnType::DOUBLE
        | ColumnType::FLOAT
        | ColumnType::TIMESTAMP
        | ColumnType::DATETIME
        | ColumnType::TIME
        | ColumnType::TEXT => if block.len() >= 1 {
            1
        } else {
            0
        },
        ColumnType::DECIMAL => if block.len() >= 2 {
            2
        } else {
            block.len()
        },
        _ => 0,
    }
}

/// The metadata of a column of kind `tp` when `block` is what is left of
/// the metadata block; bytes that the block no longer has leave their
/// entry unset.
pub open spec fn column_meta(tp: ColumnType, block: Seq<u8>) -> ColMeta {
    let none = empty_meta();
    match tp {
        ColumnType::VARCHAR => if block.len() >= 2 {
            ColMeta { max_length: Some((block[0] + 256 * block[1]) as u16), ..none }
        } else {
            none
        },
        ColumnType::CHAR => if block.len() >= 2 {
            ColMeta {
                max_length: Some(char_max_length((256 * block[0] + block[1]) as u16)),
                ..none
            }
        } else {
            none
        },
        ColumnType::DOUBLE | ColumnType::FLOAT => if block.len() >= 1 {
            ColMeta { size: Some(block[0]), ..none }
        } else {
            none
        },
        ColumnType::TIMESTAMP | ColumnType::DATETIME | ColumnType::TIME => if block.len() >= 1 {
            ColMeta { fsp: Some(block[0]), ..none }
        } else {
            none
        },
        ColumnType::TEXT => if block.len() >= 1 {
            ColMeta { length_size: Some(block[0]), ..none }
        } else {
            none
        },
        ColumnType::DECIMAL => if block.len() >= 2 {
            ColMeta { precision: Some(block[0]), decimals: Some(block[1]), ..none }
        } else if block.len() == 1 {
            ColMeta { precision: Some(block[0]), ..none }
        } else {
            none
        },
        _ => none,
    }
}

/// The metadata of the columns with the given type codes, read one column
/// after the other from the metadata block.
pub open spec fn column_metas(codes: Seq<u8>, block: Seq<u8>) -> Seq<ColMeta>
    decreases codes.len(),
{
    if codes.len() == 0 {
        Seq::<ColMeta>::empty()
    } else {
        let tp = column_type_of(codes[0]);
        seq![column_meta(tp, block)] + column_metas(
            codes.skip(1),
            block.skip(meta_used(tp, block) as int),
        )
    }
}

/// There is one metadata entry for each column.
pub proof fn lemma_column_metas_len(codes: Seq<u8>, block: Seq<u8>)
    ensures
        column_metas(codes, block).len() == codes.len(),
    decreases codes.len(),
{
    if codes.len() > 0 {
        let tp = column_type_of(codes[0]);
        lemma_column_metas_len(codes.skip(1), block.skip(meta_used(tp, block) as int));
    }
}

fn read_column_meta(tp: ColumnType, block: &[u8]) -> (r: (ColMeta, usize))
    ensures
        r.0 == column_meta(tp, block@),
        r.1 == meta_used(tp, block@),
        r.1 <= block@.len(),
{
    let mut m = ColMeta::new();
    match tp {
        ColumnType::VARCHAR => {
            if block.len() >= 2 {
                m.max_length = Some(block[0] as u16 + 256 * (block[1] as u16));
                (m, 2)
            } else {
                (m, 0)
            }
        },
        ColumnType::CHAR => {
            if block.len() >= 2 {
                let metadata: u16 = 256 * (block[0] as u16) + block[1] as u16;
                assert((((metadata >> 4) & 0x300) ^ 0x300) <= 0x300 && (metadata & 0x00ff) <= 0xff)
                    by (bit_vector);
                m.max_length = Some((((metadata >> 4) & 0x300) ^ 0x300) + (metadata & 0x00ff));
                (m, 2)
            } else {
                (m, 0)
            }
        },
        ColumnType::DOUBLE | ColumnType::FLOAT => {
            if block.len() >= 1 {
                m.size = Some(block[0]);
                (m, 1)
            } else {
                (m, 0)
            }
        },
        ColumnType::TIMESTAMP | ColumnType::DATETIME | ColumnType::TIME => {
            if block.len() >= 1 {
                m.fsp = Some(block[0]);
                (m, 1)
            } else {
                (m, 0)
            }
        },
        ColumnType::TEXT => {
            if block.len() >= 1 {
                m.length_size = Some(block[0]);
                (m, 1)
            } else {
                (m, 0)
            }
        },
        ColumnType::DECIMAL => {
            if block.len() >= 2 {
                m.precision = Some(block[0]);
                m.decimals = Some(block[1]);
                (m, 2)
            } else if block.len() == 1 {
                m.precision = Some(block[0]);
                (m, 1)
            } else {
                (m, 0)
            }
        },
        _ => (m, 0),
    }
}

/// The columns of the tables that table maps have named, by table id.
#[derive(Debug, Clone)]
pub struct TableMap {
    pub mapping: HashMap<u64, Vec<ColumnType>>,
    pub metas: HashMap<u64, Vec<ColMeta>>,
}

impl TableMap {
    /// The kinds of the columns of table `tb`, where a table map named it.
    pub open spec fn types_of(&self, tb: u64) -> Option<Seq<ColumnType>> {
        if self.mapping@.contains_key(tb) {
            Some(self.mapping@[tb]@)
        } else {
            None
        }
    }

    /// The metadata of the columns of table `tb`, where a table map named
    /// it.
    pub open spec fn metas_of(&self, tb: u64) -> Option<Seq<ColMeta>> {
        if self.metas@.contains_key(tb) {
            Some(self.metas@[tb]@)
        } else {
            None
        }
    }

    /// A store that knows no table.
    pub fn new() -> (m: TableMap)
        ensures
            forall|tb: u64| m.types_of(tb) is None && m.metas_of(tb) is None,
    {
        TableMap { mapping: HashMap::new(), metas: HashMap::new() }
    }

    /// Records the columns of table `tb` as a table map gives them: one
    /// type code for each column, and the metadata block. What was known
    /// of `tb` is replaced; the other tables stay as they were.
    pub fn decode_columns(&mut self, tb: u64, cols_type: Vec<u8>, meta_bits: &[u8])
        ensures
            final(self).types_of(tb) == Some(column_types(cols_type@)),
            final(self).metas_of(tb) == Some(column_metas(cols_type@, meta_bits@)),
            forall|other: u64|
                other != tb ==> final(self).types_of(other) == old(self).types_of(other)
                    && final(self).metas_of(other) == old(self).metas_of(other),
    {
        let mut types: Vec<ColumnType> = Vec::new();
        let mut metas: Vec<ColMeta> = Vec::new();
        let mut pos: usize = 0;
        let mut k: usize = 0;
        let block_len = meta_bits.len();
        assert(meta_bits@.skip(0) =~= meta_bits@);
        assert(cols_type@.skip(0) =~= cols_type@);
        while k < cols_type.len()
            invariant
                k <= cols_type@.len(),
                pos <= meta_bits@.len() <= usize::MAX,
                types@.len() == k,
                forall|j: int| 0 <= j < k ==> types@[j] == column_type_of(cols_type@[j]),
                column_metas(cols_type@, meta_bits@) == metas@ + column_metas(
                    cols_type@.skip(k as int),
                    meta_bits@.skip(pos as int),
                ),
            decreases cols_type@.len() - k,
        {
            let tp = ColumnType::from_code(cols_type[k]);
            let block = rest_from(meta_bits, pos);
            let (meta, used) = read_column_meta(tp, block);
            proof {
                let codes = cols_type@.skip(k as int);
                assert(codes[0] == cols_type@[k as int]);
                assert(codes.skip(1) =~= cols_type@.skip(k + 1));
                assert(block@.skip(used as int) =~= meta_bits@.skip(pos + used));
                assert(metas@.push(meta) + column_metas(
                    cols_type@.skip(k + 1),
                    meta_bits@.skip(pos + used),
                ) =~= metas@ + (seq![meta] + column_metas(
                    cols_type@.skip(k + 1),
                    meta_bits@.skip(pos + used),
                )));
            }
            types.push(tp);
            metas.push(meta);
            pos = pos + used;
            k = k + 1;
        }
        proof {
            assert(types@ =~= column_types(cols_type@));
            assert(cols_type@.skip(k as int) =~= Seq::<u8>::empty());
            assert(metas@ =~= column_metas(cols_type@, meta_bits@));
        }
        self.mapping.insert(tb, types);
        self.metas.insert(tb, metas);
    }

    /// The values of one row image of table `table_id`: see
    /// [`decode_column_vals`].
    pub fn decode_column_vals<'a>(&self, input: &'a [u8], table_id: u64, col_map_len: usize) -> (r:
        Result<(&'a [u8], Vec<Value>), DecodeError>)
        ensures
            row_decoded(row_expected(self, table_id, col_map_len as nat, input@), r),
            r is Ok ==> self.types_of(table_id) is Some && r.unwrap().1@.len()
                == self.types_of(table_id).unwrap().len(),
    {
        decode_column_vals(self, input, table_id, col_map_len)
    }
}

/// Bit `index` of a bitmap, counted from the least significant bit of its
/// first byte.
pub open spec fn null_bit(arr: Seq<u8>, index: int) -> u8 {
    (arr[index / 8] >> ((index % 8) as u8)) & 1
}

/// Bit `index` of a bitmap.
pub fn check_bit(arr: &[u8], index: u16) -> (bit: u8)
    requires
        index / 8 < arr@.len(),
    ensures
        bit == null_bit(arr@, index as int),
{
    let byte_index = (index / 8) as usize;
    let bit_index = (index % 8) as u8;
    (arr[byte_index] >> bit_index) & 1
}

/// Whether column `idx` is null by the bitmap. Columns are numbered in 16
/// bits.
pub open spec fn is_null_column(arr: Seq<u8>, idx: int) -> bool {
    null_bit(arr, idx % 0x1_0000) > 0
}

/// For each of `col_map_len` columns, whether the bitmap marks it null.
pub fn compute_null_map(arr: &[u8], col_map_len: usize) -> (map: Vec<bool>)
    requires
        col_map_len <= 8 * arr@.len(),
    ensures
        map@.len() == col_map_len,
        forall|k: int| 0 <= k < col_map_len ==> map@[k] == is_null_column(arr@, k),
{
    let mut map: Vec<bool> = Vec::new();
    let mut idx: usize = 0;
    while idx < col_map_len
        invariant
            idx <= col_map_len <= 8 * arr@.len(),
            map@.len() == idx,
            forall|k: int| 0 <= k < idx ==> map@[k] == is_null_column(arr@, k),
        decreases col_map_len - idx,
    {
        map.push(check_bit(arr, (idx % 0x1_0000) as u16) > 0);
        idx = idx + 1;
    }
    map
}

/// A decoded row with `front` put before its values.
pub open spec fn with_front(
    front: Seq<ValueView>,
    r: Result<(Seq<ValueView>, Seq<u8>), DecodeError>,
) -> Result<(Seq<ValueView>, Seq<u8>), DecodeError> {
    match r {
        Ok((values, rest)) => Ok((front + values, rest)),
        Err(e) => Err(e),
    }
}

/// The values of the columns from column `k` on, read from `input`, and
/// what follows them: a column that the bitmap marks null is the null value
/// and takes no bytes, any other holds its value as its kind lays it out.
pub open spec fn columns_from(
    types: Seq<ColumnType>,
    metas: Seq<ColMeta>,
    nulls: Seq<u8>,
    k: int,
    input: Seq<u8>,
) -> Result<(Seq<ValueView>, Seq<u8>), DecodeError>
    decreases types.len() - k,
{
    if k >= types.len() {
        Ok((Seq::<ValueView>::empty(), input))
    } else if is_null_column(nulls, k) {
        with_front(seq![ValueView::Null], columns_from(types, metas, nulls, k + 1, input))
    } else {
        match column_value(types[k], metas[k], input) {
            Err(e) => Err(e),
            Ok((v, used)) => with_front(
                seq![v],
                columns_from(types, metas, nulls, k + 1, input.skip(used as int)),
            ),
        }
    }
}

/// One row image: a null bitmap of `width` bytes, then the values of the
/// columns that it does not mark null. A bitmap too short for the columns,
/// and kinds and metadata that differ in number, are refused with `Fail`.
pub open spec fn row_image(
    types: Seq<ColumnType>,
    metas: Seq<ColMeta>,
    width: nat,
    input: Seq<u8>,
) -> Result<(Seq<ValueView>, Seq<u8>), DecodeError> {
    if types.len() != metas.len() {
        Err(DecodeError::Fail)
    } else if input.len() < width {
        Err(DecodeError::Eof)
    } else if 8 * width < types.len() {
        Err(DecodeError::Fail)
    } else {
        columns_from(types, metas, input.take(width as int), 0, input.skip(width as int))
    }
}

/// One row image of table `table_id`; a table that no table map has named
/// is refused with `Fail`.
pub open spec fn row_expected(table_map: &TableMap, table_id: u64, width: nat, input: Seq<u8>)
    -> Result<(Seq<ValueView>, Seq<u8>), DecodeError> {
    match (table_map.types_of(table_id), table_map.metas_of(table_id)) {
        (Some(types), Some(metas)) => row_image(types, metas, width, input),
        _ => Err(DecodeError::Fail),
    }
}

/// Whether the result of decoding a row is the expected one.
pub open spec fn row_decoded(
    expected: Result<(Seq<ValueView>, Seq<u8>), DecodeError>,
    r: Result<(&[u8], Vec<Value>), DecodeError>,
) -> bool {
    match r {
        Ok((rest, values)) => expected == Ok::<(Seq<ValueView>, Seq<u8>), DecodeError>(
            (crate::value::row_view(values@), rest@),
        ),
        Err(e) => expected == Err::<(Seq<ValueView>, Seq<u8>), DecodeError>(e),
    }
}

/// Reads one row image of table `table_id`: a null bitmap of `col_map_len`
/// bytes and the values of the columns. There is one value for each column
/// of the table, null ones included.
pub fn decode_column_vals<'a>(
    table_map: &TableMap,
    input: &'a [u8],
    table_id: u64,
    col_map_len: usize,
) -> (r: Result<(&'a [u8], Vec<Value>), DecodeError>)
    ensures
        row_decoded(row_expected(table_map, table_id, col_map_len as nat, input@), r),
        r is Ok ==> table_map.types_of(table_id) is Some && r.unwrap().1@.len()
            == table_map.types_of(table_id).unwrap().len(),
{
    let types = match table_map.mapping.get(&table_id) {
        Some(t) => t,
        None => { return Err(DecodeError::Fail); },
    };
    let metas = match table_map.metas.get(&table_id) {
        Some(m) => m,
        None => { return Err(DecodeError::Fail); },
    };
    if types.len() != metas.len() {
        return Err(DecodeError::Fail);
    }
    let (body, bitmap) = match take_bytes(input, col_map_len) {
        Ok(p) => p,
        Err(e) => { return Err(e); },
    };
    if types.len() / 8 > col_map_len || (types.len() / 8 == col_map_len && types.len() % 8 > 0) {
        return Err(DecodeError::Fail);
    }
    let null_map = compute_null_map(bitmap, types.len());
    let mut values: Vec<Value> = Vec::new();
    let mut cur = body;
    let mut k: usize = 0;
    let ghost whole = columns_from(types@, metas@, bitmap@, 0, body@);
    proof {
        lemma_with_front_nothing(whole);
        assert(crate::value::row_view(values@) =~= Seq::<ValueView>::empty());
    }
    while k < types.len()
        invariant
            k <= types@.len(),
            types@.len() == metas@.len(),
            values@.len() == k,
            null_map@.len() == types@.len(),
            forall|j: int| 0 <= j < types@.len() ==> null_map@[j] == is_null_column(bitmap@, j),
            whole == row_expected(table_map, table_id, col_map_len as nat, input@),
            whole == with_front(
                crate::value::row_view(values@),
                columns_from(types@, metas@, bitmap@, k as int, cur@),
            ),
        decreases types@.len() - k,
    {
        let ghost before = crate::value::row_view(values@);
        let ghost here = cur@;
        let (rest, v) = if null_map[k] {
            (cur, Value::Null)
        } else {
            match ColumnType::decode_val(types[k], cur, &metas[k]) {
                Ok(p) => p,
                Err(e) => {
                    proof {
                        lemma_columns_fail(types@, metas@, bitmap@, k as int, here, e);
                    }
                    return Err(e);
                },
            }
        };
        proof {
            lemma_columns_step(types@, metas@, bitmap@, k as int, here, v@, rest@);
            lemma_with_front_twice(
                before,
                seq![v@],
                columns_from(types@, metas@, bitmap@, k + 1, rest@),
            );
        }
        values.push(v);
        proof {
            assert(crate::value::row_view(values@) =~= before + seq![v@]);
        }
        cur = rest;
        k = k + 1;
    }
    proof {
        assert(crate::value::row_view(values@) + Seq::<ValueView>::empty()
            =~= crate::value::row_view(values@));
    }
    Ok((cur, values))
}

/// From column `k` on there is one value for each column, null ones
/// included.
pub proof fn lemma_columns_count(
    types: Seq<ColumnType>,
    metas: Seq<ColMeta>,
    nulls: Seq<u8>,
    k: int,
    input: Seq<u8>,
)
    requires
        0 <= k <= types.len(),
    ensures
        columns_from(types, metas, nulls, k, input) is Ok ==> columns_from(
            types,
            metas,
            nulls,
            k,
            input,
        ).unwrap().0.len() == types.len() - k,
    decreases types.len() - k,
{
    if k < types.len() {
        if is_null_column(nulls, k) {
            lemma_columns_count(types, metas, nulls, k + 1, input);
        } else {
            match column_value(types[k], metas[k], input) {
                Err(e) => {},
                Ok((v, used)) => {
                    lemma_columns_count(types, metas, nulls, k + 1, input.skip(used as int));
                },
            }
        }
    }
}

/// A row image of a table holds as many values as the table map of the
/// table has type codes, whatever the metadata block and the null bitmap
/// hold.
pub proof fn lemma_row_count(codes: Seq<u8>, block: Seq<u8>, width: nat, input: Seq<u8>)
    ensures
        row_image(column_types(codes), column_metas(codes, block), width, input) is Ok
            ==> row_image(
            column_types(codes),
            column_metas(codes, block),
            width,
            input,
        ).unwrap().0.len() == codes.len(),
{
    lemma_column_metas_len(codes, block);
    lemma_columns_count(
        column_types(codes),
        column_metas(codes, block),
        input.take(width as int),
        0,
        input.skip(width as int),
    );
}

proof fn lemma_with_front_nothing(r: Result<(Seq<ValueView>, Seq<u8>), DecodeError>)
    ensures
        with_front(Seq::<ValueView>::empty(), r) == r,
{
    match r {
        Ok((vs, rest)) => {
            assert(Seq::<ValueView>::empty() + vs =~= vs);
        },
        Err(e) => {},
    }
}

proof fn lemma_columns_fail(
    types: Seq<ColumnType>,
    metas: Seq<ColMeta>,
    nulls: Seq<u8>,
    k: int,
    input: Seq<u8>,
    e: DecodeError,
)
    requires
        0 <= k < types.len(),
        !is_null_column(nulls, k),
        column_value(types[k], metas[k], input) == Err::<(ValueView, nat), DecodeError>(e),
    ensures
        columns_from(types, metas, nulls, k, input) == Err::<(Seq<ValueView>, Seq<u8>), DecodeError>(
            e,
        ),
{
}

proof fn lemma_columns_step(
    types: Seq<ColumnType>,
    metas: Seq<ColMeta>,
    nulls: Seq<u8>,
    k: int,
    input: Seq<u8>,
    v: ValueView,
    rest: Seq<u8>,
)
    requires
        0 <= k < types.len(),
        is_null_column(nulls, k) ==> v == ValueView::Null && rest == input,
        !is_null_column(nulls, k) ==> column_value(types[k], metas[k], input) is Ok
            && column_value(types[k], metas[k], input).unwrap().0 == v && rest == input.skip(
            column_value(types[k], metas[k], input).unwrap().1 as int,
        ),
    ensures
        columns_from(types, metas, nulls, k, input) == with_front(
            seq![v],
            columns_from(types, metas, nulls, k + 1, rest),
        ),
{
}

proof fn lemma_with_front_twice(
    a: Seq<ValueView>,
    b: Seq<ValueView>,
    r: Result<(Seq<ValueView>, Seq<u8>), DecodeError>,
)
    ensures
        with_front(a, with_front(b, r)) == with_front(a + b, r),
{
    match r {
        Ok((vs, rest)) => {
            assert(a + (b + vs) =~= (a + b) + vs);
        },
        Err(e) => {},
    }
}

/// Decoded rows with `front` put before them.
pub open spec fn rows_front(
    front: Seq<Seq<ValueView>>,
    r: Result<(Seq<Seq<ValueView>>, Seq<u8>), DecodeError>,
) -> Result<(Seq<Seq<ValueView>>, Seq<u8>), DecodeError> {
    match r {
        Ok((rows, rest)) => Ok((front + rows, rest)),
        Err(e) => Err(e),
    }
}

/// The row images of table `table_id` in `input`, one after the other
/// until no more than the four bytes of the checksum are left, and what is
/// left. At least one row is read. A row image that takes no bytes, with
/// more than four bytes left, is refused with `Fail`.
pub open spec fn rows_expected(table_map: &TableMap, table_id: u64, width: nat, input: Seq<u8>)
    -> Result<(Seq<Seq<ValueView>>, Seq<u8>), DecodeError>
    decreases input.len(),
{
    match row_expected(table_map, table_id, width, input) {
        Err(e) => Err(e),
        Ok((row, rest)) => if rest.len() <= 4 {
            Ok((seq![row], rest))
        } else if rest.len() >= input.len() {
            Err(DecodeError::Fail)
        } else {
            rows_front(seq![row], rows_expected(table_map, table_id, width, rest))
        },
    }
}

/// Whether every row has `n` values.
pub open spec fn rows_of_width(rows: Seq<Vec<Value>>, n: nat) -> bool {
    forall|i: int| 0 <= i < rows.len() ==> (#[trigger] rows[i])@.len() == n
}

/// The rows of an event are one at least, and each holds one value for
/// each column of the table, null ones included.
pub proof fn lemma_rows_count(table_map: &TableMap, table_id: u64, width: nat, input: Seq<u8>)
    ensures
        rows_expected(table_map, table_id, width, input) is Ok ==> {
            let rows = rows_expected(table_map, table_id, width, input).unwrap().0;
            &&& table_map.types_of(table_id) is Some
            &&& rows.len() >= 1
            &&& forall|i: int|
                0 <= i < rows.len() ==> (#[trigger] rows[i]).len() == table_map.types_of(
                    table_id,
                ).unwrap().len()
        },
    decreases input.len(),
{
    match row_expected(table_map, table_id, width, input) {
        Err(e) => {},
        Ok((row, rest)) => {
            let types = table_map.types_of(table_id).unwrap();
            let metas = table_map.metas_of(table_id).unwrap();
            lemma_columns_count(
                types,
                metas,
                input.take(width as int),
                0,
                input.skip(width as int),
            );
            if rest.len() > 4 && rest.len() < input.len() {
                lemma_rows_count(table_map, table_id, width, rest);
                match rows_expected(table_map, table_id, width, rest) {
                    Err(e) => {},
                    Ok((more, left)) => {
                        let rows = seq![row] + more;
                        assert forall|i: int| 0 <= i < rows.len() implies (#[trigger] rows[i]).len()
                            == types.len() by {
                            if i > 0 {
                                assert(rows[i] == more[i - 1]);
                            }
                        }
                    },
                }
            }
        },
    }
}

/// Whether the result of decoding rows is the expected one.
pub open spec fn rows_decoded(
    expected: Result<(Seq<Seq<ValueView>>, Seq<u8>), DecodeError>,
    r: Result<(&[u8], Vec<Vec<Value>>), DecodeError>,
) -> bool {
    match r {
        Ok((rest, rows)) => expected == Ok::<(Seq<Seq<ValueView>>, Seq<u8>), DecodeError>(
            (crate::value::rows_view(rows@), rest@),
        ),
        Err(e) => expected == Err::<(Seq<Seq<ValueView>>, Seq<u8>), DecodeError>(e),
    }
}

proof fn lemma_rows_front_twice(
    a: Seq<Seq<ValueView>>,
    b: Seq<Seq<ValueView>>,
    r: Result<(Seq<Seq<ValueView>>, Seq<u8>), DecodeError>,
)
    ensures
        rows_front(a, rows_front(b, r)) == rows_front(a + b, r),
{
    match r {
        Ok((vs, rest)) => {
            assert(a + (b + vs) =~= (a + b) + vs);
        },
        Err(e) => {},
    }
}

proof fn lemma_rows_front_nothing(r: Result<(Seq<Seq<ValueView>>, Seq<u8>), DecodeError>)
    ensures
        rows_front(Seq::<Seq<ValueView>>::empty(), r) == r,
{
    match r {
        Ok((vs, rest)) => {
            assert(Seq::<Seq<ValueView>>::empty() + vs =~= vs);
        },
        Err(e) => {},
    }
}

/// Whether the rows are one at least and each holds one value for each
/// column of table `table_id`.
pub open spec fn rows_fill(table_map: &TableMap, table_id: u64, rows: Seq<Vec<Value>>) -> bool {
    &&& table_map.types_of(table_id) is Some
    &&& rows.len() >= 1
    &&& rows_of_width(rows, table_map.types_of(table_id).unwrap().len())
}

/// Reads the row images of an event: see [`rows_expected`]. There is one
/// row at least, and each row has one value for each column of the table.
pub fn decode_rows<'a>(table_map: &TableMap, input: &'a [u8], table_id: u64, col_map_len: usize)
    -> (r: Result<(&'a [u8], Vec<Vec<Value>>), DecodeError>)
    ensures
        rows_decoded(rows_expected(table_map, table_id, col_map_len as nat, input@), r),
        r is Ok ==> rows_fill(table_map, table_id, r.unwrap().1@),
{
    let mut rows: Vec<Vec<Value>> = Vec::new();
    let mut cur = input;
    let ghost whole = rows_expected(table_map, table_id, col_map_len as nat, input@);
    proof {
        lemma_rows_front_nothing(whole);
        assert(crate::value::rows_view(rows@) =~= Seq::<Seq<ValueView>>::empty());
    }
    loop
        invariant
            whole == rows_expected(table_map, table_id, col_map_len as nat, input@),
            whole == rows_front(
                crate::value::rows_view(rows@),
                rows_expected(table_map, table_id, col_map_len as nat, cur@),
            ),
        decreases cur@.len(),
    {
        let ghost before = crate::value::rows_view(rows@);
        let (rest, vals) = match decode_column_vals(table_map, cur, table_id, col_map_len) {
            Ok(p) => p,
            Err(e) => { return Err(e); },
        };
        let ghost row = crate::value::row_view(vals@);
        rows.push(vals);
        proof {
            assert(crate::value::rows_view(rows@) =~= before + seq![row]);
        }
        if rest.len() <= 4 {
            proof {
                lemma_rows_count(table_map, table_id, col_map_len as nat, input@);
                let expected = whole.unwrap().0;
                assert forall|i: int| 0 <= i < rows@.len() implies (#[trigger] rows@[i])@.len()
                    == table_map.types_of(table_id).unwrap().len() by {
                    assert(crate::value::rows_view(rows@)[i] == crate::value::row_view(
                        rows@[i]@,
                    ));
                    assert(expected[i].len() == rows@[i]@.len());
                }
            }
            return Ok((rest, rows));
        }
        if rest.len() >= cur.len() {
            return Err(DecodeError::Fail);
        }
        proof {
            lemma_rows_front_twice(
                before,
                seq![row],
                rows_expected(table_map, table_id, col_map_len as nat, rest@),
            );
        }
        cur = rest;
    }
}

/// Decoded pairs of rows with `old_front` and `new_front` put before them.
pub open spec fn pairs_front(
    old_front: Seq<Seq<ValueView>>,
    new_front: Seq<Seq<ValueView>>,
    r: Result<(Seq<Seq<ValueView>>, Seq<Seq<ValueView>>, Seq<u8>), DecodeError>,
) -> Result<(Seq<Seq<ValueView>>, Seq<Seq<ValueView>>, Seq<u8>), DecodeError> {
    match r {
        Ok((old_rows, new_rows, rest)) => Ok((old_front + old_rows, new_front + new_rows, rest)),
        Err(e) => Err(e),
    }
}

/// The row images of an update of table `table_id`: for each row the
/// image before the change and the image after it, pair after pair until
/// no more than the four bytes of the checksum are left. At least one pair
/// is read. A pair that takes no bytes, with more than four bytes left, is
/// refused with `Fail`.
pub open spec fn pairs_expected(table_map: &TableMap, table_id: u64, width: nat, input: Seq<u8>)
    -> Result<(Seq<Seq<ValueView>>, Seq<Seq<ValueView>>, Seq<u8>), DecodeError>
    decreases input.len(),
{
    match row_expected(table_map, table_id, width, input) {
        Err(e) => Err(e),
        Ok((old_row, middle)) => match row_expected(table_map, table_id, width, middle) {
            Err(e) => Err(e),
            Ok((new_row, rest)) => if rest.len() <= 4 {
                Ok((seq![old_row], seq![new_row], rest))
            } else if rest.len() >= input.len() {
                Err(DecodeError::Fail)
            } else {
                pairs_front(
                    seq![old_row],
                    seq![new_row],
                    pairs_expected(table_map, table_id, width, rest),
                )
            },
        },
    }
}

/// The rows of an update come in pairs, one pair at least, and each row
/// holds one value for each column of the table, null ones included.
pub proof fn lemma_pairs_count(table_map: &TableMap, table_id: u64, width: nat, input: Seq<u8>)
    ensures
        pairs_expected(table_map, table_id, width, input) is Ok ==> {
            let old_rows = pairs_expected(table_map, table_id, width, input).unwrap().0;
            let new_rows = pairs_expected(table_map, table_id, width, input).unwrap().1;
            &&& table_map.types_of(table_id) is Some
            &&& old_rows.len() >= 1
            &&& new_rows.len() == old_rows.len()
            &&& forall|i: int|
                0 <= i < old_rows.len() ==> (#[trigger] old_rows[i]).len() == table_map.types_of(
                    table_id,
                ).unwrap().len()
            &&& forall|i: int|
                0 <= i < new_rows.len() ==> (#[trigger] new_rows[i]).len() == table_map.types_of(
                    table_id,
                ).unwrap().len()
        },
    decreases input.len(),
{
    match row_expected(table_map, table_id, width, input) {
        Err(e) => {},
        Ok((old_row, middle)) => {
            let types = table_map.types_of(table_id).unwrap();
            let metas = table_map.metas_of(table_id).unwrap();
            lemma_columns_count(
                types,
                metas,
                input.take(width as int),
                0,
                input.skip(width as int),
            );
            match row_expected(table_map, table_id, width, middle) {
                Err(e) => {},
                Ok((new_row, rest)) => {
                    lemma_columns_count(
                        types,
                        metas,
                        middle.take(width as int),
                        0,
                        middle.skip(width as int),
                    );
                    if rest.len() > 4 && rest.len() < input.len() {
                        lemma_pairs_count(table_map, table_id, width, rest);
                        match pairs_expected(table_map, table_id, width, rest) {
                            Err(e) => {},
                            Ok((more_old, more_new, left)) => {
                                let old_rows = seq![old_row] + more_old;
                                let new_rows = seq![new_row] + more_new;
                                assert forall|i: int| 0 <= i < old_rows.len() implies (
                                #[trigger] old_rows[i]).len() == types.len() by {
                                    if i > 0 {
                                        assert(old_rows[i] == more_old[i - 1]);
                                    }
                                }
                                assert forall|i: int| 0 <= i < new_rows.len() implies (
                                #[trigger] new_rows[i]).len() == types.len() by {
                                    if i > 0 {
                                        assert(new_rows[i] == more_new[i - 1]);
                                    }
                                }
                            },
                        }
                    }
                },
            }
        },
    }
}

/// Whether the result of decoding pairs of rows is the expected one.
pub open spec fn pairs_decoded(
    expected: Result<(Seq<Seq<ValueView>>, Seq<Seq<ValueView>>, Seq<u8>), DecodeError>,
    r: Result<(&[u8], (Vec<Vec<Value>>, Vec<Vec<Value>>)), DecodeError>,
) -> bool {
    match r {
        Ok((rest, rows)) => expected == Ok::<
            (Seq<Seq<ValueView>>, Seq<Seq<ValueView>>, Seq<u8>),
            DecodeError,
        >((crate::value::rows_view(rows.0@), crate::value::rows_view(rows.1@), rest@)),
        Err(e) => expected == Err::<
            (Seq<Seq<ValueView>>, Seq<Seq<ValueView>>, Seq<u8>),
            DecodeError,
        >(e),
    }
}

proof fn lemma_pairs_front_twice(
    a: Seq<Seq<ValueView>>,
    b: Seq<Seq<ValueView>>,
    c: Seq<Seq<ValueView>>,
    d: Seq<Seq<ValueView>>,
    r: Result<(Seq<Seq<ValueView>>, Seq<Seq<ValueView>>, Seq<u8>), DecodeError>,
)
    ensures
        pairs_front(a, b, pairs_front(c, d, r)) == pairs_front(a + c, b + d, r),
{
    match r {
        Ok((x, y, rest)) => {
            assert(a + (c + x) =~= (a + c) + x);
            assert(b + (d + y) =~= (b + d) + y);
        },
        Err(e) => {},
    }
}

proof fn lemma_pairs_front_nothing(
    r: Result<(Seq<Seq<ValueView>>, Seq<Seq<ValueView>>, Seq<u8>), DecodeError>,
)
    ensures
        pairs_front(Seq::<Seq<ValueView>>::empty(), Seq::<Seq<ValueView>>::empty(), r) == r,
{
    match r {
        Ok((x, y, rest)) => {
            assert(Seq::<Seq<ValueView>>::empty() + x =~= x);
            assert(Seq::<Seq<ValueView>>::empty() + y =~= y);
        },
        Err(e) => {},
    }
}

/// The flags of an event header.
#[derive(Debug, Clone, Copy, PartialEq, Eq, Structural)]
pub struct EventHeaderFlag {
    pub bits: u16,
}

/// The query depends on the thread.
pub const LOG_EVENT_THREAD_SPECIFIC_F: u16 = 0x4;

/// No `USE` statement is to be generated before the statement.
pub const LOG_EVENT_SUPPRESS_USE_F: u16 = 0x8;

/// The event was created arbitrarily and is not in the binary log.
pub const LOG_EVENT_ARTIFICIAL_F: u16 = 0x20;

/// The event was written to the relay log by the IO thread of a replica.
pub const LOG_EVENT_RELAY_LOG_F: u16 = 0x40;

/// The event may be passed over by a reader that does not know its type.
pub const LOG_EVENT_IGNORABLE_F: u16 = 0x80;

/// The event is not filtered.
pub const LOG_EVENT_NO_FILTER_F: u16 = 0x100;

/// The group of events is to be executed in isolation.
pub const LOG_EVENT_MTS_ISOLATE_F: u16 = 0x200;

/// All the flags that an event header can carry.
pub const EVENT_HEADER_FLAGS: u16 = 0x3ec;

/// Whether `bits` holds flags of an event header only.
pub open spec fn known_flags(bits: u16) -> bool {
    bits & !EVENT_HEADER_FLAGS == 0
}

impl EventHeaderFlag {
    /// The flags with the given bits, unless a bit is set that names no
    /// flag.
    pub fn from_bits(bits: u16) -> (r: Option<EventHeaderFlag>)
        ensures
            r == if known_flags(bits) {
                Some(EventHeaderFlag { bits })
            } else {
                None
            },
    {
        if bits & !EVENT_HEADER_FLAGS == 0 {
            Some(EventHeaderFlag { bits })
        } else {
            None
        }
    }

    /// The bits of the flags.
    pub fn bits(&self) -> (b: u16)
        ensures
            b == self.bits,
    {
        self.bits
    }

    /// Whether every flag of `flags` is set.
    pub fn contains(&self, flags: u16) -> (b: bool)
        ensures
            b == (self.bits & flags == flags),
    {
        self.bits & flags == flags
    }
}

impl Decoder for EventHeaderFlag {
    open spec fn frame(input: Seq<u8>) -> Result<nat, DecodeError> {
        if input.len() < 2 {
            Err(DecodeError::Eof)
        } else if !known_flags(le_value(input.take(2)) as u16) {
            Err(DecodeError::Fail)
        } else {
            Ok(2)
        }
    }

    open spec fn holds(&self, input: Seq<u8>) -> bool {
        self.bits == le_value(input.take(2))
    }

    fn decode(input: &[u8]) -> (r: Result<(&[u8], Self), DecodeError>) {
        if input.len() < 2 {
            return Err(DecodeError::Eof);
        }
        let bits = le_at(input, 0, 2);
        proof {
            assert(input@.take(2) =~= input@.subrange(0, 2));
            lemma_le_value_bound(input@.take(2));
            lemma_pow256_values();
        }
        match EventHeaderFlag::from_bits(bits as u16) {
            Some(flags) => Ok((rest_from(input, 2), flags)),
            None => Err(DecodeError::Fail),
        }
    }
}

/// The type code of a table-map event.
pub const TABLE_MAP_EVENT: u8 = 19;

/// The type code of an event that writes rows.
pub const WRITE_ROWS_EVENT: u8 = 30;

/// The type code of an event that updates rows.
pub const UPDATE_ROWS_EVENT: u8 = 31;

/// The type code of an event that deletes rows.
pub const DELETE_ROWS_EVENT: u8 = 32;

/// The type code of a rotate event.
pub const ROTATE_EVENT: u8 = 4;

/// The type code of a query event.
pub const QUERY_EVENT: u8 = 2;

/// The header of an event.
#[derive(Debug, Clone, Copy)]
pub struct EventHeader {
    pub timestamp: u32,
    pub event_type: u8,
    pub server_id: u32,
    pub event_size: u32,
    pub log_pos: u32,
    pub flags: EventHeaderFlag,
}

/// The length of an event header with the status byte before it.
pub open spec fn event_header_len() -> nat {
    20
}

impl Decoder for EventHeader {
    /// A status byte, then 19 bytes of header.
    open spec fn frame(input: Seq<u8>) -> Result<nat, DecodeError> {
        if input.len() < 20 {
            Err(DecodeError::Eof)
        } else if !known_flags(le_value(input.subrange(18, 20)) as u16) {
            Err(DecodeError::Fail)
        } else {
            Ok(20)
        }
    }

    open spec fn holds(&self, input: Seq<u8>) -> bool {
        &&& self.timestamp == le_value(input.subrange(1, 5))
        &&& self.event_type == input[5]
        &&& self.server_id == le_value(input.subrange(6, 10))
        &&& self.event_size == le_value(input.subrange(10, 14))
        &&& self.log_pos == le_value(input.subrange(14, 18))
        &&& self.flags.bits == le_value(input.subrange(18, 20))
    }

    fn decode(input: &[u8]) -> (r: Result<(&[u8], Self), DecodeError>) {
        if input.len() < 20 {
            return Err(DecodeError::Eof);
        }
        proof {
            lemma_pow256_values();
            lemma_le_value_bound(input@.subrange(1, 5));
            lemma_le_value_bound(input@.subrange(6, 10));
            lemma_le_value_bound(input@.subrange(10, 14));
            lemma_le_value_bound(input@.subrange(14, 18));
            lemma_le_value_bound(input@.subrange(18, 20));
        }
        let timestamp = le_at(input, 1, 4) as u32;
        let event_type = input[5];
        let server_id = le_at(input, 6, 4) as u32;
        let event_size = le_at(input, 10, 4) as u32;
        let log_pos = le_at(input, 14, 4) as u32;
        let bits = le_at(input, 18, 2) as u16;
        match EventHeaderFlag::from_bits(bits) {
            Some(flags) => Ok(
                (
                    rest_from(input, 20),
                    EventHeader { timestamp, event_type, server_id, event_size, log_pos, flags },
                ),
            ),
            None => Err(DecodeError::Fail),
        }
    }
}

/// An event as it came: its header and the bytes after it.
#[derive(Debug, Clone)]
pub struct EventRaw {
    pub header: EventHeader,
    pub payload: Vec<u8>,
}

impl Decoder for EventRaw {
    open spec fn frame(input: Seq<u8>) -> Result<nat, DecodeError> {
        match EventHeader::frame(input) {
            Err(e) => Err(e),
            Ok(_) => Ok(input.len()),
        }
    }

    open spec fn holds(&self, input: Seq<u8>) -> bool {
        self.header.holds(input) && self.payload@ == input.skip(20)
    }

    fn decode(input: &[u8]) -> (r: Result<(&[u8], Self), DecodeError>) {
        match EventHeader::decode(input) {
            Err(e) => Err(e),
            Ok((rest, header)) => Ok(
                (rest_from(input, input.len()), EventRaw { header, payload: slice_to_vec(rest) }),
            ),
        }
    }
}

impl EventRaw {
    /// A copy of the event.
    pub fn duplicate(&self) -> (copy: EventRaw)
        ensures
            copy.header == self.header,
            copy.payload@ == self.payload@,
    {
        EventRaw { header: self.header, payload: self.payload.clone() }
    }
}

/// An event with its payload decoded.
#[derive(Debug, Clone)]
pub struct Event<P> {
    pub header: EventHeader,
    pub payload: P,
}

/// What opens a table map and a row event: the table id and flags.
#[derive(Debug, Clone, Copy)]
pub struct RowEventHeader {
    pub table_id: u64,
    pub flag: u16,
}

impl Decoder for RowEventHeader {
    open spec fn frame(input: Seq<u8>) -> Result<nat, DecodeError> {
        if input.len() < 8 {
            Err(DecodeError::Eof)
        } else {
            Ok(8)
        }
    }

    open spec fn holds(&self, input: Seq<u8>) -> bool {
        self.table_id == le_value(input.subrange(0, 6)) && self.flag == le_value(
            input.subrange(6, 8),
        )
    }

    fn decode(input: &[u8]) -> (r: Result<(&[u8], Self), DecodeError>) {
        if input.len() < 8 {
            return Err(DecodeError::Eof);
        }
        proof {
            lemma_pow256_values();
            lemma_le_value_bound(input@.subrange(6, 8));
        }
        let table_id = le_at(input, 0, 6);
        let flag = le_at(input, 6, 2) as u16;
        Ok((rest_from(input, 8), RowEventHeader { table_id, flag }))
    }
}

/// A table map: the name of a table and the kinds of its columns.
#[derive(Debug, Clone)]
pub struct TableMapEvent {
    pub header: RowEventHeader,
    pub schema_name: String,
    pub table_name: String,
    /// The number of columns, in its low eight bits.
    pub column_count: u8,
    pub column_types: Vec<u8>,
    pub column_metas: Vec<u8>,
}

/// Where the schema name of a table map ends: at the first zero byte from
/// byte 9 on.
pub open spec fn schema_end(input: Seq<u8>) -> int {
    9 + nul_index(input.skip(9)) as int
}

/// Where the table name of a table map ends: at the first zero byte after
/// the schema name, its zero byte and the length byte of the table name.
pub open spec fn table_end(input: Seq<u8>) -> int {
    schema_end(input) + 2 + nul_index(input.skip(schema_end(input) + 2))
}

/// The input of a table map from the column count on.
pub open spec fn columns_part(input: Seq<u8>) -> Seq<u8> {
    input.skip(table_end(input) + 1)
}

/// The input of a table map from the length of the metadata block on.
pub open spec fn metas_part(input: Seq<u8>) -> Seq<u8> {
    columns_part(input).skip(var_bytes_end(columns_part(input)).unwrap() as int)
}

impl Decoder for TableMapEvent {
    /// The table id and flags in 8 bytes, the length of the schema name
    /// and the name, closed by a zero byte, the same for the table name, the
    /// type codes as a length-encoded byte string, and the metadata block
    /// as another.
    open spec fn frame(input: Seq<u8>) -> Result<nat, DecodeError> {
        if input.len() < 9 {
            Err(DecodeError::Eof)
        } else if schema_end(input) + 1 >= input.len() {
            Err(DecodeError::Eof)
        } else if table_end(input) >= input.len() {
            Err(DecodeError::Eof)
        } else {
            match var_bytes_end(columns_part(input)) {
                Err(e) => Err(e),
                Ok(types_len) => match var_bytes_end(metas_part(input)) {
                    Err(e) => Err(e),
                    Ok(metas_len) => Ok((table_end(input) + 1 + types_len + metas_len) as nat),
                },
            }
        }
    }

    open spec fn holds(&self, input: Seq<u8>) -> bool {
        &&& self.header.holds(input)
        &&& self.schema_name@ == text_of(input.subrange(9, schema_end(input)))
        &&& self.table_name@ == text_of(
            input.subrange(schema_end(input) + 2, table_end(input)),
        )
        &&& self.column_count == lenenc_value(columns_part(input)) % 256
        &&& self.column_types@ == var_bytes_body(columns_part(input))
        &&& self.column_metas@ == var_bytes_body(metas_part(input))
    }

    fn decode(input: &[u8]) -> (r: Result<(&[u8], Self), DecodeError>) {
        let (_, header) = match RowEventHeader::decode(input) {
            Ok(p) => p,
            Err(e) => { return Err(e); },
        };
        if input.len() < 9 {
            return Err(DecodeError::Eof);
        }
        let s_end = find_nul(input, 9);
        if s_end >= input.len() - 1 {
            return Err(DecodeError::Eof);
        }
        let t_start = s_end + 2;
        let t_end = find_nul(input, t_start);
        if t_end >= input.len() {
            return Err(DecodeError::Eof);
        }
        let schema_name = string_of_bytes(slice_subrange(input, 9, s_end));
        let table_name = string_of_bytes(slice_subrange(input, t_start, t_end));
        let columns = rest_from(input, t_end + 1);
        let count = match take_lenenc(columns) {
            Ok((_, count)) => count,
            Err(e) => { return Err(e); },
        };
        let (after, types) = match take_var_bytes(columns) {
            Ok(p) => p,
            Err(e) => { return Err(e); },
        };
        let (rest, metas) = match take_var_bytes(after) {
            Ok(p) => p,
            Err(e) => { return Err(e); },
        };
        proof {
            let a = var_bytes_end(columns@).unwrap() as int;
            let b = var_bytes_end(after@).unwrap() as int;
            assert(rest@ =~= input@.skip(t_end + 1 + a + b));
        }
        Ok(
            (
                rest,
                TableMapEvent {
                    header,
                    schema_name,
                    table_name,
                    column_count: (count % 256) as u8,
                    column_types: slice_to_vec(types),
                    column_metas: slice_to_vec(metas),
                },
            ),
        )
    }
}

/// The number of bytes of a bitmap with one bit for each of `count`
/// columns.
pub open spec fn bitmap_len(count: nat) -> nat {
    (count + 7) / 8
}

/// Where the extra data of a row event ends: after the table id and flags
/// in 8 bytes and the length of the extra data in 2 bytes, that many bytes
/// are passed over when the length is more than 2.
pub open spec fn extra_end(input: Seq<u8>) -> int {
    let extra = le_value(input.subrange(8, 10));
    if extra > 2 {
        10 + extra as int
    } else {
        10
    }
}

/// The number of columns that a row event announces.
pub open spec fn row_event_columns(input: Seq<u8>) -> nat {
    lenenc_value(input.skip(extra_end(input)))
}

/// The bytes that the head of a row event with `bitmaps` column bitmaps
/// takes, or why the input holds none: the table id and flags, the extra
/// data, the number of columns as a length-encoded integer, and the bitmaps
/// of the columns present. More than `2^32 - 1` columns are refused with
/// `Fail`.
pub open spec fn row_event_frame(input: Seq<u8>, bitmaps: nat) -> Result<nat, DecodeError> {
    if input.len() < 10 {
        Err(DecodeError::Eof)
    } else if input.len() < extra_end(input) {
        Err(DecodeError::Eof)
    } else {
        match lenenc_size(input.skip(extra_end(input))) {
            Err(e) => Err(e),
            Ok(size) => {
                let count = row_event_columns(input);
                let end = extra_end(input) + size + bitmaps * bitmap_len(count);
                if count > 0xffff_ffff {
                    Err(DecodeError::Fail)
                } else if input.len() < end {
                    Err(DecodeError::Eof)
                } else {
                    Ok(end as nat)
                }
            },
        }
    }
}

/// Reads the head of a row event with one or two bitmaps of the columns
/// present, and hands back what follows it, the table id and flags, the
/// number of columns and the length of one bitmap.
fn decode_rows_head(input: &[u8], bitmaps: usize) -> (r: Result<
    (&[u8], RowEventHeader, u32, usize),
    DecodeError,
>)
    requires
        1 <= bitmaps <= 2,
    ensures
        match r {
            Ok((rest, header, count, map_len)) => row_event_frame(input@, bitmaps as nat) is Ok
                && rest@ == input@.skip(row_event_frame(input@, bitmaps as nat).unwrap() as int)
                && header.holds(input@) && count == row_event_columns(input@) && map_len
                == bitmap_len(count as nat),
            Err(e) => row_event_frame(input@, bitmaps as nat) == Err::<nat, DecodeError>(e),
        },
{
    let (_, header) = match RowEventHeader::decode(input) {
        Ok(p) => p,
        Err(e) => { return Err(e); },
    };
    if input.len() < 10 {
        return Err(DecodeError::Eof);
    }
    let extra = le_at(input, 8, 2);
    proof {
        lemma_le_value_bound(input@.subrange(8, 10));
        lemma_pow256_values();
    }
    let start: usize = if extra > 2 {
        if ((input.len() - 10) as u64) < extra {
            return Err(DecodeError::Eof);
        }
        10 + extra as usize
    } else {
        10
    };
    let (after, count) = match take_lenenc(rest_from(input, start)) {
        Ok(p) => p,
        Err(e) => { return Err(e); },
    };
    if count > 0xffff_ffff {
        return Err(DecodeError::Fail);
    }
    let map_len: u64 = (count + 7) / 8;
    let needed: u64 = if bitmaps == 2 {
        map_len + map_len
    } else {
        map_len
    };
    assert(needed == bitmaps * bitmap_len(count as nat)) by (nonlinear_arith)
        requires
            needed == if bitmaps == 2 {
                map_len + map_len
            } else {
                map_len as int
            },
            1 <= bitmaps <= 2,
            map_len == bitmap_len(count as nat),
    ;
    if (after.len() as u64) < needed {
        return Err(DecodeError::Eof);
    }
    let used = needed as usize;
    let rest = rest_from(after, used);
    proof {
        let size = lenenc_size(input@.skip(start as int)).unwrap() as int;
        assert(rest@ =~= input@.skip(start + size + used));
    }
    Ok((rest, header, count as u32, map_len as usize))
}

/// An event that writes rows: its head, before the row images.
#[derive(Debug, Clone)]
pub struct WriteRowEvent {
    pub header: RowEventHeader,
    pub col_count: u32,
    pub col_map_len: usize,
}

impl Decoder for WriteRowEvent {
    open spec fn frame(input: Seq<u8>) -> Result<nat, DecodeError> {
        row_event_frame(input, 1)
    }

    open spec fn holds(&self, input: Seq<u8>) -> bool {
        self.header.holds(input) && self.col_count == row_event_columns(input) && self.col_map_len
            == bitmap_len(row_event_columns(input))
    }

    fn decode(input: &[u8]) -> (r: Result<(&[u8], Self), DecodeError>) {
        match decode_rows_head(input, 1) {
            Err(e) => Err(e),
            Ok((rest, header, col_count, col_map_len)) => Ok(
                (rest, WriteRowEvent { header, col_count, col_map_len }),
            ),
        }
    }
}

impl WriteRowEvent {
    /// The rows that the event writes: see [`rows_expected`].
    pub fn decode_column_multirow_vals<'a>(
        table_map: &TableMap,
        input: &'a [u8],
        table_id: u64,
        col_map_len: usize,
    ) -> (r: Result<(&'a [u8], Vec<Vec<Value>>), DecodeError>)
        ensures
            rows_decoded(rows_expected(table_map, table_id, col_map_len as nat, input@), r),
            r is Ok ==> rows_fill(table_map, table_id, r.unwrap().1@),
    {
        decode_rows(table_map, input, table_id, col_map_len)
    }
}

/// An event that updates rows: its head, before the row images.
#[derive(Debug, Clone)]
pub struct UpdateRowEvent {
    pub header: RowEventHeader,
    pub col_map_len: usize,
}

impl Decoder for UpdateRowEvent {
    /// As the head of a write event, with two bitmaps of the columns
    /// present.
    open spec fn frame(input: Seq<u8>) -> Result<nat, DecodeError> {
        row_event_frame(input, 2)
    }

    open spec fn holds(&self, input: Seq<u8>) -> bool {
        self.header.holds(input) && self.col_map_len == bitmap_len(row_event_columns(input))
    }

    fn decode(input: &[u8]) -> (r: Result<(&[u8], Self), DecodeError>) {
        match decode_rows_head(input, 2) {
            Err(e) => Err(e),
            Ok((rest, header, _, col_map_len)) => Ok(
                (rest, UpdateRowEvent { header, col_map_len }),
            ),
        }
    }
}

impl UpdateRowEvent {
    /// The rows that the event updates, before and after the change: see
    /// [`pairs_expected`].
    pub fn fetch_rows<'a>(
        input: &'a [u8],
        table_map: &TableMap,
        table_id: u64,
        col_map_len: usize,
    ) -> (r: Result<(&'a [u8], (Vec<Vec<Value>>, Vec<Vec<Value>>)), DecodeError>)
        ensures
            pairs_decoded(pairs_expected(table_map, table_id, col_map_len as nat, input@), r),
            r is Ok ==> rows_fill(table_map, table_id, r.unwrap().1.0@) && rows_fill(
                table_map,
                table_id,
                r.unwrap().1.1@,
            ) && r.unwrap().1.0@.len() == r.unwrap().1.1@.len(),
    {
        let mut old_rows: Vec<Vec<Value>> = Vec::new();
        let mut new_rows: Vec<Vec<Value>> = Vec::new();
        let mut cur = input;
        let ghost whole = pairs_expected(table_map, table_id, col_map_len as nat, input@);
        proof {
            lemma_pairs_front_nothing(whole);
            assert(crate::value::rows_view(old_rows@) =~= Seq::<Seq<ValueView>>::empty());
            assert(crate::value::rows_view(new_rows@) =~= Seq::<Seq<ValueView>>::empty());
        }
        loop
            invariant
                whole == pairs_expected(table_map, table_id, col_map_len as nat, input@),
                whole == pairs_front(
                    crate::value::rows_view(old_rows@),
                    crate::value::rows_view(new_rows@),
                    pairs_expected(table_map, table_id, col_map_len as nat, cur@),
                ),
            decreases cur@.len(),
        {
            let ghost old_before = crate::value::rows_view(old_rows@);
            let ghost new_before = crate::value::rows_view(new_rows@);
            let (middle, old_vals) = match decode_column_vals(
                table_map,
                cur,
                table_id,
                col_map_len,
            ) {
                Ok(p) => p,
                Err(e) => { return Err(e); },
            };
            let (rest, new_vals) = match decode_column_vals(
                table_map,
                middle,
                table_id,
                col_map_len,
            ) {
                Ok(p) => p,
                Err(e) => { return Err(e); },
            };
            let ghost old_row = crate::value::row_view(old_vals@);
            let ghost new_row = crate::value::row_view(new_vals@);
            old_rows.push(old_vals);
            new_rows.push(new_vals);
            proof {
                assert(crate::value::rows_view(old_rows@) =~= old_before + seq![old_row]);
                assert(crate::value::rows_view(new_rows@) =~= new_before + seq![new_row]);
            }
            if rest.len() <= 4 {
                proof {
                    lemma_pairs_count(table_map, table_id, col_map_len as nat, input@);
                    let expected_old = whole.unwrap().0;
                    let expected_new = whole.unwrap().1;
                    assert forall|i: int| 0 <= i < old_rows@.len() implies (
                    #[trigger] old_rows@[i])@.len() == table_map.types_of(
                        table_id,
                    ).unwrap().len() by {
                        assert(crate::value::rows_view(old_rows@)[i] == crate::value::row_view(
                            old_rows@[i]@,
                        ));
                        assert(expected_old[i].len() == old_rows@[i]@.len());
                    }
                    assert forall|i: int| 0 <= i < new_rows@.len() implies (
                    #[trigger] new_rows@[i])@.len() == table_map.types_of(
                        table_id,
                    ).unwrap().len() by {
                        assert(crate::value::rows_view(new_rows@)[i] == crate::value::row_view(
                            new_rows@[i]@,
                        ));
                        assert(expected_new[i].len() == new_rows@[i]@.len());
                    }
                }
                return Ok((rest, (old_rows, new_rows)));
            }
            if rest.len() >= cur.len() {
                return Err(DecodeError::Fail);
            }
            proof {
                lemma_pairs_front_twice(
                    old_before,
                    new_before,
                    seq![old_row],
                    seq![new_row],
                    pairs_expected(table_map, table_id, col_map_len as nat, rest@),
                );
            }
            cur = rest;
        }
    }
}

/// An event that deletes rows: its head, before the row images.
#[derive(Debug, Clone)]
pub struct DeleteRowEvent {
    pub header: RowEventHeader,
    pub col_map_len: usize,
}

impl Decoder for DeleteRowEvent {
    open spec fn frame(input: Seq<u8>) -> Result<nat, DecodeError> {
        row_event_frame(input, 1)
    }

    open spec fn holds(&self, input: Seq<u8>) -> bool {
        self.header.holds(input) && self.col_map_len == bitmap_len(row_event_columns(input))
    }

    fn decode(input: &[u8]) -> (r: Result<(&[u8], Self), DecodeError>) {
        match decode_rows_head(input, 1) {
            Err(e) => Err(e),
            Ok((rest, header, _, col_map_len)) => Ok(
                (rest, DeleteRowEvent { header, col_map_len }),
            ),
        }
    }
}

impl DeleteRowEvent {
    /// The rows that the event deletes, as they were: see
    /// [`rows_expected`].
    pub fn fetch_rows<'a>(
        input: &'a [u8],
        table_map: &TableMap,
        table_id: u64,
        col_map_len: usize,
    ) -> (r: Result<(&'a [u8], Vec<Vec<Value>>), DecodeError>)
        ensures
            rows_decoded(rows_expected(table_map, table_id, col_map_len as nat, input@), r),
            r is Ok ==> rows_fill(table_map, table_id, r.unwrap().1@),
    {
        decode_rows(table_map, input, table_id, col_map_len)
    }
}

/// What opens a query event.
#[derive(Debug, Clone, Copy)]
pub struct QueryEventHeader {
    pub thread_id: u32,
    pub timestamp: u32,
    pub db_name_len: usize,
    pub error_code: u16,
    pub status_len: u16,
}

impl Decoder for QueryEventHeader {
    open spec fn frame(input: Seq<u8>) -> Result<nat, DecodeError> {
        if input.len() < 13 {
            Err(DecodeError::Eof)
        } else {
            Ok(13)
        }
    }

    open spec fn holds(&self, input: Seq<u8>) -> bool {
        &&& self.thread_id == le_value(input.subrange(0, 4))
        &&& self.timestamp == le_value(input.subrange(4, 8))
        &&& self.db_name_len == input[8]
        &&& self.error_code == le_value(input.subrange(9, 11))
        &&& self.status_len == le_value(input.subrange(11, 13))
    }

    fn decode(input: &[u8]) -> (r: Result<(&[u8], Self), DecodeError>) {
        if input.len() < 13 {
            return Err(DecodeError::Eof);
        }
        proof {
            lemma_pow256_values();
            lemma_le_value_bound(input@.subrange(0, 4));
            lemma_le_value_bound(input@.subrange(4, 8));
            lemma_le_value_bound(input@.subrange(9, 11));
            lemma_le_value_bound(input@.subrange(11, 13));
        }
        let thread_id = le_at(input, 0, 4) as u32;
        let timestamp = le_at(input, 4, 4) as u32;
        let db_name_len = input[8] as usize;
        let error_code = le_at(input, 9, 2) as u16;
        let status_len = le_at(input, 11, 2) as u16;
        Ok(
            (
                rest_from(input, 13),
                QueryEventHeader { thread_id, timestamp, db_name_len, error_code, status_len },
            ),
        )
    }
}

/// A query event: a statement and the database it ran in.
#[derive(Debug, Clone)]
pub struct QueryEvent {
    pub header: QueryEventHeader,
    pub database: String,
    pub statement: String,
}

/// Where the status variables of a query event end.
pub open spec fn status_end(input: Seq<u8>) -> int {
    13 + le_value(input.subrange(11, 13)) as int
}

/// Where the database name of a query event ends.
pub open spec fn database_end(input: Seq<u8>) -> int {
    status_end(input) + nul_index(input.skip(status_end(input)))
}

impl Decoder for QueryEvent {
    /// The head in 13 bytes, the status variables, the database name
    /// closed by a zero byte, and the statement up to the four bytes of the
    /// checksum. All of the input is taken.
    open spec fn frame(input: Seq<u8>) -> Result<nat, DecodeError> {
        if input.len() < 13 {
            Err(DecodeError::Eof)
        } else if input.len() < status_end(input) {
            Err(DecodeError::Eof)
        } else if database_end(input) >= input.len() {
            Err(DecodeError::Eof)
        } else if input.len() - (database_end(input) + 1) < 4 {
            Err(DecodeError::Eof)
        } else {
            Ok(input.len())
        }
    }

    open spec fn holds(&self, input: Seq<u8>) -> bool {
        let body = input.subrange(database_end(input) + 1, input.len() - 4);
        &&& self.header.holds(input)
        &&& self.database@ == text_of(input.subrange(status_end(input), database_end(input)))
        &&& self.statement@ == lossy_text(body)
        &&& valid_utf8(body) ==> encode_utf8(self.statement@) == body
    }

    fn decode(input: &[u8]) -> (r: Result<(&[u8], Self), DecodeError>) {
        let (_, header) = match QueryEventHeader::decode(input) {
            Ok(p) => p,
            Err(e) => { return Err(e); },
        };
        let status_len = header.status_len as usize;
        if input.len() - 13 < status_len {
            return Err(DecodeError::Eof);
        }
        let db_start = 13 + status_len;
        let db_end = find_nul(input, db_start);
        if db_end >= input.len() {
            return Err(DecodeError::Eof);
        }
        if input.len() - (db_end + 1) < 4 {
            return Err(DecodeError::Eof);
        }
        let database = string_of_bytes(slice_subrange(input, db_start, db_end));
        let (rest, statement) = match take_eof_string(
            slice_subrange(input, db_end + 1, input.len() - 4),
        ) {
            Ok(p) => p,
            Err(e) => { return Err(e); },
        };
        Ok((rest_from(input, input.len()), QueryEvent { header, database, statement }))
    }
}

/// A rotate event: the name of the binary log that follows.
#[derive(Debug, Clone)]
pub struct RotateEvent {
    pub position: u8,
    pub binlog_name: String,
}

impl Decoder for RotateEvent {
    /// One byte, then the name to the end of the input.
    open spec fn frame(input: Seq<u8>) -> Result<nat, DecodeError> {
        if input.len() < 1 {
            Err(DecodeError::Eof)
        } else {
            Ok(input.len())
        }
    }

    open spec fn holds(&self, input: Seq<u8>) -> bool {
        &&& self.position == 0
        &&& self.binlog_name@ == lossy_text(input.skip(1))
        &&& valid_utf8(input.skip(1)) ==> encode_utf8(self.binlog_name@) == input.skip(1)
    }

    fn decode(input: &[u8]) -> (r: Result<(&[u8], Self), DecodeError>) {
        if input.len() < 1 {
            return Err(DecodeError::Eof);
        }
        let (rest, binlog_name) = match take_eof_string(rest_from(input, 1)) {
            Ok(p) => p,
            Err(e) => { return Err(e); },
        };
        Ok((rest_from(input, input.len()), RotateEvent { position: 0, binlog_name }))
    }
}

} // verus!
