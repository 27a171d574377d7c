//! The wire codec: integers and strings as the MySQL protocol lays them out,
//! and the framing of packets.

use vstd::prelude::*;
use vstd::slice::*;
use vstd::string::*;
use vstd::utf8::*;
use bytes::BytesMut;
use sha1::Digest;
use sha1::Sha1;
use crate::buffer::{buf_bytes, buf_extend, buf_len, buf_put_u8, buf_set};
use crate::text::{
    lossy_text, pow10, string_from_utf8, string_from_utf8_lossy, string_of_bytes, text_of,
};

verus! {

/// Why a decoder gave up.
#[derive(Debug, Clone, Copy, PartialEq, Eq)]
pub enum DecodeError {
    /// The input ended before the value did.
    Eof,
    /// The input holds a value that the format excludes.
    Fail,
    /// The input is of a kind that this decoder does not read.
    Not,
}

/// 256 to the power `e`.
pub open spec fn pow256(e: nat) -> nat
    decreases e,
{
    if e == 0 {
        1
    } else {
        256 * pow256((e - 1) as nat)
    }
}

/// The number that the bytes write, least significant byte first.
pub open spec fn le_value(bytes: Seq<u8>) -> nat
    decreases bytes.len(),
{
    if bytes.len() == 0 {
        0
    } else {
        bytes[0] as nat + 256 * le_value(bytes.skip(1))
    }
}

/// The number that the bytes write, most significant byte first.
pub open spec fn be_value(bytes: Seq<u8>) -> nat
    decreases bytes.len(),
{
    if bytes.len() == 0 {
        0
    } else {
        256 * be_value(bytes.drop_last()) + bytes.last() as nat
    }
}

/// The `width` low bytes of `n`, least significant first.
pub open spec fn le_bytes(n: nat, width: nat) -> Seq<u8>
    decreases width,
{
    if width == 0 {
        Seq::<u8>::empty()
    } else {
        seq![(n % 256) as u8] + le_bytes(n / 256, (width - 1) as nat)
    }
}

/// The two's-complement reading of a number of `width` bytes: the upper
/// half of the numbers stands for the negative ones.
pub open spec fn signed_value(n: nat, width: nat) -> int {
    if 2 * n >= pow256(width) {
        n - pow256(width)
    } else {
        n as int
    }
}

/// The powers of 256 up to the eighth.
pub proof fn lemma_pow256_values()
    ensures
        pow256(0) == 1,
        pow256(1) == 0x100,
        pow256(2) == 0x1_0000,
        pow256(3) == 0x100_0000,
        pow256(4) == 0x1_0000_0000,
        pow256(5) == 0x100_0000_0000,
        pow256(6) == 0x1_0000_0000_0000,
        pow256(7) == 0x100_0000_0000_0000,
        pow256(8) == 0x1_0000_0000_0000_0000,
{
    reveal_with_fuel(pow256, 10);
}

/// A little-endian number of `n` bytes is below `256^n`.
pub proof fn lemma_le_value_bound(bytes: Seq<u8>)
    ensures
        le_value(bytes) < pow256(bytes.len()),
    decreases bytes.len(),
{
    if bytes.len() > 0 {
        lemma_le_value_bound(bytes.skip(1));
    }
}

/// A big-endian number of `n` bytes is below `256^n`.
pub proof fn lemma_be_value_bound(bytes: Seq<u8>)
    ensures
        be_value(bytes) < pow256(bytes.len()),
    decreases bytes.len(),
{
    if bytes.len() > 0 {
        lemma_be_value_bound(bytes.drop_last());
    }
}

/// The bytes of `le_bytes` are `width` many.
pub proof fn lemma_le_bytes_len(n: nat, width: nat)
    ensures
        le_bytes(n, width).len() == width,
    decreases width,
{
    if width > 0 {
        lemma_le_bytes_len(n / 256, (width - 1) as nat);
    }
}

/// Reading back what `le_bytes` wrote gives the number, when it fits.
pub proof fn lemma_le_round_trip(n: nat, width: nat)
    requires
        n < pow256(width),
    ensures
        le_value(le_bytes(n, width)) == n,
    decreases width,
{
    if width > 0 {
        let rest = le_bytes(n / 256, (width - 1) as nat);
        lemma_le_round_trip(n / 256, (width - 1) as nat);
        let all = le_bytes(n, width);
        assert(all.skip(1) =~= rest);
        assert(all[0] == (n % 256) as u8);
    }
}

/// Reads `n` bytes at `pos` as a little-endian number.
pub fn le_at(input: &[u8], pos: usize, n: usize) -> (v: u64)
    requires
        n <= 8,
        pos + n <= input@.len(),
    ensures
        v == le_value(input@.subrange(pos as int, pos + n)),
{
    let mut acc: u64 = 0;
    let mut k: usize = n;
    let _ = input.len();
    proof {
        lemma_pow256_values();
    }
    while k > 0
        invariant
            k <= n <= 8,
            pos + n <= input@.len() <= usize::MAX,
            acc == le_value(input@.subrange(pos + k, pos + n)),
            acc < pow256((n - k) as nat),
        decreases k,
    {
        k = k - 1;
        let b = input[pos + k];
        proof {
            lemma_pow256_values();
            let s = input@.subrange(pos + k, pos + n);
            assert(s.skip(1) =~= input@.subrange(pos + k + 1, pos + n));
            assert(s[0] == b);
            lemma_le_value_bound(s);
            assert(pow256((n - k) as nat) == 256 * pow256((n - k - 1) as nat));
            lemma_pow256_monotonic((n - k) as nat, 8);
        }
        acc = acc * 256 + b as u64;
    }
    acc
}

/// Reads `n` bytes at `pos` as a big-endian number.
pub fn be_at(input: &[u8], pos: usize, n: usize) -> (v: u64)
    requires
        n <= 8,
        pos + n <= input@.len(),
    ensures
        v == be_value(input@.subrange(pos as int, pos + n)),
{
    let mut acc: u64 = 0;
    let mut k: usize = 0;
    let _ = input.len();
    proof {
        lemma_pow256_values();
    }
    while k < n
        invariant
            k <= n <= 8,
            pos + n <= input@.len() <= usize::MAX,
            acc == be_value(input@.subrange(pos as int, pos + k)),
            acc < pow256(k as nat),
        decreases n - k,
    {
        let b = input[pos + k];
        proof {
            lemma_pow256_values();
            let s = input@.subrange(pos as int, pos + k + 1);
            assert(s.drop_last() =~= input@.subrange(pos as int, pos + k));
            assert(s.last() == b);
            lemma_be_value_bound(s);
            assert(pow256((k + 1) as nat) == 256 * pow256(k as nat));
            lemma_pow256_monotonic((k + 1) as nat, 8);
        }
        acc = acc * 256 + b as u64;
        k = k + 1;
    }
    acc
}

/// The powers of 256 do not fall, and none is zero.
pub proof fn lemma_pow256_monotonic(a: nat, b: nat)
    requires
        a <= b,
    ensures
        pow256(a) <= pow256(b),
        pow256(a) >= 1,
    decreases b,
{
    if a < b {
        lemma_pow256_monotonic(a, (b - 1) as nat);
    } else if a > 0 {
        lemma_pow256_monotonic((a - 1) as nat, (a - 1) as nat);
    }
}

/// The rest of `input` from `pos` on.
pub fn rest_from(input: &[u8], pos: usize) -> (rest: &[u8])
    requires
        pos <= input@.len(),
    ensures
        rest@ == input@.skip(pos as int),
{
    slice_subrange(input, pos, input.len())
}

/// What the little-endian readers of fixed width return: the number in the
/// first `width` bytes and the input after them, or `Eof` on a shorter input.
pub open spec fn le_taken(input: Seq<u8>, width: nat, r: Result<(&[u8], u64), DecodeError>) -> bool {
    match r {
        Ok((rest, v)) => input.len() >= width && rest@ == input.skip(width as int) && v
            == le_value(input.take(width as int)),
        Err(e) => input.len() < width && e == DecodeError::Eof,
    }
}

fn take_le(i: &[u8], width: usize) -> (r: Result<(&[u8], u64), DecodeError>)
    requires
        width <= 8,
    ensures
        le_taken(i@, width as nat, r),
        r is Ok ==> r.unwrap().1 < pow256(width as nat),
{
    if i.len() < width {
        return Err(DecodeError::Eof);
    }
    let v = le_at(i, 0, width);
    proof {
        assert(i@.take(width as int) =~= i@.subrange(0, width as int));
        lemma_le_value_bound(i@.take(width as int));
    }
    Ok((rest_from(i, width), v))
}

/// One byte.
pub fn take_int1(i: &[u8]) -> (r: Result<(&[u8], u8), DecodeError>)
    ensures
        match r {
            Ok((rest, v)) => i@.len() >= 1 && rest@ == i@.skip(1) && v == i@[0],
            Err(e) => i@.len() < 1 && e == DecodeError::Eof,
        },
{
    if i.len() < 1 {
        return Err(DecodeError::Eof);
    }
    Ok((rest_from(i, 1), i[0]))
}

/// Two bytes, little-endian.
pub fn take_int2(i: &[u8]) -> (r: Result<(&[u8], u16), DecodeError>)
    ensures
        match r {
            Ok((rest, v)) => i@.len() >= 2 && rest@ == i@.skip(2) && v == le_value(i@.take(2)),
            Err(e) => i@.len() < 2 && e == DecodeError::Eof,
        },
{
    proof {
        lemma_pow256_values();
    }
    match take_le(i, 2) {
        Ok((rest, v)) => Ok((rest, v as u16)),
        Err(e) => Err(e),
    }
}

/// Three bytes, little-endian.
pub fn take_int3(i: &[u8]) -> (r: Result<(&[u8], u32), DecodeError>)
    ensures
        match r {
            Ok((rest, v)) => i@.len() >= 3 && rest@ == i@.skip(3) && v == le_value(i@.take(3)),
            Err(e) => i@.len() < 3 && e == DecodeError::Eof,
        },
{
    proof {
        lemma_pow256_values();
    }
    match take_le(i, 3) {
        Ok((rest, v)) => Ok((rest, v as u32)),
        Err(e) => Err(e),
    }
}

/// Three bytes, little-endian, in two's complement: the sign is that of
/// the third byte.
pub fn take_i_int3(i: &[u8]) -> (r: Result<(&[u8], i32), DecodeError>)
    ensures
        match r {
            Ok((rest, v)) => i@.len() >= 3 && rest@ == i@.skip(3) && v == signed_value(
                le_value(i@.take(3)),
                3,
            ),
            Err(e) => i@.len() < 3 && e == DecodeError::Eof,
        },
{
    proof {
        lemma_pow256_values();
    }
    match take_le(i, 3) {
        Ok((rest, v)) => Ok((rest, signed24(v as u32))),
        Err(e) => Err(e),
    }
}

/// Four bytes, little-endian.
pub fn take_int4(i: &[u8]) -> (r: Result<(&[u8], u32), DecodeError>)
    ensures
        match r {
            Ok((rest, v)) => i@.len() >= 4 && rest@ == i@.skip(4) && v == le_value(i@.take(4)),
            Err(e) => i@.len() < 4 && e == DecodeError::Eof,
        },
{
    proof {
        lemma_pow256_values();
    }
    match take_le(i, 4) {
        Ok((rest, v)) => Ok((rest, v as u32)),
        Err(e) => Err(e),
    }
}

/// Four bytes, little-endian, in two's complement.
pub fn take_i_int4(i: &[u8]) -> (r: Result<(&[u8], i32), DecodeError>)
    ensures
        match r {
            Ok((rest, v)) => i@.len() >= 4 && rest@ == i@.skip(4) && v == signed_value(
                le_value(i@.take(4)),
                4,
            ),
            Err(e) => i@.len() < 4 && e == DecodeError::Eof,
        },
{
    proof {
        lemma_pow256_values();
    }
    match take_le(i, 4) {
        Ok((rest, v)) => Ok((rest, signed32(v as u32))),
        Err(e) => Err(e),
    }
}

/// Five bytes, little-endian.
pub fn take_int5(i: &[u8]) -> (r: Result<(&[u8], u64), DecodeError>)
    ensures
        le_taken(i@, 5, r),
{
    take_le(i, 5)
}

/// Six bytes, little-endian.
pub fn take_int6(i: &[u8]) -> (r: Result<(&[u8], u64), DecodeError>)
    ensures
        le_taken(i@, 6, r),
{
    take_le(i, 6)
}

/// Seven bytes, little-endian.
pub fn take_int7(i: &[u8]) -> (r: Result<(&[u8], u64), DecodeError>)
    ensures
        le_taken(i@, 7, r),
{
    take_le(i, 7)
}

/// Eight bytes, little-endian.
pub fn take_int8(i: &[u8]) -> (r: Result<(&[u8], u64), DecodeError>)
    ensures
        le_taken(i@, 8, r),
{
    take_le(i, 8)
}

/// Eight bytes, little-endian, in two's complement.
pub fn take_i_int8(i: &[u8]) -> (r: Result<(&[u8], i64), DecodeError>)
    ensures
        match r {
            Ok((rest, v)) => i@.len() >= 8 && rest@ == i@.skip(8) && v == signed_value(
                le_value(i@.take(8)),
                8,
            ),
            Err(e) => i@.len() < 8 && e == DecodeError::Eof,
        },
{
    match take_le(i, 8) {
        Ok((rest, v)) => Ok((rest, signed64(v))),
        Err(e) => Err(e),
    }
}

/// The two's-complement reading of 24 bits.
fn signed24(v: u32) -> (s: i32)
    requires
        v < 0x100_0000,
    ensures
        s == signed_value(v as nat, 3),
{
    proof {
        lemma_pow256_values();
    }
    if v >= 0x80_0000 {
        (v as i32) - 0x100_0000
    } else {
        v as i32
    }
}

/// The two's-complement reading of 32 bits.
pub fn signed32(v: u32) -> (s: i32)
    ensures
        s == signed_value(v as nat, 4),
{
    proof {
        lemma_pow256_values();
    }
    if v >= 0x8000_0000 {
        ((v - 0x8000_0000) as i32) + i32::MIN
    } else {
        v as i32
    }
}

/// The two's-complement reading of 64 bits.
pub fn signed64(v: u64) -> (s: i64)
    ensures
        s == signed_value(v as nat, 8),
{
    proof {
        lemma_pow256_values();
    }
    if v >= 0x8000_0000_0000_0000 {
        ((v - 0x8000_0000_0000_0000) as i64) + i64::MIN
    } else {
        v as i64
    }
}

/// The width that `take_int_n` reads for a requested width: itself from 1
/// to 8, and nothing otherwise.
pub open spec fn int_n_width(n: nat) -> nat {
    if 1 <= n <= 8 {
        n
    } else {
        0
    }
}

/// A little-endian number of `n` bytes, for `n` from 1 to 8; for any other
/// `n` nothing is read and the number is 0.
pub fn take_int_n(i: &[u8], n: usize) -> (r: Result<(&[u8], u64), DecodeError>)
    ensures
        le_taken(i@, int_n_width(n as nat), r),
{
    if 1 <= n && n <= 8 {
        take_le(i, n)
    } else {
        assert(i@.take(0) =~= Seq::<u8>::empty());
        Ok((rest_from(i, 0), 0))
    }
}

/// The number that `take_be_int` makes of the bytes it took: for four and
/// for eight bytes the two's-complement reading, for the other widths up to
/// eight the plain big-endian number, and 0 for none or more than eight.
pub open spec fn be_int_value(bytes: Seq<u8>) -> int {
    if bytes.len() == 4 {
        signed_value(be_value(bytes), 4)
    } else if bytes.len() == 8 {
        signed_value(be_value(bytes), 8)
    } else if 1 <= bytes.len() <= 7 {
        be_value(bytes) as int
    } else {
        0
    }
}

/// A big-endian number of `n` bytes.
pub fn take_be_int(i: &[u8], n: usize) -> (r: Result<(&[u8], i64), DecodeError>)
    ensures
        match r {
            Ok((rest, v)) => i@.len() >= n && rest@ == i@.skip(n as int) && v == be_int_value(
                i@.take(n as int),
            ),
            Err(e) => i@.len() < n && e == DecodeError::Eof,
        },
{
    if i.len() < n {
        return Err(DecodeError::Eof);
    }
    let rest = rest_from(i, n);
    proof {
        assert(i@.take(n as int) =~= i@.subrange(0, n as int));
        lemma_be_value_bound(i@.take(n as int));
        lemma_pow256_values();
    }
    if n == 0 || n > 8 {
        Ok((rest, 0))
    } else {
        let raw = be_at(i, 0, n);
        if n == 4 {
            Ok((rest, signed32(raw as u32) as i64))
        } else if n == 8 {
            Ok((rest, signed64(raw)))
        } else {
            proof {
                lemma_pow256_monotonic(n as nat, 7);
            }
            Ok((rest, raw as i64))
        }
    }
}

/// The index of the first zero byte, or the length where there is none.
pub open spec fn nul_index(bytes: Seq<u8>) -> nat
    decreases bytes.len(),
{
    if bytes.len() == 0 || bytes[0] == 0 {
        0
    } else {
        1 + nul_index(bytes.skip(1))
    }
}

/// Finds the first zero byte at or after `pos`.
pub fn find_nul(input: &[u8], pos: usize) -> (k: usize)
    requires
        pos <= input@.len(),
    ensures
        k == pos + nul_index(input@.skip(pos as int)),
        pos <= k <= input@.len(),
{
    let mut k: usize = pos;
    while k < input.len() && input[k] != 0
        invariant
            pos <= k <= input@.len(),
            pos + nul_index(input@.skip(pos as int)) == k + nul_index(input@.skip(k as int)),
        decreases input@.len() - k,
    {
        proof {
            let s = input@.skip(k as int);
            assert(s[0] == input@[k as int]);
            assert(s.skip(1) =~= input@.skip(k + 1));
        }
        k = k + 1;
    }
    proof {
        let s = input@.skip(k as int);
        if k < input@.len() {
            assert(s[0] == input@[k as int]);
        }
    }
    k
}

/// A string that ends at the first zero byte; the zero byte is taken too.
/// Bytes that are not UTF-8 give the empty string.
pub fn take_utf8_end_of_null(i: &[u8]) -> (r: Result<(&[u8], String), DecodeError>)
    ensures
        match r {
            Ok((rest, s)) => nul_index(i@) < i@.len() && rest@ == i@.skip(nul_index(i@) as int + 1)
                && s@ == text_of(i@.take(nul_index(i@) as int)),
            Err(e) => nul_index(i@) == i@.len() && e == DecodeError::Eof,
        },
{
    let k = find_nul(i, 0);
    assert(i@.skip(0) =~= i@);
    if k >= i.len() {
        return Err(DecodeError::Eof);
    }
    let s = string_of_bytes(slice_subrange(i, 0, k));
    assert(i@.take(k as int) =~= i@.subrange(0, k as int));
    Ok((rest_from(i, k + 1), s))
}

/// The first `size` bytes.
pub fn take_bytes(i: &[u8], size: usize) -> (r: Result<(&[u8], &[u8]), DecodeError>)
    ensures
        match r {
            Ok((rest, bs)) => i@.len() >= size && rest@ == i@.skip(size as int) && bs@ == i@.take(
                size as int,
            ),
            Err(e) => i@.len() < size && e == DecodeError::Eof,
        },
{
    if i.len() < size {
        return Err(DecodeError::Eof);
    }
    let bs = slice_subrange(i, 0, size);
    assert(bs@ =~= i@.take(size as int));
    Ok((rest_from(i, size), bs))
}

/// How many bytes a length-encoded integer takes at the head of `input`, or
/// why there is none: the first byte stands for itself up to `0xFB`, and
/// announces 2, 3 or 8 further bytes as `0xFC`, `0xFD` or `0xFE`; `0xFF`
/// is excluded.
pub open spec fn lenenc_size(input: Seq<u8>) -> Result<nat, DecodeError> {
    if input.len() == 0 {
        Err(DecodeError::Eof)
    } else if input[0] <= 0xfb {
        Ok(1)
    } else if input[0] == 0xff {
        Err(DecodeError::Fail)
    } else {
        let size: nat = if input[0] == 0xfc {
            3
        } else if input[0] == 0xfd {
            4
        } else {
            9
        };
        if input.len() < size {
            Err(DecodeError::Eof)
        } else {
            Ok(size)
        }
    }
}

/// The value of the length-encoded integer at the head of `input`.
pub open spec fn lenenc_value(input: Seq<u8>) -> nat {
    if input[0] <= 0xfb {
        input[0] as nat
    } else {
        le_value(input.subrange(1, lenenc_size(input).unwrap() as int))
    }
}

/// The length-encoded integer at the head of the input.
pub fn take_lenenc(i: &[u8]) -> (r: Result<(&[u8], u64), DecodeError>)
    ensures
        match r {
            Ok((rest, v)) => lenenc_size(i@) is Ok && rest@ == i@.skip(
                lenenc_size(i@).unwrap() as int,
            ) && v == lenenc_value(i@),
            Err(e) => lenenc_size(i@) == Err::<nat, DecodeError>(e),
        },
{
    if i.len() == 0 {
        return Err(DecodeError::Eof);
    }
    let tag = i[0];
    if tag <= 0xfb {
        Ok((rest_from(i, 1), tag as u64))
    } else if tag == 0xff {
        Err(DecodeError::Fail)
    } else {
        let width: usize = if tag == 0xfc {
            2
        } else if tag == 0xfd {
            3
        } else {
            8
        };
        if i.len() < width + 1 {
            return Err(DecodeError::Eof);
        }
        let v = le_at(i, 1, width);
        Ok((rest_from(i, width + 1), v))
    }
}

/// Where a length-encoded byte string ends at the head of `input`, or why
/// there is none.
pub open spec fn var_bytes_end(input: Seq<u8>) -> Result<nat, DecodeError> {
    match lenenc_size(input) {
        Err(e) => Err(e),
        Ok(size) => if input.len() - size < lenenc_value(input) {
            Err(DecodeError::Eof)
        } else {
            Ok(size + lenenc_value(input))
        },
    }
}

/// The bytes of the length-encoded byte string at the head of `input`.
pub open spec fn var_bytes_body(input: Seq<u8>) -> Seq<u8> {
    input.subrange(lenenc_size(input).unwrap() as int, var_bytes_end(input).unwrap() as int)
}

/// A length-encoded byte string: a length-encoded integer, then that many
/// bytes.
pub fn take_var_bytes(i: &[u8]) -> (r: Result<(&[u8], &[u8]), DecodeError>)
    ensures
        match r {
            Ok((rest, bs)) => var_bytes_end(i@) is Ok && rest@ == i@.skip(
                var_bytes_end(i@).unwrap() as int,
            ) && bs@ == var_bytes_body(i@),
            Err(e) => var_bytes_end(i@) == Err::<nat, DecodeError>(e),
        },
{
    let (after, len) = match take_lenenc(i) {
        Ok(p) => p,
        Err(e) => { return Err(e); },
    };
    if len > after.len() as u64 {
        return Err(DecodeError::Eof);
    }
    let n = len as usize;
    let bs = slice_subrange(after, 0, n);
    let rest = rest_from(after, n);
    proof {
        let size = lenenc_size(i@).unwrap() as int;
        assert(bs@ =~= var_bytes_body(i@));
        assert(rest@ =~= i@.skip(size + n));
    }
    Ok((rest, bs))
}

/// A length-encoded string. Bytes that are not UTF-8 are refused with `Eof`.
pub fn take_var_string(i: &[u8]) -> (r: Result<(&[u8], String), DecodeError>)
    ensures
        match r {
            Ok((rest, s)) => var_bytes_end(i@) is Ok && valid_utf8(var_bytes_body(i@)) && rest@
                == i@.skip(var_bytes_end(i@).unwrap() as int) && encode_utf8(s@) == var_bytes_body(
                i@,
            ),
            Err(e) => if var_bytes_end(i@) is Ok {
                !valid_utf8(var_bytes_body(i@)) && e == DecodeError::Eof
            } else {
                var_bytes_end(i@) == Err::<nat, DecodeError>(e)
            },
        },
{
    let (rest, bs) = match take_var_bytes(i) {
        Ok(p) => p,
        Err(e) => { return Err(e); },
    };
    match string_from_utf8(slice_to_vec(bs)) {
        Some(s) => Ok((rest, s)),
        None => Err(DecodeError::Eof),
    }
}

/// The whole input as a string, ill-formed bytes replaced: nothing is left.
pub fn take_eof_string(i: &[u8]) -> (r: Result<(&[u8], String), DecodeError>)
    ensures
        r is Ok,
        r.unwrap().0@.len() == 0,
        r.unwrap().1@ == lossy_text(i@),
        valid_utf8(i@) ==> encode_utf8(r.unwrap().1@) == i@,
{
    let s = string_from_utf8_lossy(i);
    Ok((rest_from(i, i.len()), s))
}

/// A string of `len` bytes. Bytes that are not UTF-8 give the empty string.
pub fn take_fix_string(i: &[u8], len: usize) -> (r: Result<(&[u8], String), DecodeError>)
    ensures
        match r {
            Ok((rest, s)) => i@.len() >= len && rest@ == i@.skip(len as int) && s@ == text_of(
                i@.take(len as int),
            ),
            Err(e) => i@.len() < len && e == DecodeError::Eof,
        },
{
    match take_bytes(i, len) {
        Ok((rest, bs)) => Ok((rest, string_of_bytes(bs))),
        Err(e) => Err(e),
    }
}

/// The bytes that hold the fraction of a second at precision `fsp`: half of
/// `fsp`, rounded up, from 1 to 6, and none otherwise.
pub open spec fn fps_width(fsp: u8) -> nat {
    if 1 <= fsp <= 6 {
        ((fsp + 1) / 2) as nat
    } else {
        0
    }
}

/// The microseconds that the stored fraction `raw` stands for at precision
/// `fsp`: an odd precision stores one digit too many, which is dropped, and
/// the digits are then scaled to six places.
pub open spec fn fps_micros(fsp: u8, raw: nat) -> nat {
    if 1 <= fsp <= 6 {
        (if fsp % 2 == 1 {
            raw / 10
        } else {
            raw
        }) * pow10((6 - fsp) as nat)
    } else {
        0
    }
}

/// Ten to the power `e`, for `e` up to 5.
pub fn pow10_small(e: u8) -> (p: u32)
    requires
        e <= 5,
    ensures
        p == pow10(e as nat),
{
    proof {
        reveal_with_fuel(pow10, 7);
    }
    if e == 0 {
        1
    } else if e == 1 {
        10
    } else if e == 2 {
        100
    } else if e == 3 {
        1000
    } else if e == 4 {
        10000
    } else {
        100000
    }
}

/// The fraction of a second at precision `fsp`, in microseconds.
pub fn read_fps(i: &[u8], fsp: u8) -> (r: Result<(&[u8], u32), DecodeError>)
    ensures
        match r {
            Ok((rest, v)) => i@.len() >= fps_width(fsp) && rest@ == i@.skip(fps_width(fsp) as int)
                && v == fps_micros(fsp, be_value(i@.take(fps_width(fsp) as int))),
            Err(e) => i@.len() < fps_width(fsp) && e == DecodeError::Eof,
        },
{
    if fsp < 1 || fsp > 6 {
        return Ok((rest_from(i, 0), 0));
    }
    let width: usize = ((fsp + 1) / 2) as usize;
    if i.len() < width {
        return Err(DecodeError::Eof);
    }
    let raw = be_at(i, 0, width);
    proof {
        assert(i@.take(width as int) =~= i@.subrange(0, width as int));
        lemma_be_value_bound(i@.take(width as int));
        lemma_pow256_values();
        reveal_with_fuel(pow10, 7);
    }
    let digits: u64 = if fsp % 2 == 1 {
        raw / 10
    } else {
        raw
    };
    let scale = pow10_small(6 - fsp);
    assert(digits * scale <= 0xffff_ffff) by (nonlinear_arith)
        requires
            (fsp == 1 && digits <= 25 && scale == 100000) || (fsp == 2 && digits <= 255 && scale
                == 10000) || (fsp == 3 && digits <= 6553 && scale == 1000) || (fsp == 4 && digits
                <= 65535 && scale == 100) || (fsp == 5 && digits <= 1677721 && scale == 10) || (fsp
                == 6 && digits <= 16777215 && scale == 1),
    ;
    let micros = digits * (scale as u64);
    Ok((rest_from(i, width), micros as u32))
}

/// The bytes of a length-encoded integer: up to 250 the number itself, and
/// beyond that a marker byte, `0xFC`, `0xFD` or `0xFE`, before 2, 3 or 8
/// little-endian bytes.
pub open spec fn lenenc_bytes(n: nat) -> Seq<u8> {
    if n <= 250 {
        seq![n as u8]
    } else if n <= 0xffff {
        seq![0xfcu8] + le_bytes(n, 2)
    } else if n <= 0xff_ffff {
        seq![0xfdu8] + le_bytes(n, 3)
    } else {
        seq![0xfeu8] + le_bytes(n, 8)
    }
}

/// A length-encoded integer that was written is read back as it was,
/// whatever follows it.
pub proof fn lemma_lenenc_round_trip(n: nat, tail: Seq<u8>)
    requires
        n <= u64::MAX,
    ensures
        lenenc_size(lenenc_bytes(n) + tail) == Ok::<nat, DecodeError>(lenenc_bytes(n).len()),
        lenenc_value(lenenc_bytes(n) + tail) == n,
        (lenenc_bytes(n) + tail).skip(lenenc_bytes(n).len() as int) == tail,
{
    let enc = lenenc_bytes(n);
    let all = enc + tail;
    lemma_pow256_values();
    assert(all.skip(enc.len() as int) =~= tail);
    if n <= 250 {
    } else {
        let width: nat = if n <= 0xffff {
            2
        } else if n <= 0xff_ffff {
            3
        } else {
            8
        };
        lemma_le_bytes_len(n, width);
        lemma_le_round_trip(n, width);
        assert(all.subrange(1, 1 + width as int) =~= le_bytes(n, width));
        assert(all[0] == enc[0]);
    }
}

/// Writes the `width` low bytes of `n`, least significant first.
pub fn put_le(buf: &mut BytesMut, n: u64, width: usize)
    ensures
        buf_bytes(*final(buf)) == buf_bytes(*old(buf)) + le_bytes(n as nat, width as nat),
{
    let mut rest: u64 = n;
    let mut k: usize = 0;
    assert(buf_bytes(*buf) + le_bytes(n as nat, width as nat) =~= buf_bytes(*old(buf)) + le_bytes(
        n as nat,
        width as nat,
    ));
    while k < width
        invariant
            k <= width,
            buf_bytes(*buf) + le_bytes(rest as nat, (width - k) as nat) == buf_bytes(*old(buf))
                + le_bytes(n as nat, width as nat),
        decreases width - k,
    {
        let ghost before = buf_bytes(*buf);
        buf_put_u8(buf, (rest % 256) as u8);
        proof {
            assert(before.push((rest % 256) as u8) + le_bytes(
                (rest / 256) as nat,
                (width - k - 1) as nat,
            ) =~= before + le_bytes(rest as nat, (width - k) as nat));
        }
        rest = rest / 256;
        k = k + 1;
    }
    assert(buf_bytes(*buf) + le_bytes(rest as nat, 0) =~= buf_bytes(*buf));
}

/// Writes a length-encoded integer.
pub fn put_lenenc(buf: &mut BytesMut, n: u64)
    ensures
        buf_bytes(*final(buf)) == buf_bytes(*old(buf)) + lenenc_bytes(n as nat),
{
    if n <= 250 {
        buf_put_u8(buf, n as u8);
    } else if n <= 0xffff {
        buf_put_u8(buf, 0xfc);
        put_le(buf, n, 2);
    } else if n <= 0xff_ffff {
        buf_put_u8(buf, 0xfd);
        put_le(buf, n, 3);
    } else {
        buf_put_u8(buf, 0xfe);
        put_le(buf, n, 8);
    }
    assert(buf_bytes(*buf) =~= buf_bytes(*old(buf)) + lenenc_bytes(n as nat));
}

/// Writes a length-encoded byte string: the length, then the bytes.
pub fn write_var_bytes(buf: &mut BytesMut, input: &[u8])
    ensures
        buf_bytes(*final(buf)) == buf_bytes(*old(buf)) + lenenc_bytes(input@.len()) + input@,
{
    put_lenenc(buf, input.len() as u64);
    buf_extend(buf, input);
}

/// Writes the bytes of a string and a closing zero byte.
pub fn write_null_term_str(buf: &mut BytesMut, s: &str)
    ensures
        buf_bytes(*final(buf)) == (buf_bytes(*old(buf)) + s.spec_bytes()).push(0u8),
{
    write_null_term_bytes(buf, s.as_bytes());
}

/// Writes the bytes and a closing zero byte.
pub fn write_null_term_bytes(buf: &mut BytesMut, bs: &[u8])
    ensures
        buf_bytes(*final(buf)) == (buf_bytes(*old(buf)) + bs@).push(0u8),
{
    buf_extend(buf, bs);
    buf_put_u8(buf, 0);
}

/// Writes a string as a length-encoded byte string.
pub fn write_var_str(buf: &mut BytesMut, s: &str)
    ensures
        buf_bytes(*final(buf)) == buf_bytes(*old(buf)) + lenenc_bytes(s.spec_bytes().len())
            + s.spec_bytes(),
{
    write_var_bytes(buf, s.as_bytes());
}

/// A value that can be read from the head of a byte run.
pub trait Decoder: Sized {
    /// How many bytes of `input` the value takes up, or why `input` holds
    /// none.
    spec fn frame(input: Seq<u8>) -> Result<nat, DecodeError>;

    /// Whether `self` is the value that `input` holds.
    spec fn holds(&self, input: Seq<u8>) -> bool;

    /// Reads the value and hands back what follows it.
    fn decode(input: &[u8]) -> (r: Result<(&[u8], Self), DecodeError>)
        ensures
            match r {
                Ok((rest, v)) => Self::frame(input@) is Ok && rest@ == input@.skip(
                    Self::frame(input@).unwrap() as int,
                ) && v.holds(input@),
                Err(e) => Self::frame(input@) == Err::<nat, DecodeError>(e),
            },
    ;
}

/// A value that can be written into a buffer.
pub trait Encoder {
    /// The bytes that stand for `self`.
    spec fn encoding(&self) -> Seq<u8>;

    /// Adds the bytes of `self` at the end of `buffer`.
    fn encode(&self, buffer: &mut BytesMut)
        ensures
            buf_bytes(*final(buffer)) == buf_bytes(*old(buffer)) + self.encoding(),
    ;
}

/// A payload taken as it is: all of the input.
impl Decoder for Vec<u8> {
    open spec fn frame(input: Seq<u8>) -> Result<nat, DecodeError> {
        Ok(input.len())
    }

    open spec fn holds(&self, input: Seq<u8>) -> bool {
        self@ == input
    }

    fn decode(input: &[u8]) -> (r: Result<(&[u8], Self), DecodeError>) {
        Ok((rest_from(input, input.len()), slice_to_vec(input)))
    }
}

/// The head of a packet: the length of its payload and its sequence id.
#[derive(Debug, Clone, Copy)]
pub struct Header {
    pub len: u32,
    pub serial_id: u32,
}

impl Decoder for Header {
    open spec fn frame(input: Seq<u8>) -> Result<nat, DecodeError> {
        if input.len() < 4 {
            Err(DecodeError::Eof)
        } else {
            Ok(input.len())
        }
    }

    open spec fn holds(&self, input: Seq<u8>) -> bool {
        self.len == le_value(input.take(3)) && self.serial_id == input[3]
    }

    fn decode(input: &[u8]) -> (r: Result<(&[u8], Self), DecodeError>) {
        if input.len() < 4 {
            return Err(DecodeError::Eof);
        }
        let len = le_at(input, 0, 3);
        proof {
            assert(input@.take(3) =~= input@.subrange(0, 3));
            lemma_le_value_bound(input@.take(3));
            lemma_pow256_values();
        }
        Ok((rest_from(input, input.len()), Header { len: len as u32, serial_id: input[3] as u32 }))
    }
}

/// The longest payload of one packet. A payload of this length is followed
/// by a further packet of the same message.
pub const MAX_PAYLOAD: u32 = 0xff_ffff;

impl Header {
    /// Whether the message goes on in a further packet: the payload has
    /// the greatest length that a packet can announce.
    pub fn is_full(&self) -> (b: bool)
        ensures
            b == (self.len == MAX_PAYLOAD),
    {
        self.len == MAX_PAYLOAD
    }
}

/// A packet: its head and its decoded payload.
#[derive(Debug, Clone)]
pub struct Packet<P> {
    pub header: Header,
    pub payload: P,
}

/// The bytes of a packet: the length of the payload in three little-endian
/// bytes, the sequence id, the payload. A length of `2^24` or more is
/// written by its low three bytes.
pub open spec fn package_bytes(serial_id: u8, payload: Seq<u8>) -> Seq<u8> {
    le_bytes(payload.len() % 0x100_0000, 3) + seq![serial_id] + payload
}

/// The payload length that the head of `input` announces.
pub open spec fn package_len(input: Seq<u8>) -> nat {
    le_value(input.take(3))
}

/// The three low bytes of a number, written out.
pub proof fn lemma_le_bytes_3(n: nat)
    ensures
        le_bytes(n, 3) == seq![(n % 256) as u8, ((n / 256) % 256) as u8, ((n / 65536) % 256) as u8],
{
    reveal_with_fuel(le_bytes, 4);
    assert((n / 256) / 256 == n / 65536) by (nonlinear_arith);
    assert(le_bytes(n, 3) =~= seq![
        (n % 256) as u8,
        ((n / 256) % 256) as u8,
        ((n / 65536) % 256) as u8,
    ]);
}

/// Frames a payload as a packet at the end of `buf`: a four-byte head is
/// written first, the payload after it, and the length is then set in the
/// head.
pub fn encode_package<P: Encoder>(buf: &mut BytesMut, serial_id: u8, payload: &P)
    ensures
        buf_bytes(*final(buf)) == buf_bytes(*old(buf)) + package_bytes(
            serial_id,
            payload.encoding(),
        ),
{
    let start = buf_len(buf);
    buf_put_u8(buf, 0);
    buf_put_u8(buf, 0);
    buf_put_u8(buf, 0);
    buf_put_u8(buf, serial_id);
    payload.encode(buf);
    let end = buf_len(buf);
    let len = end - start - 4;
    let low = len % 0x100_0000;
    buf_set(buf, start, (low % 256) as u8);
    buf_set(buf, start + 1, ((low / 256) % 256) as u8);
    buf_set(buf, start + 2, ((low / 65536) % 256) as u8);
    proof {
        lemma_le_bytes_3(low as nat);
        assert(buf_bytes(*buf) =~= buf_bytes(*old(buf)) + package_bytes(
            serial_id,
            payload.encoding(),
        ));
    }
}

/// Splits one packet off the head of the input: its head, its payload of
/// exactly the announced length, and what follows.
pub fn split_package(i: &[u8]) -> (r: Result<(&[u8], Header, &[u8]), DecodeError>)
    ensures
        match r {
            Ok((rest, header, payload)) => i@.len() >= 4 + package_len(i@) as int && header.len
                == package_len(i@) && header.serial_id == i@[3] && payload@ == i@.subrange(
                4,
                4 + package_len(i@) as int,
            ) && rest@ == i@.skip(4 + package_len(i@) as int),
            Err(e) => i@.len() < 4 + package_len(i@) as int && e == DecodeError::Eof,
        },
{
    if i.len() < 4 {
        return Err(DecodeError::Eof);
    }
    let len = le_at(i, 0, 3);
    proof {
        assert(i@.take(3) =~= i@.subrange(0, 3));
        lemma_le_value_bound(i@.take(3));
        lemma_pow256_values();
    }
    if len > (i.len() - 4) as u64 {
        return Err(DecodeError::Eof);
    }
    let n = len as usize;
    let header = Header { len: len as u32, serial_id: i[3] as u32 };
    Ok((rest_from(i, 4 + n), header, slice_subrange(i, 4, 4 + n)))
}

/// A payload shorter than `2^24` bytes that was framed is split off again as
/// it was, with its sequence id and whatever followed it.
pub proof fn lemma_package_round_trip(serial_id: u8, payload: Seq<u8>, tail: Seq<u8>)
    requires
        payload.len() < 0x100_0000,
    ensures
        ({
            let bytes = package_bytes(serial_id, payload) + tail;
            &&& bytes.len() >= 4 + package_len(bytes) as int
            &&& package_len(bytes) == payload.len()
            &&& bytes[3] == serial_id
            &&& bytes.subrange(4, 4 + package_len(bytes) as int) == payload
            &&& bytes.skip(4 + package_len(bytes) as int) == tail
        }),
{
    let bytes = package_bytes(serial_id, payload) + tail;
    lemma_pow256_values();
    lemma_le_bytes_len(payload.len(), 3);
    lemma_le_round_trip(payload.len(), 3);
    assert(bytes.take(3) =~= le_bytes(payload.len(), 3));
    assert(bytes.subrange(4, 4 + payload.len() as int) =~= payload);
    assert(bytes.skip(4 + payload.len() as int) =~= tail);
}

/// Whether a payload is an error report of the server: its first byte is
/// `0xFF`.
pub open spec fn is_error_payload(body: Seq<u8>) -> bool {
    body.len() > 0 && body[0] == 0xff
}

/// Decodes the payload of a packet whose head was read. An error report of
/// the server and a payload that `P` cannot read are both refused with
/// `Fail`.
pub fn decode_package<P: Decoder>(header: Header, body: &[u8]) -> (r: Result<
    Packet<P>,
    DecodeError,
>)
    ensures
        match r {
            Ok(packet) => !is_error_payload(body@) && P::frame(body@) is Ok && packet.header
                == header && packet.payload.holds(body@),
            Err(e) => e == DecodeError::Fail && (is_error_payload(body@) || P::frame(body@) is Err),
        },
{
    if body.len() > 0 && body[0] == 0xff {
        return Err(DecodeError::Fail);
    }
    match P::decode(body) {
        Ok((_, payload)) => Ok(Packet { header, payload }),
        Err(_) => Err(DecodeError::Fail),
    }
}

/// The SHA-1 digest of the given bytes.
pub uninterp spec fn sha1_of(data: Seq<u8>) -> Seq<u8>;

/// `Sha1::digest`: the SHA-1 digest of the bytes, which is 20 bytes long.
#[verifier::external_body]
fn sha1_digest(data: &[u8]) -> (d: [u8; 20])
    ensures
        d@ == sha1_of(data@),
{
    Sha1::digest(data).into()
}

/// The two 20-byte runs combined byte by byte with exclusive or.
pub open spec fn xor20(a: Seq<u8>, b: Seq<u8>) -> Seq<u8> {
    Seq::new(20, |k: int| a[k] ^ b[k])
}

/// Combines two digests byte by byte with exclusive or.
pub fn xor_digests(a: &[u8; 20], b: &[u8; 20]) -> (out: [u8; 20])
    ensures
        out@ == xor20(a@, b@),
{
    let mut out: [u8; 20] = [0u8; 20];
    let mut k: usize = 0;
    while k < 20
        invariant
            k <= 20,
            forall|j: int| 0 <= j < k ==> out@[j] == a@[j] ^ b@[j],
        decreases 20 - k,
    {
        out[k] = a[k] ^ b[k];
        k = k + 1;
    }
    assert(out@ =~= xor20(a@, b@));
    out
}

/// The token of the native-password method for a password and the salt in
/// the first 20 bytes of `auth_data`: with `h1` the digest of the password
/// and `h2` the digest of `h1`, it is `h1` combined by exclusive or with the
/// digest of the salt followed by `h2`.
pub open spec fn native_password_token(password: Seq<u8>, auth_data: Seq<u8>) -> Seq<u8> {
    let h1 = sha1_of(password);
    let h2 = sha1_of(h1);
    xor20(h1, sha1_of(auth_data.take(20) + h2))
}

/// The reply to the server's challenge under the native-password method.
pub fn native_password_auth(password: &[u8], auth_data: &[u8]) -> (token: [u8; 20])
    requires
        auth_data@.len() >= 20,
    ensures
        token@ == native_password_token(password@, auth_data@),
{
    let h1 = sha1_digest(password);
    let h2 = sha1_digest(h1.as_slice());
    let mut salted: Vec<u8> = slice_to_vec(slice_subrange(auth_data, 0, 20));
    salted.extend_from_slice(h2.as_slice());
    assert(salted@ =~= auth_data@.take(20) + h2@);
    let mask = sha1_digest(salted.as_slice());
    xor_digests(&h1, &mask)
}

} // verus!
