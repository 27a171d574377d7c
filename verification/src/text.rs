//! Text helpers: decimal rendering of integers and the passage between
//! bytes and strings.

use vstd::prelude::*;
use vstd::slice::*;
use vstd::string::*;
use vstd::utf8::*;

verus! {

/// The character that writes the decimal digit `d`.
pub open spec fn digit_char(d: int) -> char {
    if d == 0 {
        '0'
    } else if d == 1 {
        '1'
    } else if d == 2 {
        '2'
    } else if d == 3 {
        '3'
    } else if d == 4 {
        '4'
    } else if d == 5 {
        '5'
    } else if d == 6 {
        '6'
    } else if d == 7 {
        '7'
    } else if d == 8 {
        '8'
    } else {
        '9'
    }
}

/// The decimal digits of `n`, most significant first, without leading zeros.
pub open spec fn decimal_text(n: nat) -> Seq<char>
    decreases n,
{
    if n < 10 {
        seq![digit_char(n as int)]
    } else {
        decimal_text(n / 10).push(digit_char((n % 10) as int))
    }
}

/// `count` zeros.
pub open spec fn zeros_text(count: nat) -> Seq<char> {
    Seq::new(count, |i: int| '0')
}

/// The decimal digits of `n`, filled with zeros on the left up to `width`
/// characters; longer numbers are written in full.
pub open spec fn padded_text(n: nat, width: nat) -> Seq<char> {
    if decimal_text(n).len() >= width {
        decimal_text(n)
    } else {
        zeros_text((width - decimal_text(n).len()) as nat) + decimal_text(n)
    }
}

/// The decimal text of a signed integer, with a minus sign when negative.
pub open spec fn int_text(i: int) -> Seq<char> {
    if i < 0 {
        seq!['-'] + decimal_text((-i) as nat)
    } else {
        decimal_text(i as nat)
    }
}

/// The text that a run of bytes stands for: its characters when the bytes
/// are well-formed UTF-8, and the empty text otherwise.
pub open spec fn text_of(bytes: Seq<u8>) -> Seq<char> {
    if valid_utf8(bytes) {
        decode_utf8(bytes)
    } else {
        Seq::<char>::empty()
    }
}

/// The result of `String::from_utf8_lossy` on the given bytes.
pub uninterp spec fn lossy_text(bytes: Seq<u8>) -> Seq<char>;

/// Every decimal text has at least one digit.
pub proof fn lemma_decimal_text_len(n: nat)
    ensures
        decimal_text(n).len() >= 1,
        n < 10 ==> decimal_text(n).len() == 1,
    decreases n,
{
    if n >= 10 {
        lemma_decimal_text_len(n / 10);
    }
}

/// `String::from_utf8`: succeeds exactly on well-formed UTF-8, and the
/// string then has exactly the given bytes.
#[verifier::external_body]
pub(crate) fn string_from_utf8(bytes: Vec<u8>) -> (r: Option<String>)
    ensures
        r is Some <==> valid_utf8(bytes@),
        r is Some ==> encode_utf8(r.unwrap()@) == bytes@,
{
    String::from_utf8(bytes).ok()
}

/// `String::from_utf8_lossy`: the result depends on the bytes alone, and
/// well-formed UTF-8 comes back unchanged.
#[verifier::external_body]
pub(crate) fn string_from_utf8_lossy(bytes: &[u8]) -> (r: String)
    ensures
        r@ == lossy_text(bytes@),
        valid_utf8(bytes@) ==> encode_utf8(r@) == bytes@,
{
    String::from_utf8_lossy(bytes).into_owned()
}

/// `String::push`: the character is added at the end.
#[verifier::external_body]
pub(crate) fn push_char(out: &mut String, c: char)
    ensures
        final(out)@ == old(out)@.push(c),
{
    out.push(c)
}

/// Builds the string for a run of bytes: see [`text_of`].
pub fn string_of_bytes(bytes: &[u8]) -> (s: String)
    ensures
        s@ == text_of(bytes@),
{
    let owned = slice_to_vec(bytes);
    match string_from_utf8(owned) {
        Some(s) => {
            proof {
                encode_utf8_decode_utf8(s@);
            }
            s
        },
        None => String::new(),
    }
}

/// The one-character string of a decimal digit.
pub fn digit_str(d: u8) -> (s: &'static str)
    requires
        d < 10,
    ensures
        s@ == seq![digit_char(d as int)],
{
    proof {
        reveal_strlit("0");
        reveal_strlit("1");
        reveal_strlit("2");
        reveal_strlit("3");
        reveal_strlit("4");
        reveal_strlit("5");
        reveal_strlit("6");
        reveal_strlit("7");
        reveal_strlit("8");
        reveal_strlit("9");
    }
    let s = if d == 0 {
        "0"
    } else if d == 1 {
        "1"
    } else if d == 2 {
        "2"
    } else if d == 3 {
        "3"
    } else if d == 4 {
        "4"
    } else if d == 5 {
        "5"
    } else if d == 6 {
        "6"
    } else if d == 7 {
        "7"
    } else if d == 8 {
        "8"
    } else {
        "9"
    };
    assert(s@ =~= seq![digit_char(d as int)]);
    s
}

/// Appends the decimal digits of `n`.
pub fn push_decimal(out: &mut String, n: u64)
    ensures
        final(out)@ == old(out)@ + decimal_text(n as nat),
    decreases n,
{
    if n >= 10 {
        push_decimal(out, n / 10);
    }
    out.append(digit_str((n % 10) as u8));
    assert(out@ =~= old(out)@ + decimal_text(n as nat));
}

/// Appends the decimal digits of a number of up to 128 bits.
pub fn push_decimal_wide(out: &mut String, n: u128)
    ensures
        final(out)@ == old(out)@ + decimal_text(n as nat),
    decreases n,
{
    if n >= 10 {
        push_decimal_wide(out, n / 10);
    }
    out.append(digit_str((n % 10) as u8));
    assert(out@ =~= old(out)@ + decimal_text(n as nat));
}

/// The number of decimal digits of `n`.
pub fn digit_count(n: u64) -> (c: usize)
    ensures
        c == decimal_text(n as nat).len(),
        1 <= c <= 20,
{
    let mut c: usize = 1;
    let mut m: u64 = n;
    proof {
        lemma_decimal_text_len(n as nat);
        assert(pow10(0) == 1);
        assert(m as nat * pow10(0) == m) by (nonlinear_arith)
            requires
                pow10(0) == 1,
        ;
    }
    while m >= 10
        invariant
            1 <= c <= 20,
            c + decimal_text(m as nat).len() == decimal_text(n as nat).len() + 1,
            m as nat * pow10((c - 1) as nat) <= n,
        decreases m,
    {
        proof {
            lemma_decimal_text_len((m / 10) as nat);
            assert(pow10(c as nat) == 10 * pow10((c - 1) as nat));
            assert((m / 10) as nat * pow10(c as nat) <= m as nat * pow10((c - 1) as nat))
                by (nonlinear_arith)
                requires
                    pow10(c as nat) == 10 * pow10((c - 1) as nat),
                    m >= 10,
            ;
            if c == 20 {
                lemma_pow10_20();
                assert(false) by (nonlinear_arith)
                    requires
                        (m / 10) as nat * pow10(20) <= n,
                        m >= 10,
                        pow10(20) > u64::MAX,
                ;
            }
        }
        m = m / 10;
        c = c + 1;
    }
    proof {
        lemma_decimal_text_len(m as nat);
    }
    c
}

/// Ten to the power `e`.
pub open spec fn pow10(e: nat) -> nat
    decreases e,
{
    if e == 0 {
        1
    } else {
        10 * pow10((e - 1) as nat)
    }
}

proof fn lemma_pow10_20()
    ensures
        pow10(20) > u64::MAX,
{
    reveal_with_fuel(pow10, 21);
}

/// Appends `count` zeros.
pub fn push_zeros(out: &mut String, count: usize)
    ensures
        final(out)@ == old(out)@ + zeros_text(count as nat),
{
    let mut k: usize = 0;
    proof {
        reveal_strlit("0");
    }
    assert(out@ =~= old(out)@ + zeros_text(0));
    while k < count
        invariant
            k <= count,
            out@ == old(out)@ + zeros_text(k as nat),
            "0"@ == seq!['0'],
        decreases count - k,
    {
        out.append("0");
        k = k + 1;
        assert(out@ =~= old(out)@ + zeros_text(k as nat));
    }
}

/// Appends the decimal digits of `n`, zero-filled on the left to `width`.
pub fn push_padded(out: &mut String, n: u64, width: usize)
    ensures
        final(out)@ == old(out)@ + padded_text(n as nat, width as nat),
{
    let c = digit_count(n);
    if c < width {
        push_zeros(out, width - c);
    }
    push_decimal(out, n);
    assert(out@ =~= old(out)@ + padded_text(n as nat, width as nat));
}

/// Appends the decimal text of a signed integer.
pub fn push_int(out: &mut String, i: i64)
    ensures
        final(out)@ == old(out)@ + int_text(i as int),
{
    if i < 0 {
        out.append("-");
        proof {
            reveal_strlit("-");
        }
        let magnitude: u64 = if i == i64::MIN {
            9223372036854775808u64
        } else {
            (-i) as u64
        };
        push_decimal(out, magnitude);
        assert(out@ =~= old(out)@ + int_text(i as int));
    } else {
        push_decimal(out, i as u64);
    }
}

/// Whether two byte runs are the same.
pub fn bytes_eq(a: &[u8], b: &[u8]) -> (same: bool)
    ensures
        same == (a@ == b@),
{
    if a.len() != b.len() {
        return false;
    }
    let mut k: usize = 0;
    while k < a.len()
        invariant
            k <= a.len(),
            a.len() == b.len(),
            forall|j: int| 0 <= j < k ==> a@[j] == b@[j],
        decreases a.len() - k,
    {
        if a[k] != b[k] {
            return false;
        }
        k = k + 1;
    }
    assert(a@ =~= b@);
    true
}

/// Whether `prefix` opens `s`.
pub open spec fn starts_with(s: Seq<u8>, prefix: Seq<u8>) -> bool {
    prefix.len() <= s.len() && s.subrange(0, prefix.len() as int) == prefix
}

/// Whether `suffix` closes `s`.
pub open spec fn ends_with(s: Seq<u8>, suffix: Seq<u8>) -> bool {
    suffix.len() <= s.len() && s.subrange(s.len() - suffix.len(), s.len() as int) == suffix
}

/// Whether `s` begins with `prefix`, byte for byte.
pub fn bytes_start_with(s: &[u8], prefix: &[u8]) -> (b: bool)
    ensures
        b == starts_with(s@, prefix@),
{
    if prefix.len() > s.len() {
        return false;
    }
    bytes_eq(slice_subrange(s, 0, prefix.len()), prefix)
}

/// Whether `s` ends with `suffix`, byte for byte.
pub fn bytes_end_with(s: &[u8], suffix: &[u8]) -> (b: bool)
    ensures
        b == ends_with(s@, suffix@),
{
    if suffix.len() > s.len() {
        return false;
    }
    bytes_eq(slice_subrange(s, s.len() - suffix.len(), s.len()), suffix)
}

} // verus!
