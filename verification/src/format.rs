//! Human-readable sizes, times and shortened labels.

use vstd::prelude::*;
use vstd::arithmetic::power2::pow2;
use vstd::arithmetic::div_mod::*;
use crate::text::{chars_to_string, decimal, digit, digit_char, push_chars, push_decimal, slice_chars, str_chars};

verus! {

/// Below this bound every `u64` is exactly representable at double precision.
pub open spec fn exact_float_bound() -> nat {
    0x20_0000_0000_0000
}

/// The number of low bits that double precision drops from `b`.
pub open spec fn float_shift(b: nat) -> nat
    decreases b,
{
    if b < exact_float_bound() {
        0
    } else {
        1 + float_shift(b / 2)
    }
}

/// `a / d` rounded to the nearest integer, ties to the even one.
pub open spec fn div_round_half_even(a: nat, d: nat) -> nat {
    let q = a / d;
    let r = a % d;
    if 2 * r > d || (2 * r == d && q % 2 == 1) {
        q + 1
    } else {
        q
    }
}

/// The value of `b` once converted to a double: `b` rounded to 53
/// significant bits, ties to even.
pub open spec fn nearest_double(b: nat) -> nat {
    let p = pow2(float_shift(b));
    div_round_half_even(b, p) * p
}

/// `1024` raised to `u`, for the units in use.
pub open spec fn unit_scale(u: nat) -> nat {
    if u == 0 {
        1
    } else if u == 1 {
        1024
    } else if u == 2 {
        1048576
    } else if u == 3 {
        1073741824
    } else if u == 4 {
        1099511627776
    } else {
        1125899906842624
    }
}

/// The largest unit (B, KiB, ..., PiB) that fits into `v` at least once.
pub open spec fn byte_unit(v: nat) -> nat {
    if v < unit_scale(1) {
        0
    } else if v < unit_scale(2) {
        1
    } else if v < unit_scale(3) {
        2
    } else if v < unit_scale(4) {
        3
    } else if v < unit_scale(5) {
        4
    } else {
        5
    }
}

/// The name of unit `u`.
pub open spec fn unit_name(u: nat) -> Seq<char> {
    if u == 0 {
        seq!['B']
    } else if u == 1 {
        seq!['K', 'i', 'B']
    } else if u == 2 {
        seq!['M', 'i', 'B']
    } else if u == 3 {
        seq!['G', 'i', 'B']
    } else if u == 4 {
        seq!['T', 'i', 'B']
    } else {
        seq!['P', 'i', 'B']
    }
}

/// Decimals shown for a size of `v / d` units: none from 100 up, one from
/// 10 up, two below.
pub open spec fn size_decimals(v: nat, d: nat) -> nat {
    if v >= 100 * d {
        0
    } else if v >= 10 * d {
        1
    } else {
        2
    }
}

pub open spec fn pow10(p: nat) -> nat {
    if p == 0 {
        1
    } else if p == 1 {
        10
    } else {
        100
    }
}

/// The decimal point and the `p` digits of the fraction `f < 10^p`.
pub open spec fn fraction_chars(f: nat, p: nat) -> Seq<char> {
    if p == 0 {
        seq![]
    } else if p == 1 {
        seq!['.', digit_char(f)]
    } else {
        seq!['.', digit_char(f / 10), digit_char(f % 10)]
    }
}

/// The text shown for a byte count: plain bytes below one KiB, otherwise
/// the size in the largest unit up to PiB, with two decimals below 10, one
/// below 100 and none from there on, rounded half to even.
pub open spec fn bytes_text(bytes: u64) -> Seq<char> {
    let v = nearest_double(bytes as nat);
    let u = byte_unit(v);
    if u == 0 {
        decimal(bytes as nat) + seq![' '] + unit_name(0)
    } else {
        let d = unit_scale(u);
        let p = size_decimals(v, d);
        let n = div_round_half_even(v * pow10(p), d);
        decimal(n / pow10(p)) + fraction_chars(n % pow10(p), p) + seq![' '] + unit_name(u)
    }
}

/// `a / d` rounded half to even.
fn round_half_even(a: u128, d: u128) -> (r: u128)
    requires
        d > 0,
        a < 0x1_0000_0000_0000_0000_0000_0000,
    ensures
        r == div_round_half_even(a as nat, d as nat),
        r <= a / d + 1,
{
    let q = a / d;
    let r = a % d;
    assert(q <= a) by (nonlinear_arith)
        requires
            q == a / d,
            d > 0,
    ;
    if r > d - r || (r == d - r && q % 2 == 1) {
        q + 1
    } else {
        q
    }
}

/// The value of `bytes` at double precision.
fn double_value(bytes: u64) -> (v: u128)
    ensures
        v == nearest_double(bytes as nat),
        v <= 0x1_0000_0000_0000_1000,
{
    let mut m: u64 = bytes;
    let mut p: u64 = 1;
    let ghost mut s: nat = 0;
    proof {
        vstd::arithmetic::power2::lemma2_to64();
    }
    while m >= 0x20_0000_0000_0000
        invariant
            p == pow2(s),
            1 <= p <= 4096,
            m == bytes / p,
            float_shift(bytes as nat) == s + float_shift(m as nat),
        decreases m,
    {
        proof {
            lemma_fundamental_div_mod(bytes as int, p as int);
            assert(p < 2048) by (nonlinear_arith)
                requires
                    m >= 0x20_0000_0000_0000,
                    m * p <= bytes,
                    bytes < 0x1_0000_0000_0000_0000,
                    p >= 1,
            ;
            lemma_div_denominator(bytes as int, p as int, 2);
            vstd::arithmetic::power2::lemma_pow2_adds(s, 1);
            vstd::arithmetic::power2::lemma2_to64();
        }
        m = m / 2;
        p = p * 2;
        proof {
            s = s + 1;
        }
    }
    let q = round_half_even(bytes as u128, p as u128);
    assert(q * p <= 0x1_0000_0000_0000_1000) by (nonlinear_arith)
        requires
            q <= bytes / p + 1,
            1 <= p <= 4096,
            bytes < 0x1_0000_0000_0000_0000,
    {
        lemma_fundamental_div_mod(bytes as int, p as int);
    }
    q * (p as u128)
}

/// A byte count written for people, e.g. `1023 B`, `1.00 KiB`, `5.00 MiB`.
#[verifier::spinoff_prover]
#[verifier::rlimit(40)]
pub fn format_bytes(bytes: u64) -> (text: String)
    ensures
        text@ == bytes_text(bytes),
{
    let v = double_value(bytes);
    let mut out: Vec<char> = Vec::new();
    if v < 1024 {
        push_decimal(&mut out, bytes as u128);
        out.push(' ');
        out.push('B');
        return chars_to_string(&out);
    }
    let (u, d): (u8, u128) = if v < 1048576 {
        (1, 1024)
    } else if v < 1073741824 {
        (2, 1048576)
    } else if v < 1099511627776 {
        (3, 1073741824)
    } else if v < 1125899906842624 {
        (4, 1099511627776)
    } else {
        (5, 1125899906842624)
    };
    let (p, scale): (u8, u128) = if v >= 100 * d {
        (0, 1)
    } else if v >= 10 * d {
        (1, 10)
    } else {
        (2, 100)
    };
    let n = round_half_even(v * scale, d);
    push_decimal(&mut out, n / scale);
    let f = n % scale;
    if p == 1 {
        out.push('.');
        out.push(digit(f));
    } else if p == 2 {
        out.push('.');
        out.push(digit(f / 10));
        out.push(digit(f % 10));
    }
    out.push(' ');
    if u == 1 {
        out.push('K');
    } else if u == 2 {
        out.push('M');
    } else if u == 3 {
        out.push('G');
    } else if u == 4 {
        out.push('T');
    } else {
        out.push('P');
    }
    out.push('i');
    out.push('B');
    chars_to_string(&out)
}

/// `s` fitted into `width` characters: unchanged when it fits, otherwise
/// its first and last characters around `...`, the end getting the extra
/// character when the kept count is odd; widths up to 3 leave only dots.
pub open spec fn middle_truncated(s: Seq<char>, width: nat) -> Seq<char> {
    if width == 0 {
        seq![]
    } else if s.len() <= width {
        s
    } else if width <= 3 {
        Seq::new(width, |i: int| '.')
    } else {
        let keep = (width - 3) as nat;
        let left = keep / 2;
        let right = (keep - left) as nat;
        s.take(left as int) + seq!['.', '.', '.'] + s.skip(s.len() - right)
    }
}

/// Shortens `value` to at most `width` characters by cutting out its middle.
pub fn truncate_middle(value: &str, width: usize) -> (text: String)
    ensures
        text@ == middle_truncated(value@, width as nat),
{
    let mut out: Vec<char> = Vec::new();
    if width == 0 {
        return chars_to_string(&out);
    }
    let chars = str_chars(value);
    let n = chars.len();
    if n <= width {
        return chars_to_string(&chars);
    }
    if width <= 3 {
        let mut i: usize = 0;
        while i < width
            invariant
                i <= width <= 3,
                out@ == Seq::new(i as nat, |k: int| '.'),
            decreases width - i,
        {
            out.push('.');
            i = i + 1;
            assert(out@ =~= Seq::new(i as nat, |k: int| '.'));
        }
        return chars_to_string(&out);
    }
    let keep = width - 3;
    let left = keep / 2;
    let right = keep - left;
    let start = slice_chars(&chars, 0, left);
    let end = slice_chars(&chars, n - right, n);
    out = start;
    out.push('.');
    out.push('.');
    out.push('.');
    let mut i: usize = 0;
    let ghost before = out@;
    while i < end.len()
        invariant
            i <= end.len(),
            out@ == before + end@.take(i as int),
        decreases end.len() - i,
    {
        out.push(end[i]);
        i = i + 1;
        assert(end@.take(i as int) =~= end@.take(i - 1).push(end@[i - 1]));
    }
    assert(end@.take(end.len() as int) =~= end@);
    assert(chars@.take(left as int) =~= start@);
    chars_to_string(&out)
}

/// Earliest and latest instants, in nanoseconds from the Unix epoch, that
/// the calendar of the time formatting covers.
pub open spec fn earliest_formattable() -> int {
    -8334601315200000000000
}

pub open spec fn latest_formattable() -> int {
    8210266876799999999999
}

/// Whether `nanos` lies in the range the time formatting covers.
pub fn is_formattable(nanos: i128) -> (r: bool)
    ensures
        r == (earliest_formattable() <= nanos <= latest_formattable()),
{
    -8334601315200000000000 <= nanos && nanos <= 8210266876799999999999
}

/// The text `chrono` writes for the instant `secs` seconds and `subsec`
/// nanoseconds after the Unix epoch, seen at `offset` seconds east of UTC,
/// in the `strftime`-style `format`.
pub uninterp spec fn time_text(secs: i64, subsec: u32, offset: i32, format: Seq<char>) -> Seq<char>;

/// The format of times in the project list: `YYYY-MM-DD HH:MM`.
pub open spec fn minute_format() -> Seq<char> {
    "%Y-%m-%d %H:%M"@
}

/// The offset from UTC, in seconds east, of the machine's local time zone
/// at the given instant (`chrono::Local`, `offset_from_utc_datetime`,
/// `local_minus_utc`). Stated: the offset lies strictly within a day either
/// way, as every `chrono::FixedOffset` does; its value depends on the
/// machine's time zone and is left unsaid.
#[verifier::external_body]
fn local_offset(secs: i64, subsec: u32) -> (offset: i32)
    requires
        -8334601315200 <= secs <= 8210266876799,
        subsec < 1_000_000_000,
    ensures
        -86400 < offset < 86400,
{
    match chrono::DateTime::from_timestamp(secs, subsec) {
        Some(utc) => chrono::TimeZone::offset_from_utc_datetime(&chrono::Local, &utc.naive_utc())
            .local_minus_utc(),
        None => 0,
    }
}

/// The instant `secs` seconds and `subsec` nanoseconds after the Unix epoch
/// at `offset` seconds east of UTC, written in `format`, through `chrono`
/// (`DateTime::from_timestamp`, `FixedOffset::east_opt`, `with_timezone`,
/// `format`). Stated: the text is a function of the four arguments; the
/// calendar arithmetic is left to `chrono`. A format string with an item
/// `chrono` does not know makes `to_string` panic, so only the list's own
/// format is admitted.
#[verifier::external_body]
fn offset_time_text(secs: i64, subsec: u32, offset: i32, format: &str) -> (text: String)
    requires
        -8334601315200 <= secs <= 8210266876799,
        subsec < 1_000_000_000,
        -86400 < offset < 86400,
        format@ == minute_format(),
    ensures
        text@ == time_text(secs, subsec, offset, format@),
{
    match (chrono::DateTime::from_timestamp(secs, subsec), chrono::FixedOffset::east_opt(offset)) {
        (Some(utc), Some(zone)) => utc.with_timezone(&zone).format(format).to_string(),
        _ => String::new(),
    }
}

/// The whole seconds (rounded down) of a time in nanoseconds.
pub open spec fn whole_seconds(nanos: int) -> i64 {
    (nanos / 1_000_000_000) as i64
}

/// The nanoseconds after the whole seconds of a time in nanoseconds.
pub open spec fn subsecond_nanos(nanos: int) -> u32 {
    (nanos % 1_000_000_000) as u32
}

/// A time, given in nanoseconds after the Unix epoch, as `YYYY-MM-DD HH:MM`
/// at `offset` seconds east of UTC.
pub fn format_time_at_offset(nanos: i128, offset: i32) -> (text: String)
    requires
        earliest_formattable() <= nanos <= latest_formattable(),
        -86400 < offset < 86400,
    ensures
        text@ == time_text(
            whole_seconds(nanos as int),
            subsecond_nanos(nanos as int),
            offset,
            minute_format(),
        ),
{
    let (secs, subsec) = split_nanos(nanos);
    offset_time_text(secs, subsec, offset, "%Y-%m-%d %H:%M")
}

/// A time, given in nanoseconds after the Unix epoch, as `YYYY-MM-DD HH:MM`
/// in the machine's local time zone: the time written at the zone's offset
/// from UTC at that instant, an offset of less than a day either way. The
/// time is split into whole seconds (rounded down) and the nanoseconds after
/// them, as the calendar takes it.
pub fn format_system_time(nanos: i128) -> (text: String)
    requires
        earliest_formattable() <= nanos <= latest_formattable(),
    ensures
        exists|offset: i32|
            -86400 < offset < 86400 && text@ == time_text(
                whole_seconds(nanos as int),
                subsecond_nanos(nanos as int),
                offset,
                minute_format(),
            ),
{
    let (secs, subsec) = split_nanos(nanos);
    let offset = local_offset(secs, subsec);
    format_time_at_offset(nanos, offset)
}

/// `nanos` as whole seconds, rounded down, and the nanoseconds after them.
pub fn split_nanos(nanos: i128) -> (r: (i64, u32))
    requires
        earliest_formattable() <= nanos <= latest_formattable(),
    ensures
        nanos == r.0 * 1_000_000_000 + r.1,
        r.1 < 1_000_000_000,
        -8334601315200 <= r.0 <= 8210266876799,
        r.0 == whole_seconds(nanos as int),
        r.1 == subsecond_nanos(nanos as int),
{
    let r = split_nanos_parts(nanos);
    proof {
        lemma_fundamental_div_mod_converse(nanos as int, 1_000_000_000, r.0 as int, r.1 as int);
    }
    r
}

fn split_nanos_parts(nanos: i128) -> (r: (i64, u32))
    requires
        earliest_formattable() <= nanos <= latest_formattable(),
    ensures
        nanos == r.0 * 1_000_000_000 + r.1,
        r.1 < 1_000_000_000,
        -8334601315200 <= r.0 <= 8210266876799,
{
    if nanos >= 0 {
        let secs = nanos / 1_000_000_000;
        let sub = nanos % 1_000_000_000;
        ((secs as i64), (sub as u32))
    } else {
        let m = -nanos;
        let q = m / 1_000_000_000;
        let r = m % 1_000_000_000;
        if r == 0 {
            (-(q as i64), 0)
        } else {
            (-(q as i64) - 1, (1_000_000_000 - r) as u32)
        }
    }
}

/// `s` followed by spaces up to `width` characters (longer text is kept whole).
pub open spec fn padded(s: Seq<char>, width: nat) -> Seq<char> {
    if s.len() >= width {
        s
    } else {
        s + Seq::new((width - s.len()) as nat, |i: int| ' ')
    }
}

/// Appends `s` padded with spaces to `width` characters.
pub fn push_padded(out: &mut Vec<char>, s: &str, width: usize)
    ensures
        final(out)@ == old(out)@ + padded(s@, width as nat),
{
    let chars = str_chars(s);
    let ghost start = out@;
    push_chars(out, &chars);
    let mut n = chars.len();
    let ghost fill_from = n;
    while n < width
        invariant
            chars@ == s@,
            fill_from == chars.len(),
            fill_from <= n <= width || (n == fill_from && fill_from >= width),
            out@ == start + s@ + Seq::new((n - fill_from) as nat, |i: int| ' '),
        decreases width - n,
    {
        out.push(' ');
        n = n + 1;
        assert(Seq::new((n - fill_from) as nat, |i: int| ' ') =~= Seq::new((n - 1 - fill_from) as nat, |i: int| ' ').push(' '));
    }
    if chars.len() >= width {
        assert(out@ =~= start + s@);
    } else {
        assert(out@ =~= start + padded(s@, width as nat));
    }
}

/// A shortened label is exactly as long as the label or the width,
/// whichever is less.
pub proof fn lemma_truncated_length(s: Seq<char>, width: nat)
    ensures
        middle_truncated(s, width).len() == if s.len() <= width {
            s.len()
        } else {
            width
        },
{
}

/// Byte counts below 2^53 are converted to a double without change, so
/// their sizes are shown from the exact count.
pub proof fn lemma_small_counts_are_exact(b: nat)
    requires
        b < exact_float_bound(),
    ensures
        nearest_double(b) == b,
{
    vstd::arithmetic::power2::lemma2_to64();
    assert(float_shift(b) == 0);
    assert(pow2(0) == 1);
    assert(b / 1 == b && b % 1 == 0) by (nonlinear_arith);
}

} // verus!
