//! The log line that is written for every parsed request:
//! `[YYYY-MM-DD HH:MM:SS.ffff] VERB hostname "/path"`.
//!
//! The year takes four digits, month, day, hour, minute and second two each,
//! and the fraction of the second four: the ten-thousandths of the second
//! that have passed. Each number is written as `{:0w}` writes a signed
//! integer: in decimal, filled with zeros up to the width.
use crate::request::{Request, RequestView};
use vstd::prelude::*;
use vstd::string::StringExecFns;

verus! {

/// The local time, broken down as the `time` crate breaks it down in `Tm`.
#[derive(Clone, Copy, Debug, PartialEq, Eq, Structural)]
pub struct LocalTime {
    pub years_since_1900: i32,
    /// 0 for January.
    pub months_since_january: i32,
    pub day_of_month: i32,
    pub hour: i32,
    pub minute: i32,
    pub second: i32,
    pub nanosecond: i32,
}

impl LocalTime {
    /// Every field but the year lies in the range that the `time` crate
    /// documents for it; a second of 60 is a leap second.
    pub open spec fn in_range(self) -> bool {
        &&& 0 <= self.months_since_january <= 11
        &&& 1 <= self.day_of_month <= 31
        &&& 0 <= self.hour <= 23
        &&& 0 <= self.minute <= 59
        &&& 0 <= self.second <= 60
        &&& 0 <= self.nanosecond <= 999_999_999
    }
}

/// Calls `time::now`, which reads the system clock and breaks the time down
/// in the local time zone, and copies the fields that the log line shows.
/// Trusted: the fields lie in the ranges that the crate documents on `Tm`.
/// `time::now` panics where the C library cannot break the time of the clock
/// down.
#[verifier::external_body]
fn now() -> (t: LocalTime)
    ensures
        t.in_range(),
{
    let tm = time::now();
    LocalTime {
        years_since_1900: tm.tm_year,
        months_since_january: tm.tm_mon,
        day_of_month: tm.tm_mday,
        hour: tm.tm_hour,
        minute: tm.tm_min,
        second: tm.tm_sec,
        nanosecond: tm.tm_nsec,
    }
}

/// The character of a decimal digit.
pub open spec fn spec_digit(d: int) -> char {
    seq!['0', '1', '2', '3', '4', '5', '6', '7', '8', '9'][d]
}

/// The decimal digits of a natural number, without leading zeros.
pub open spec fn spec_digits(n: nat) -> Seq<char>
    decreases n,
{
    if n < 10 {
        seq![spec_digit(n as int)]
    } else {
        spec_digits(n / 10).push(spec_digit((n % 10) as int))
    }
}

/// `count` zeros; none where `count` is negative.
pub open spec fn spec_zeros(count: int) -> Seq<char> {
    Seq::new(
        if count > 0 {
            count as nat
        } else {
            0
        },
        |i: int| '0',
    )
}

/// An integer in decimal, filled with zeros up to `width` characters, the
/// sign counted. A number that is wider than `width` is written in full.
pub open spec fn spec_padded(value: int, width: nat) -> Seq<char> {
    if value < 0 {
        let digits = spec_digits((-value) as nat);
        seq!['-'] + spec_zeros(width - 1 - digits.len()) + digits
    } else {
        let digits = spec_digits(value as nat);
        spec_zeros(width - digits.len()) + digits
    }
}

/// The ten-thousandths of a second that have passed after `nanosecond`
/// nanoseconds.
pub open spec fn spec_ten_thousandths(nanosecond: int) -> int {
    nanosecond / 100_000
}

/// The time of a log line: `YYYY-MM-DD HH:MM:SS.ffff`.
pub open spec fn spec_timestamp(t: LocalTime) -> Seq<char> {
    spec_padded(t.years_since_1900 + 1900, 4) + seq!['-'] + spec_padded(
        t.months_since_january + 1,
        2,
    ) + seq!['-'] + spec_padded(t.day_of_month as int, 2) + seq![' '] + spec_padded(
        t.hour as int,
        2,
    ) + seq![':'] + spec_padded(t.minute as int, 2) + seq![':'] + spec_padded(t.second as int, 2)
        + seq!['.'] + spec_padded(spec_ten_thousandths(t.nanosecond as int), 4)
}

/// The log line of a request parsed at time `t`.
pub open spec fn spec_log_line(t: LocalTime, request: RequestView) -> Seq<char> {
    seq!['['] + spec_timestamp(t) + seq![']', ' '] + request.verb + seq![' '] + request.hostname
        + seq![' ', '"', '/'] + request.path + seq!['"']
}

/// The character of the decimal digit `d`.
fn digit_char(d: u64) -> (c: char)
    requires
        d < 10,
    ensures
        c == spec_digit(d as int),
{
    match d {
        0 => '0',
        1 => '1',
        2 => '2',
        3 => '3',
        4 => '4',
        5 => '5',
        6 => '6',
        7 => '7',
        8 => '8',
        _ => '9',
    }
}

/// The digits of a number that are not yet written: none once it is zero.
spec fn leading_digits(rest: nat) -> Seq<char> {
    if rest == 0 {
        seq![]
    } else {
        spec_digits(rest)
    }
}

/// The digits of `low`, which holds the lowest digit first, from the highest
/// down.
spec fn highest_first(low: Seq<char>) -> Seq<char> {
    Seq::new(low.len(), |k: int| low[low.len() - 1 - k])
}

/// The decimal digits of `n`, the lowest first.
fn digits_lowest_first(n: u64) -> (low: Vec<char>)
    ensures
        highest_first(low@) == spec_digits(n as nat),
{
    let mut low: Vec<char> = Vec::new();
    let mut rest: u64 = n / 10;
    low.push(digit_char(n % 10));
    proof {
        assert(leading_digits(rest as nat) + highest_first(low@) =~= spec_digits(n as nat));
    }
    while rest > 0
        invariant
            leading_digits(rest as nat) + highest_first(low@) == spec_digits(n as nat),
        decreases rest,
    {
        let ghost before = low@;
        let ghost old_rest = rest;
        low.push(digit_char(rest % 10));
        rest = rest / 10;
        proof {
            let d = spec_digit((old_rest % 10) as int);
            assert(highest_first(low@) =~= seq![d] + highest_first(before));
            assert(spec_digits(old_rest as nat) =~= leading_digits(rest as nat) + seq![d]);
            assert(leading_digits(rest as nat) + highest_first(low@) =~= leading_digits(
                old_rest as nat,
            ) + highest_first(before));
        }
    }
    proof {
        assert(leading_digits(rest as nat) + highest_first(low@) =~= highest_first(low@));
    }
    low
}

/// Appends `value` in decimal, filled with zeros up to `width` characters.
pub fn push_padded(out: &mut String, value: i64, width: usize)
    ensures
        final(out)@ == old(out)@ + spec_padded(value as int, width as nat),
{
    let negative = value < 0;
    let magnitude: u64 = if negative {
        ((-(value + 1)) as u64) + 1
    } else {
        value as u64
    };
    let low = digits_lowest_first(magnitude);
    let count: usize = low.len();
    let room: usize = if negative && width > 0 {
        width - 1
    } else {
        width
    };
    let zeros: usize = if room > count {
        room - count
    } else {
        0
    };
    let ghost sign: Seq<char> = if negative {
        seq!['-']
    } else {
        seq![]
    };
    if negative {
        out.push('-');
    }
    let mut written: usize = 0;
    while written < zeros
        invariant
            written <= zeros,
            out@ == old(out)@ + sign + spec_zeros(written as int),
        decreases zeros - written,
    {
        out.push('0');
        written = written + 1;
        proof {
            assert(spec_zeros(written as int) =~= spec_zeros(written - 1).push('0'));
        }
    }
    let ghost filled = out@;
    let mut k: usize = 0;
    while k < count
        invariant
            k <= count == low@.len(),
            out@ == filled + highest_first(low@).take(k as int),
        decreases count - k,
    {
        out.push(low[count - 1 - k]);
        proof {
            assert(highest_first(low@).take(k + 1) =~= highest_first(low@).take(k as int).push(
                low@[count - 1 - k],
            ));
        }
        k = k + 1;
    }
    proof {
        assert(highest_first(low@).take(count as int) =~= highest_first(low@));
        assert(spec_zeros(zeros as int) == if negative {
            spec_zeros(width - 1 - count)
        } else {
            spec_zeros(width - count)
        });
        assert(out@ =~= old(out)@ + spec_padded(value as int, width as nat));
    }
}

/// The ten-thousandths of a second that have passed after `nanosecond`
/// nanoseconds, rounded down.
pub fn ten_thousandths(nanosecond: i32) -> (r: i64)
    ensures
        r == spec_ten_thousandths(nanosecond as int),
{
    let wide: i64 = nanosecond as i64;
    if wide >= 0 {
        wide / 100_000
    } else {
        -((99_999 - wide) / 100_000)
    }
}

/// Writes the log line of a request parsed at time `t`.
pub fn format_log_line(t: &LocalTime, request: &Request) -> (line: String)
    ensures
        line@ == spec_log_line(*t, request@),
{
    proof {
        reveal_strlit("[");
        reveal_strlit("-");
        reveal_strlit(" ");
        reveal_strlit(":");
        reveal_strlit(".");
        reveal_strlit("] ");
        reveal_strlit(" \"/");
        reveal_strlit("\"");
    }
    let mut line = String::new();
    line.append("[");
    push_padded(&mut line, t.years_since_1900 as i64 + 1900, 4);
    line.append("-");
    push_padded(&mut line, t.months_since_january as i64 + 1, 2);
    line.append("-");
    push_padded(&mut line, t.day_of_month as i64, 2);
    line.append(" ");
    push_padded(&mut line, t.hour as i64, 2);
    line.append(":");
    push_padded(&mut line, t.minute as i64, 2);
    line.append(":");
    push_padded(&mut line, t.second as i64, 2);
    line.append(".");
    push_padded(&mut line, ten_thousandths(t.nanosecond), 4);
    proof {
        assert(line@ =~= seq!['['] + spec_timestamp(*t));
    }
    line.append("] ");
    line.append(request.verb.as_str());
    line.append(" ");
    line.append(request.hostname.as_str());
    line.append(" \"/");
    line.append(request.path.as_str());
    line.append("\"");
    proof {
        assert(line@ =~= spec_log_line(*t, request@));
    }
    line
}

/// Writes the log line of a request at the local time of the system clock.
pub fn log_line(request: &Request) -> (line: String)
    ensures
        exists|t: LocalTime| t.in_range() && line@ == spec_log_line(t, request@),
{
    let t = now();
    let line = format_log_line(&t, request);
    assert(t.in_range() && line@ == spec_log_line(t, request@));
    line
}

/// Ten to the power of `k`.
pub open spec fn pow10(k: nat) -> nat
    decreases k,
{
    if k == 0 {
        1
    } else {
        10 * pow10((k - 1) as nat)
    }
}

/// A number below ten to the `k` has `k` digits at most.
pub proof fn lemma_digits_len(n: nat, k: nat)
    requires
        k >= 1,
        n < pow10(k),
    ensures
        1 <= spec_digits(n).len() <= k,
    decreases k,
{
    reveal_with_fuel(pow10, 2);
    if n >= 10 {
        lemma_digits_len(n / 10, (k - 1) as nat);
    }
}

/// A number that is not negative and has `width` digits at most is written
/// in `width` characters.
pub proof fn lemma_padded_len(value: int, width: nat)
    requires
        width >= 1,
        0 <= value < pow10(width),
    ensures
        spec_padded(value, width).len() == width,
{
    lemma_digits_len(value as nat, width);
}

/// The time of a log line in its fields: the year from 0 to 9999 takes four
/// characters, month, day, hour, minute and second take two each, and the
/// fraction takes four. The whole time then has 24 characters.
pub proof fn lemma_timestamp_fields(t: LocalTime)
    requires
        t.in_range(),
    ensures
        spec_padded(t.months_since_january + 1, 2).len() == 2,
        spec_padded(t.day_of_month as int, 2).len() == 2,
        spec_padded(t.hour as int, 2).len() == 2,
        spec_padded(t.minute as int, 2).len() == 2,
        spec_padded(t.second as int, 2).len() == 2,
        spec_padded(spec_ten_thousandths(t.nanosecond as int), 4).len() == 4,
        0 <= t.years_since_1900 + 1900 <= 9999 ==> spec_padded(t.years_since_1900 + 1900, 4).len()
            == 4 && spec_timestamp(t).len() == 24,
{
    reveal_with_fuel(pow10, 5);
    lemma_padded_len(t.months_since_january + 1, 2);
    lemma_padded_len(t.day_of_month as int, 2);
    lemma_padded_len(t.hour as int, 2);
    lemma_padded_len(t.minute as int, 2);
    lemma_padded_len(t.second as int, 2);
    lemma_padded_len(spec_ten_thousandths(t.nanosecond as int), 4);
    if 0 <= t.years_since_1900 + 1900 <= 9999 {
        lemma_padded_len(t.years_since_1900 + 1900, 4);
    }
}

} // verus!
