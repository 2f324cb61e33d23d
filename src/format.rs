use vstd::prelude::*;
use crate::span::{Span, NANOS_PER_MILLI, NANOS_PER_SEC};

verus! {

pub open spec fn digit_char(d: nat) -> char {
    if d == 0 {
        '0'
    } else if d == 1 {
        '1'
    } else if d == 2 {
        '2'
    } else if d == 3 {
        '3'
    } else if d == 4 {
        '4'
    } else if d == 5 {
        '5'
    } else if d == 6 {
        '6'
    } else if d == 7 {
        '7'
    } else if d == 8 {
        '8'
    } else {
        '9'
    }
}

/// `n` in decimal, without leading zeros.
pub open spec fn decimal(n: nat) -> Seq<char>
    decreases n,
{
    if n < 10 {
        seq![digit_char(n)]
    } else {
        decimal(n / 10).push(digit_char(n % 10))
    }
}

/// The last two decimal digits of `n`, zero-padded.
pub open spec fn two_digits(n: nat) -> Seq<char> {
    seq![digit_char((n / 10) % 10), digit_char(n % 10)]
}

/// The last three decimal digits of `n`, zero-padded.
pub open spec fn three_digits(n: nat) -> Seq<char> {
    seq![digit_char((n / 100) % 10), digit_char((n / 10) % 10), digit_char(n % 10)]
}

/// The fields that a span of `nanos` nanoseconds is shown with: days, hours,
/// minutes, seconds and milliseconds, each but the days below its next unit.
pub open spec fn clock_fields(nanos: nat) -> (nat, nat, nat, nat, nat) {
    let secs = nanos / NANOS_PER_SEC as nat;
    let in_day = secs % 86400;
    let in_hour = in_day % 3600;
    (secs / 86400, in_day / 3600, in_hour / 60, in_hour % 60, (nanos / NANOS_PER_MILLI as nat) % 1000)
}

/// A span of `nanos` nanoseconds as `[{days}d ]{hh}h {mm}m {ss}s {mmm}ms`:
/// days only when there are any, the other fields zero-padded.
pub open spec fn format_spec(nanos: nat) -> Seq<char> {
    let (days, hours, minutes, seconds, millis) = clock_fields(nanos);
    let prefix = if days > 0 {
        decimal(days) + seq!['d', ' ']
    } else {
        Seq::empty()
    };
    prefix + two_digits(hours) + seq!['h', ' '] + two_digits(minutes) + seq!['m', ' ']
        + two_digits(seconds) + seq!['s', ' '] + three_digits(millis) + seq!['m', 's']
}

/// The milliseconds that the fields shown for a span of `nanos` nanoseconds
/// add up to.
pub open spec fn shown_millis(nanos: nat) -> nat {
    let (days, hours, minutes, seconds, millis) = clock_fields(nanos);
    days * 86_400_000 + hours * 3_600_000 + minutes * 60_000 + seconds * 1000 + millis
}

/// The fields shown for a span add up to its whole milliseconds.
pub proof fn lemma_shown_millis(nanos: nat)
    ensures
        shown_millis(nanos) == nanos / NANOS_PER_MILLI as nat,
{
    let secs = (nanos / NANOS_PER_SEC as nat) as int;
    let in_day = secs % 86400;
    let in_hour = in_day % 3600;
    let ms = (nanos / NANOS_PER_MILLI as nat) as int;
    vstd::arithmetic::div_mod::lemma_fundamental_div_mod(secs, 86400);
    vstd::arithmetic::div_mod::lemma_fundamental_div_mod(in_day, 3600);
    vstd::arithmetic::div_mod::lemma_fundamental_div_mod(in_hour, 60);
    vstd::arithmetic::div_mod::lemma_fundamental_div_mod(ms, 1000);
    vstd::arithmetic::div_mod::lemma_div_denominator(nanos as int, 1_000_000, 1000);
}

fn push_digit(out: &mut String, d: u128)
    requires
        d < 10,
    ensures
        final(out)@ == old(out)@.push(digit_char(d as nat)),
{
    let s = if d == 0 {
        proof { reveal_strlit("0"); }
        "0"
    } else if d == 1 {
        proof { reveal_strlit("1"); }
        "1"
    } else if d == 2 {
        proof { reveal_strlit("2"); }
        "2"
    } else if d == 3 {
        proof { reveal_strlit("3"); }
        "3"
    } else if d == 4 {
        proof { reveal_strlit("4"); }
        "4"
    } else if d == 5 {
        proof { reveal_strlit("5"); }
        "5"
    } else if d == 6 {
        proof { reveal_strlit("6"); }
        "6"
    } else if d == 7 {
        proof { reveal_strlit("7"); }
        "7"
    } else if d == 8 {
        proof { reveal_strlit("8"); }
        "8"
    } else {
        proof { reveal_strlit("9"); }
        "9"
    };
    assert(s@ =~= seq![digit_char(d as nat)]);
    out.append(s);
    assert(final(out)@ =~= old(out)@.push(digit_char(d as nat)));
}

fn push_decimal(out: &mut String, n: u128)
    ensures
        final(out)@ == old(out)@ + decimal(n as nat),
    decreases n,
{
    if n >= 10 {
        push_decimal(out, n / 10);
    }
    push_digit(out, n % 10);
    assert(final(out)@ =~= old(out)@ + decimal(n as nat));
}

fn push_two(out: &mut String, n: u128)
    ensures
        final(out)@ == old(out)@ + two_digits(n as nat),
{
    push_digit(out, (n / 10) % 10);
    push_digit(out, n % 10);
    assert(final(out)@ =~= old(out)@ + two_digits(n as nat));
}

fn push_three(out: &mut String, n: u128)
    ensures
        final(out)@ == old(out)@ + three_digits(n as nat),
{
    push_digit(out, (n / 100) % 10);
    push_digit(out, (n / 10) % 10);
    push_digit(out, n % 10);
    assert(final(out)@ =~= old(out)@ + three_digits(n as nat));
}

/// Formats a span as `[{days}d ]{hh}h {mm}m {ss}s {mmm}ms`, for instance
/// `1d 01h 01m 01s 500ms` or `01h 01m 01s 000ms`.
pub fn format_duration(duration: Span) -> (r: String)
    ensures
        r@ == format_spec(duration@),
{
    let secs = duration.as_secs();
    let millis = duration.as_millis() % 1000;
    let days = secs / 86400;
    let in_day = secs % 86400;
    let hours = in_day / 3600;
    let in_hour = in_day % 3600;
    let minutes = in_hour / 60;
    let seconds = in_hour % 60;
    let mut out = String::new();
    proof {
        reveal_strlit("d ");
        reveal_strlit("h ");
        reveal_strlit("m ");
        reveal_strlit("s ");
        reveal_strlit("ms");
    }
    if days > 0 {
        push_decimal(&mut out, days);
        out.append("d ");
    }
    push_two(&mut out, hours);
    out.append("h ");
    push_two(&mut out, minutes);
    out.append("m ");
    push_two(&mut out, seconds);
    out.append("s ");
    push_three(&mut out, millis);
    out.append("ms");
    assert(out@ =~= format_spec(duration@));
    out
}

} // verus!
