use vstd::prelude::*;
use crate::span::{Span, MAX_NANOS};

verus! {

/// Why a list of duration tokens was rejected.
#[derive(Clone, Copy, Debug, PartialEq, Eq, Structural)]
pub enum ParsingError {
    /// A token's number does not read as a decimal number.
    InvalidNumber,
    /// A token's unit is none of `ms`, `s`, `m`, `h`, `d`.
    InvalidUnit,
}

impl ParsingError {
    /// The line that reports the error.
    pub fn message(&self) -> (r: String)
        ensures
            r@ == match self {
                ParsingError::InvalidNumber => "Error: Invalid number format"@,
                ParsingError::InvalidUnit => "Error: Invalid unit format"@,
            },
    {
        match self {
            ParsingError::InvalidNumber => String::from_str("Error: Invalid number format"),
            ParsingError::InvalidUnit => String::from_str("Error: Invalid unit format"),
        }
    }
}

/// The unit that follows a token's number.
#[derive(Clone, Copy, Debug, PartialEq, Eq, Structural)]
pub enum Unit {
    Milliseconds,
    Seconds,
    Minutes,
    Hours,
    Days,
}

/// Integer parts at or above this bound give more than `SUM_CAP` nanoseconds in
/// every unit, so reading stops counting there.
pub const INT_CAP: u128 = 10_000_000_000_000_000_000_000_000_000_000_000_000;

/// What one token adds, and the running sum of the tokens, saturate at plus or
/// minus this many nanoseconds, far beyond `MAX_NANOS`.
pub const SUM_CAP: i128 = 10_000_000_000_000_000_000_000_000_000_000_000_000;

/// Fraction digits are read to this many places: `10^18`.
pub const FRACTION_SCALE: u128 = 1_000_000_000_000_000_000;

/// Whether `c` has Unicode's Alphabetic property.
pub uninterp spec fn alphabetic(c: char) -> bool;

/// Relies on `char::is_alphabetic`: whether `c` has Unicode's Alphabetic
/// property, which among ASCII characters the Latin letters alone have.
#[verifier::external_body]
fn is_alphabetic(c: char) -> (r: bool)
    ensures
        r == alphabetic(c),
        c <= '\x7f' ==> (r <==> ('a' <= c <= 'z' || 'A' <= c <= 'Z')),
{
    c.is_alphabetic()
}

/// Index of the first element of `s` that satisfies `p`, or `s.len()` if none does.
pub open spec fn first_where(s: Seq<char>, p: spec_fn(char) -> bool) -> nat
    decreases s.len(),
{
    if s.len() == 0 {
        0
    } else if p(s[0]) {
        0
    } else {
        1 + first_where(s.drop_first(), p)
    }
}

/// Where a token's unit begins: at its first alphabetic character.
pub open spec fn unit_start(t: Seq<char>) -> nat {
    first_where(t, |c: char| alphabetic(c))
}

/// The number part of a token: everything before its unit.
pub open spec fn number_part(t: Seq<char>) -> Seq<char> {
    t.take(unit_start(t) as int)
}

/// A token's unit as written, or `s` where none is written.
pub open spec fn unit_or_default(u: Seq<char>) -> Seq<char> {
    if u.len() > 0 {
        u
    } else {
        seq!['s']
    }
}

pub open spec fn is_digit(c: char) -> bool {
    '0' <= c <= '9'
}

pub open spec fn digit_value(c: char) -> nat {
    (c as int - '0' as int) as nat
}

pub open spec fn all_digits(s: Seq<char>) -> bool {
    forall|i: int| 0 <= i < s.len() ==> is_digit(#[trigger] s[i])
}

/// The natural number that a string of decimal digits denotes.
pub open spec fn digits_value(s: Seq<char>) -> nat
    decreases s.len(),
{
    if s.len() == 0 {
        0
    } else {
        digits_value(s.drop_last()) * 10 + digit_value(s.last())
    }
}

/// Length of a leading `+` or `-`.
pub open spec fn sign_len(n: Seq<char>) -> nat {
    if n.len() > 0 && (n[0] == '+' || n[0] == '-') {
        1
    } else {
        0
    }
}

pub open spec fn is_negative(n: Seq<char>) -> bool {
    n.len() > 0 && n[0] == '-'
}

/// The number without its sign.
pub open spec fn mantissa(n: Seq<char>) -> Seq<char> {
    n.skip(sign_len(n) as int)
}

pub open spec fn dot_index(m: Seq<char>) -> nat {
    first_where(m, |c: char| c == '.')
}

/// Digits before the decimal point.
pub open spec fn whole_digits(m: Seq<char>) -> Seq<char> {
    m.take(dot_index(m) as int)
}

/// Digits after the decimal point.
pub open spec fn fraction_digits(m: Seq<char>) -> Seq<char> {
    if dot_index(m) < m.len() {
        m.skip(dot_index(m) + 1int)
    } else {
        Seq::empty()
    }
}

/// A number is an optional sign, then digits with at most one decimal point
/// among them, and at least one digit.
pub open spec fn valid_number(n: Seq<char>) -> bool {
    let m = mantissa(n);
    &&& all_digits(whole_digits(m))
    &&& all_digits(fraction_digits(m))
    &&& whole_digits(m).len() + fraction_digits(m).len() > 0
}

/// The first eighteen fraction digits, padded with zeros.
pub open spec fn fraction_padded(f: Seq<char>) -> Seq<char> {
    Seq::new(18, |i: int| if i < f.len() { f[i] } else { '0' })
}

/// `10^k`.
pub open spec fn pow10(k: nat) -> nat
    decreases k,
{
    if k == 0 {
        1
    } else {
        10 * pow10((k - 1) as nat)
    }
}

pub open spec fn unit_of(u: Seq<char>) -> Option<Unit> {
    if u == seq!['m', 's'] {
        Some(Unit::Milliseconds)
    } else if u == seq!['s'] {
        Some(Unit::Seconds)
    } else if u == seq!['m'] {
        Some(Unit::Minutes)
    } else if u == seq!['h'] {
        Some(Unit::Hours)
    } else if u == seq!['d'] {
        Some(Unit::Days)
    } else {
        None
    }
}

pub open spec fn nanos_per_unit(u: Unit) -> nat {
    match u {
        Unit::Milliseconds => 1_000_000,
        Unit::Seconds => 1_000_000_000,
        Unit::Minutes => 60_000_000_000,
        Unit::Hours => 3_600_000_000_000,
        Unit::Days => 86_400_000_000_000,
    }
}

/// Nanoseconds in the number `n` (its sign aside) of unit `u`, rounded down:
/// the whole part times the unit, plus the fraction, read to eighteen places,
/// times the unit.
pub open spec fn magnitude_nanos(n: Seq<char>, u: Unit) -> nat {
    let m = mantissa(n);
    digits_value(whole_digits(m)) * nanos_per_unit(u) + digits_value(
        fraction_padded(fraction_digits(m)),
    ) * nanos_per_unit(u) / FRACTION_SCALE as nat
}

/// `v`, counting no higher than `INT_CAP`.
pub open spec fn capped(v: nat) -> nat {
    if v < INT_CAP {
        v
    } else {
        INT_CAP as nat
    }
}

pub open spec fn clamp(x: int, lo: int, hi: int) -> int {
    if x < lo {
        lo
    } else if x > hi {
        hi
    } else {
        x
    }
}

/// What the token with number `n` and unit `u` (empty for none) adds to the
/// total, in nanoseconds: negative for a negative number, and at most
/// `SUM_CAP` either way.
pub open spec fn split_nanos(n: Seq<char>, u: Seq<char>) -> Result<int, ParsingError> {
    if !valid_number(n) {
        Err(ParsingError::InvalidNumber)
    } else {
        match unit_of(unit_or_default(u)) {
            None => Err(ParsingError::InvalidUnit),
            Some(unit) => {
                let mag = clamp(magnitude_nanos(n, unit) as int, 0, SUM_CAP as int);
                Ok(if is_negative(n) { -mag } else { mag })
            },
        }
    }
}

/// What token `t` adds to the total, in nanoseconds.
pub open spec fn token_nanos(t: Seq<char>) -> Result<int, ParsingError> {
    split_nanos(number_part(t), t.skip(unit_start(t) as int))
}

/// The tokens' spans summed in order, the sum saturating at `SUM_CAP`; the
/// first bad token decides the error.
pub open spec fn running_total(ts: Seq<Seq<char>>) -> Result<int, ParsingError>
    decreases ts.len(),
{
    if ts.len() == 0 {
        Ok(0)
    } else {
        match running_total(ts.drop_last()) {
            Err(e) => Err(e),
            Ok(acc) => match token_nanos(ts.last()) {
                Err(e) => Err(e),
                Ok(c) => Ok(clamp(acc + c, -SUM_CAP, SUM_CAP as int)),
            },
        }
    }
}

/// The total span of the tokens in nanoseconds, between zero and `MAX_NANOS`.
pub open spec fn total_nanos(ts: Seq<Seq<char>>) -> Result<nat, ParsingError> {
    match running_total(ts) {
        Err(e) => Err(e),
        Ok(s) => Ok(clamp(s, 0, MAX_NANOS as int) as nat),
    }
}

pub open spec fn token_views(v: Seq<String>) -> Seq<Seq<char>> {
    v.map_values(|s: String| s@)
}

proof fn lemma_first_where(s: Seq<char>, p: spec_fn(char) -> bool, i: int)
    requires
        0 <= i <= s.len(),
        forall|j: int| 0 <= j < i ==> !p(#[trigger] s[j]),
        i == s.len() || p(s[i]),
    ensures
        first_where(s, p) == i,
    decreases i,
{
    if i > 0 {
        let t = s.drop_first();
        assert forall|j: int| 0 <= j < i - 1 implies !p(#[trigger] t[j]) by {
            assert(t[j] == s[j + 1]);
        }
        lemma_first_where(t, p, i - 1);
    }
}

/// Where the unit of token `t` begins.
fn find_unit_start(t: &str) -> (r: usize)
    ensures
        r == unit_start(t@),
        r <= t@.len(),
{
    let len = t.unicode_len();
    let mut i: usize = 0;
    while i < len && !is_alphabetic(t.get_char(i))
        invariant
            len == t@.len(),
            i <= len,
            forall|j: int| 0 <= j < i ==> !alphabetic(#[trigger] t@[j]),
        decreases len - i,
    {
        i = i + 1;
    }
    proof {
        lemma_first_where(t@, |c: char| alphabetic(c), i as int);
    }
    i
}

fn digit_of(c: char) -> (r: u128)
    requires
        is_digit(c),
    ensures
        r == digit_value(c),
        r <= 9,
{
    (c as u32 - '0' as u32) as u128
}

/// Whether every character of `t[from..to]` is a decimal digit.
fn digits_only(t: &str, from: usize, to: usize) -> (r: bool)
    requires
        from <= to <= t@.len(),
    ensures
        r == all_digits(t@.subrange(from as int, to as int)),
{
    let mut i: usize = from;
    while i < to
        invariant
            from <= i <= to <= t@.len(),
            forall|j: int| from <= j < i ==> is_digit(#[trigger] t@[j]),
        decreases to - i,
    {
        let c = t.get_char(i);
        if !('0' <= c && c <= '9') {
            assert(t@.subrange(from as int, to as int)[i - from] == c);
            return false;
        }
        i = i + 1;
    }
    assert forall|j: int| 0 <= j < to - from implies is_digit(
        #[trigger] t@.subrange(from as int, to as int)[j],
    ) by {
        assert(t@.subrange(from as int, to as int)[j] == t@[from + j]);
    }
    true
}

/// The value of the digits `t[from..to]`, counting no higher than `INT_CAP`.
fn digits_capped(t: &str, from: usize, to: usize) -> (r: u128)
    requires
        from <= to <= t@.len(),
        all_digits(t@.subrange(from as int, to as int)),
    ensures
        r == capped(digits_value(t@.subrange(from as int, to as int))),
{
    let mut acc: u128 = 0;
    let mut i: usize = from;
    assert(t@.subrange(from as int, from as int) =~= Seq::<char>::empty());
    while i < to
        invariant
            from <= i <= to <= t@.len(),
            all_digits(t@.subrange(from as int, to as int)),
            acc == capped(digits_value(t@.subrange(from as int, i as int))),
        decreases to - i,
    {
        let c = t.get_char(i);
        assert(t@.subrange(from as int, to as int)[i - from] == c);
        let d = digit_of(c);
        let ghost prev = t@.subrange(from as int, i as int);
        let ghost next = t@.subrange(from as int, i + 1);
        assert(next.drop_last() =~= prev);
        assert(digits_value(next) == digits_value(prev) * 10 + d);
        acc = if acc * 10 + d < INT_CAP {
            acc * 10 + d
        } else {
            INT_CAP
        };
        i = i + 1;
    }
    acc
}

proof fn lemma_pow10_grows(a: nat, b: nat)
    requires
        a <= b,
    ensures
        1 <= pow10(a) <= pow10(b),
    decreases b,
{
    if b > a {
        lemma_pow10_grows(a, (b - 1) as nat);
    } else if b > 0 {
        lemma_pow10_grows((b - 1) as nat, (b - 1) as nat);
    }
}

/// The value of the first eighteen digits of `t[from..to]`, padded with zeros.
fn eighteen_digits(t: &str, from: usize, to: usize) -> (r: u128)
    requires
        from <= to <= t@.len(),
        all_digits(t@.subrange(from as int, to as int)),
    ensures
        r == digits_value(fraction_padded(t@.subrange(from as int, to as int))),
        r < FRACTION_SCALE,
{
    let ghost f = t@.subrange(from as int, to as int);
    let ghost padded = fraction_padded(f);
    let mut acc: u128 = 0;
    let mut k: usize = 0;
    assert(padded.take(0) =~= Seq::<char>::empty());
    proof {
        reveal_with_fuel(pow10, 19);
    }
    while k < 18
        invariant
            from <= to <= t@.len(),
            f == t@.subrange(from as int, to as int),
            padded == fraction_padded(f),
            all_digits(f),
            k <= 18,
            acc == digits_value(padded.take(k as int)),
            acc < pow10(k as nat),
            pow10(17) == 100_000_000_000_000_000,
        decreases 18 - k,
    {
        let c = if k < to - from {
            t.get_char(from + k)
        } else {
            '0'
        };
        assert(padded[k as int] == c);
        let d = digit_of(c);
        assert(padded.take(k + 1).drop_last() =~= padded.take(k as int));
        proof {
            lemma_pow10_grows(k as nat, 17);
        }
        acc = acc * 10 + d;
        k = k + 1;
    }
    assert(padded.take(18) =~= padded);
    acc
}

/// Where the first decimal point of `t[from..to]` stands, as an index into `t`,
/// or `to` if there is none.
fn find_dot(t: &str, from: usize, to: usize) -> (r: usize)
    requires
        from <= to <= t@.len(),
    ensures
        r == from + dot_index(t@.subrange(from as int, to as int)),
        from <= r <= to,
{
    let ghost m = t@.subrange(from as int, to as int);
    let mut i: usize = from;
    while i < to && t.get_char(i) != '.'
        invariant
            from <= i <= to <= t@.len(),
            m == t@.subrange(from as int, to as int),
            forall|j: int| from <= j < i ==> #[trigger] t@[j] != '.',
        decreases to - i,
    {
        i = i + 1;
    }
    proof {
        assert forall|j: int| 0 <= j < i - from implies !((|c: char| c == '.')(#[trigger] m[j])) by {
            assert(m[j] == t@[from + j]);
        }
        if i < to {
            assert(m[i - from] == t@[i as int]);
        }
        lemma_first_where(m, |c: char| c == '.', i - from);
    }
    i
}

/// Reads the number `t[..end]`: its sign, its integer part counted no higher
/// than `INT_CAP`, and its first eighteen fraction digits.
fn read_number(t: &str, end: usize) -> (r: Option<(bool, u128, u128)>)
    requires
        end <= t@.len(),
    ensures
        r is Some <==> valid_number(t@.take(end as int)),
        r matches Some((neg, w, f)) ==> {
            let m = mantissa(t@.take(end as int));
            &&& neg == is_negative(t@.take(end as int))
            &&& w == capped(digits_value(whole_digits(m)))
            &&& f == digits_value(fraction_padded(fraction_digits(m)))
            &&& f < FRACTION_SCALE
        },
{
    let ghost n = t@.take(end as int);
    let mut s: usize = 0;
    let mut neg = false;
    if end > 0 {
        let c = t.get_char(0);
        if c == '+' || c == '-' {
            s = 1;
            neg = c == '-';
        }
    }
    let ghost m = n.skip(s as int);
    assert(m =~= t@.subrange(s as int, end as int));
    let d = find_dot(t, s, end);
    assert(whole_digits(m) =~= t@.subrange(s as int, d as int));
    let frac_from = if d < end {
        d + 1
    } else {
        end
    };
    assert(fraction_digits(m) =~= t@.subrange(frac_from as int, end as int));
    if !digits_only(t, s, d) || !digits_only(t, frac_from, end) || (d - s) + (end - frac_from)
        == 0 {
        return None;
    }
    Some((neg, digits_capped(t, s, d), eighteen_digits(t, frac_from, end)))
}

/// The unit written from `start` on in `t`, seconds where none is written.
fn token_unit(t: &str, start: usize) -> (r: Option<Unit>)
    requires
        start <= t@.len(),
    ensures
        r == unit_of(unit_or_default(t@.skip(start as int))),
{
    let len = t.unicode_len();
    let ghost u = t@.skip(start as int);
    if start == len {
        assert(unit_or_default(u) =~= seq!['s']);
        assert(seq!['s'] != seq!['m', 's']);
        return Some(Unit::Seconds);
    }
    let k = len - start;
    let c0 = t.get_char(start);
    assert(u.len() == k && u[0] == c0);
    assert(unit_or_default(u) == u);
    if k == 1 {
        if c0 == 's' {
            assert(u =~= seq!['s']);
            Some(Unit::Seconds)
        } else if c0 == 'm' {
            assert(u =~= seq!['m']);
            Some(Unit::Minutes)
        } else if c0 == 'h' {
            assert(u =~= seq!['h']);
            Some(Unit::Hours)
        } else if c0 == 'd' {
            assert(u =~= seq!['d']);
            Some(Unit::Days)
        } else {
            assert(u != seq!['s'] && u != seq!['m'] && u != seq!['h'] && u != seq!['d']);
            None
        }
    } else if k == 2 && c0 == 'm' && t.get_char(start + 1) == 's' {
        assert(u =~= seq!['m', 's']);
        Some(Unit::Milliseconds)
    } else {
        if k == 2 {
            assert(u[1] == t@[start + 1]);
        }
        assert(u != seq!['m', 's']);
        None
    }
}

/// Saturating the integer part at `INT_CAP`, and testing it against
/// `SUM_CAP / npu` before multiplying, gives the clamped magnitude.
proof fn lemma_saturation(whole: nat, npu: nat, frac: nat)
    requires
        1_000_000 <= npu <= 86_400_000_000_000,
        frac < npu,
    ensures
        capped(whole) > SUM_CAP as int / npu as int ==> whole * npu + frac > SUM_CAP,
        capped(whole) <= SUM_CAP as int / npu as int ==> capped(whole) == whole && whole * npu
            <= SUM_CAP,
{
    let limit = SUM_CAP as int;
    let q = limit / npu as int;
    let r = limit % npu as int;
    vstd::arithmetic::div_mod::lemma_fundamental_div_mod(limit, npu as int);
    vstd::arithmetic::div_mod::lemma_mod_bound(limit, npu as int);
    assert(q * 1_000_000 <= q * npu) by (nonlinear_arith)
        requires
            q >= 0,
            npu >= 1_000_000,
    ;
    assert(q * npu <= limit) by (nonlinear_arith)
        requires
            limit == npu * q + r,
            r >= 0,
    ;
    assert(q < INT_CAP);
    if capped(whole) > q {
        if whole < INT_CAP {
            assert(whole * npu > limit) by (nonlinear_arith)
                requires
                    whole >= q + 1,
                    0 <= r < npu,
                    limit == npu * q + r,
            ;
        } else {
            assert(whole * npu >= INT_CAP * 1_000_000) by (nonlinear_arith)
                requires
                    whole >= INT_CAP,
                    npu >= 1_000_000,
            ;
        }
    } else {
        assert(whole * npu <= q * npu) by (nonlinear_arith)
            requires
                whole <= q,
                npu >= 0,
        ;
    }
}

/// What the token `t`, split at `start` into its number and its unit, adds to
/// the total, in nanoseconds.
pub fn token_span_at(t: &str, start: usize) -> (r: Result<i128, ParsingError>)
    requires
        start <= t@.len(),
    ensures
        r is Ok <==> split_nanos(t@.take(start as int), t@.skip(start as int)) is Ok,
        r is Ok ==> r->Ok_0 == split_nanos(t@.take(start as int), t@.skip(start as int))->Ok_0,
        r is Err ==> r->Err_0 == split_nanos(t@.take(start as int), t@.skip(start as int))->Err_0,
        r is Ok ==> -SUM_CAP <= r->Ok_0 <= SUM_CAP,
{
    match read_number(t, start) {
        None => Err(ParsingError::InvalidNumber),
        Some((neg, w, f)) => match token_unit(t, start) {
            None => Err(ParsingError::InvalidUnit),
            Some(u) => {
                let npu: u128 = match u {
                    Unit::Milliseconds => 1_000_000,
                    Unit::Seconds => 1_000_000_000,
                    Unit::Minutes => 60_000_000_000,
                    Unit::Hours => 3_600_000_000_000,
                    Unit::Days => 86_400_000_000_000,
                };
                assert(f * npu < FRACTION_SCALE * npu) by (nonlinear_arith)
                    requires
                        f < FRACTION_SCALE,
                        npu > 0,
                ;
                let frac_ns: u128 = f * npu / FRACTION_SCALE;
                assert(frac_ns < npu) by (nonlinear_arith)
                    requires
                        frac_ns as int == (f * npu) as int / FRACTION_SCALE as int,
                        f * npu < FRACTION_SCALE * npu,
                ;
                let limit: u128 = SUM_CAP as u128;
                proof {
                    let m = mantissa(t@.take(start as int));
                    lemma_saturation(digits_value(whole_digits(m)), npu as nat, frac_ns as nat);
                }
                let mag: u128 = if w > limit / npu {
                    limit
                } else {
                    let x = w * npu + frac_ns;
                    if x > limit {
                        limit
                    } else {
                        x
                    }
                };
                Ok(
                    if neg {
                        -(mag as i128)
                    } else {
                        mag as i128
                    },
                )
            },
        },
    }
}

/// What token `t` adds to the total, in nanoseconds.
pub fn token_span(t: &str) -> (r: Result<i128, ParsingError>)
    ensures
        r is Ok <==> token_nanos(t@) is Ok,
        r is Ok ==> r->Ok_0 == token_nanos(t@)->Ok_0,
        r is Err ==> r->Err_0 == token_nanos(t@)->Err_0,
        r is Ok ==> -SUM_CAP <= r->Ok_0 <= SUM_CAP,
{
    let start = find_unit_start(t);
    token_span_at(t, start)
}

proof fn lemma_error_persists(ts: Seq<Seq<char>>, k: int)
    requires
        0 <= k <= ts.len(),
        running_total(ts.take(k)) is Err,
    ensures
        running_total(ts) == running_total(ts.take(k)),
    decreases ts.len(),
{
    if k == ts.len() {
        assert(ts.take(k) =~= ts);
    } else {
        assert(ts.drop_last().take(k) =~= ts.take(k));
        lemma_error_persists(ts.drop_last(), k);
    }
}

/// Sums duration tokens such as `10s`, `1.5h` or `250ms` into one span.
///
/// A token is a number followed by an optional unit (`ms`, `s`, `m`, `h` or
/// `d`; seconds when absent), split at its first alphabetic character.
/// Each token adds its number times its unit, rounded down to whole
/// nanoseconds; negative numbers subtract, and a total below zero counts as
/// zero. The first bad
/// token decides the error: a number that does not read gives
/// `InvalidNumber`, an unknown unit `InvalidUnit`.
pub fn parse_duration(arguments: Vec<String>) -> (r: Result<Span, ParsingError>)
    ensures
        r is Ok <==> total_nanos(token_views(arguments@)) is Ok,
        r is Ok ==> r->Ok_0@ == total_nanos(token_views(arguments@))->Ok_0,
        r is Err ==> r->Err_0 == total_nanos(token_views(arguments@))->Err_0,
{
    let ghost ts = token_views(arguments@);
    let mut acc: i128 = 0;
    let mut i: usize = 0;
    assert(ts.take(0) =~= Seq::<Seq<char>>::empty());
    while i < arguments.len()
        invariant
            ts == token_views(arguments@),
            0 <= i <= arguments@.len(),
            running_total(ts.take(i as int)) == Ok::<int, ParsingError>(acc as int),
            -SUM_CAP <= acc <= SUM_CAP,
        decreases arguments.len() - i,
    {
        let tok = arguments[i].as_str();
        assert(ts.take(i + 1).drop_last() =~= ts.take(i as int));
        assert(ts.take(i + 1).last() == tok@);
        match token_span(tok) {
            Err(e) => {
                proof {
                    lemma_error_persists(ts, i + 1);
                }
                return Err(e);
            },
            Ok(c) => {
                let s = acc + c;
                acc = if s < -SUM_CAP {
                    -SUM_CAP
                } else if s > SUM_CAP {
                    SUM_CAP
                } else {
                    s
                };
            },
        }
        i = i + 1;
    }
    assert(ts.take(arguments@.len() as int) =~= ts);
    let total: u128 = if acc < 0 {
        0
    } else if acc > MAX_NANOS as i128 {
        MAX_NANOS
    } else {
        acc as u128
    };
    Ok(Span { nanos: total })
}

/// The sum of `f` over the tokens.
pub open spec fn sum_of(ts: Seq<Seq<char>>, f: spec_fn(Seq<char>) -> int) -> int
    decreases ts.len(),
{
    if ts.len() == 0 {
        0
    } else {
        sum_of(ts.drop_last(), f) + f(ts.last())
    }
}

/// What a valid token adds to the total.
pub open spec fn token_value(t: Seq<char>) -> int {
    token_nanos(t)->Ok_0
}

/// The size of what a valid token adds to the total, whatever its sign.
pub open spec fn token_magnitude(t: Seq<char>) -> int {
    if token_value(t) < 0 {
        -token_value(t)
    } else {
        token_value(t)
    }
}

pub open spec fn all_valid(ts: Seq<Seq<char>>) -> bool {
    forall|i: int| 0 <= i < ts.len() ==> #[trigger] token_nanos(ts[i]) is Ok
}

proof fn lemma_unsaturated(ts: Seq<Seq<char>>)
    requires
        all_valid(ts),
        sum_of(ts, |t: Seq<char>| token_magnitude(t)) <= SUM_CAP,
    ensures
        running_total(ts) == Ok::<int, ParsingError>(sum_of(ts, |t: Seq<char>| token_value(t))),
        -sum_of(ts, |t: Seq<char>| token_magnitude(t)) <= sum_of(ts, |t: Seq<char>| token_value(t))
            <= sum_of(ts, |t: Seq<char>| token_magnitude(t)),
    decreases ts.len(),
{
    if ts.len() > 0 {
        let p = ts.drop_last();
        assert(token_nanos(ts[ts.len() - 1]) is Ok);
        assert forall|i: int| 0 <= i < p.len() implies #[trigger] token_nanos(p[i]) is Ok by {
            assert(p[i] == ts[i]);
        }
        lemma_magnitudes_nonnegative(p);
        lemma_unsaturated(p);
    }
}

proof fn lemma_magnitudes_nonnegative(ts: Seq<Seq<char>>)
    ensures
        sum_of(ts, |t: Seq<char>| token_magnitude(t)) >= 0,
    decreases ts.len(),
{
    if ts.len() > 0 {
        lemma_magnitudes_nonnegative(ts.drop_last());
    }
}

proof fn lemma_sum_remove(ts: Seq<Seq<char>>, i: int, f: spec_fn(Seq<char>) -> int)
    requires
        0 <= i < ts.len(),
    ensures
        sum_of(ts, f) == sum_of(ts.remove(i), f) + f(ts[i]),
    decreases ts.len(),
{
    if i == ts.len() - 1 {
        assert(ts.remove(i) =~= ts.drop_last());
    } else {
        let r = ts.remove(i);
        assert(r.drop_last() =~= ts.drop_last().remove(i));
        assert(r.last() == ts.last());
        lemma_sum_remove(ts.drop_last(), i, f);
    }
}

proof fn lemma_sum_reorder(a: Seq<Seq<char>>, b: Seq<Seq<char>>, f: spec_fn(Seq<char>) -> int)
    requires
        a.to_multiset() == b.to_multiset(),
    ensures
        sum_of(a, f) == sum_of(b, f),
    decreases a.len(),
{
    broadcast use vstd::seq_lib::group_to_multiset_ensures;

    if a.len() == 0 {
        assert(b.to_multiset().len() == 0);
    } else {
        let x = a.last();
        let p = a.drop_last();
        assert(p.push(x) =~= a);
        assert(a.to_multiset().count(x) > 0);
        assert(b.contains(x));
        let i = choose|i: int| 0 <= i < b.len() && b[i] == x;
        let q = b.remove(i);
        assert(q.to_multiset() =~= b.to_multiset().remove(x));
        assert(p.to_multiset() =~= q.to_multiset());
        lemma_sum_reorder(p, q, f);
        lemma_sum_remove(b, i, f);
    }
}

/// Reordering valid tokens leaves their total unchanged, as long as the
/// running sum cannot saturate: that is, while the sizes of what the tokens
/// add sum to at most `SUM_CAP`.
pub proof fn lemma_total_ignores_order(a: Seq<Seq<char>>, b: Seq<Seq<char>>)
    requires
        a.to_multiset() == b.to_multiset(),
        all_valid(a),
        sum_of(a, |t: Seq<char>| token_magnitude(t)) <= SUM_CAP,
    ensures
        total_nanos(a) is Ok,
        total_nanos(a) == total_nanos(b),
{
    broadcast use vstd::seq_lib::group_to_multiset_ensures;

    assert forall|j: int| 0 <= j < b.len() implies #[trigger] token_nanos(b[j]) is Ok by {
        assert(b.to_multiset().count(b[j]) > 0);
        assert(a.contains(b[j]));
    }
    lemma_sum_reorder(a, b, |t: Seq<char>| token_magnitude(t));
    lemma_sum_reorder(a, b, |t: Seq<char>| token_value(t));
    lemma_unsaturated(a);
    lemma_unsaturated(b);
}

} // verus!
