use vstd::prelude::*;
use crate::format::{format_duration, format_spec, lemma_shown_millis, shown_millis};
use crate::span::Span;

verus! {

/// What the display loop does after reading the clock.
#[derive(Debug)]
pub enum Tick {
    /// Time is left: repaint the line with this text, then wait one tick.
    Repaint(String),
    /// Time is up: repaint the line with this text, end it, and stop.
    Finish(String),
}

/// Which times the status line shows.
#[derive(Clone, Copy, Debug, PartialEq, Eq, Structural)]
pub struct DisplayMode {
    /// Show the time elapsed.
    pub ascending: bool,
    /// Show the time remaining.
    pub descending: bool,
}

/// The status line while time is left: the elapsed time, the remaining time,
/// both with ` | ` between them, or nothing, as the mode asks.
pub open spec fn status_line(total: nat, elapsed: nat, mode: DisplayMode) -> Seq<char> {
    let up = if mode.ascending {
        format_spec(elapsed)
    } else {
        Seq::empty()
    };
    let sep = if mode.ascending && mode.descending {
        seq![' ', '|', ' ']
    } else {
        Seq::empty()
    };
    let down = if mode.descending {
        format_spec((total - elapsed) as nat)
    } else {
        Seq::empty()
    };
    up + sep + down
}

/// Decides one step of the display loop from the total span and the time
/// elapsed since the start. Once the elapsed time reaches the total, the loop
/// finishes with the full total, whatever the mode; before that it repaints
/// the status line.
pub fn tick(total: Span, elapsed: Span, mode: DisplayMode) -> (r: Tick)
    ensures
        elapsed@ >= total@ <==> r is Finish,
        r matches Tick::Finish(s) ==> s@ == format_spec(total@),
        r matches Tick::Repaint(s) ==> s@ == status_line(total@, elapsed@, mode),
{
    if elapsed.nanos >= total.nanos {
        return Tick::Finish(format_duration(total));
    }
    let mut line = String::new();
    if mode.ascending {
        let up = format_duration(elapsed);
        line.append(up.as_str());
    }
    if mode.ascending && mode.descending {
        proof {
            reveal_strlit(" | ");
        }
        line.append(" | ");
    }
    if mode.descending {
        let down = format_duration(total.minus(&elapsed));
        line.append(down.as_str());
    }
    assert(line@ =~= status_line(total@, elapsed@, mode));
    Tick::Repaint(line)
}

/// While time is left, the elapsed time shown and the remaining time shown add
/// up to the total shown, or to one millisecond less.
pub proof fn lemma_shown_times_add_up(total: nat, elapsed: nat)
    requires
        elapsed <= total,
    ensures
        shown_millis(elapsed) + shown_millis((total - elapsed) as nat) <= shown_millis(total),
        shown_millis(total) <= shown_millis(elapsed) + shown_millis((total - elapsed) as nat) + 1,
{
    let d = 1_000_000int;
    let a = elapsed as int;
    let b = total - elapsed;
    lemma_shown_millis(elapsed);
    lemma_shown_millis((total - elapsed) as nat);
    lemma_shown_millis(total);
    vstd::arithmetic::div_mod::lemma_fundamental_div_mod(a, d);
    vstd::arithmetic::div_mod::lemma_fundamental_div_mod(b, d);
    vstd::arithmetic::div_mod::lemma_fundamental_div_mod(a + b, d);
    vstd::arithmetic::div_mod::lemma_mod_bound(a, d);
    vstd::arithmetic::div_mod::lemma_mod_bound(b, d);
    vstd::arithmetic::div_mod::lemma_mod_bound(a + b, d);
    let qa = a / d;
    let qb = b / d;
    let qt = (a + b) / d;
    assert(qa + qb <= qt <= qa + qb + 1) by (nonlinear_arith)
        requires
            a == d * qa + a % d,
            b == d * qb + b % d,
            a + b == d * qt + (a + b) % d,
            0 <= a % d < d,
            0 <= b % d < d,
            0 <= (a + b) % d < d,
            d > 0,
    ;
}

/// As the elapsed time grows, the elapsed time shown never decreases and the
/// remaining time shown never increases.
pub proof fn lemma_shown_times_move(total: nat, earlier: nat, later: nat)
    requires
        earlier <= later <= total,
    ensures
        shown_millis(earlier) <= shown_millis(later),
        shown_millis((total - later) as nat) <= shown_millis((total - earlier) as nat),
{
    lemma_shown_millis(earlier);
    lemma_shown_millis(later);
    lemma_shown_millis((total - later) as nat);
    lemma_shown_millis((total - earlier) as nat);
    vstd::arithmetic::div_mod::lemma_div_is_ordered(earlier as int, later as int, 1_000_000);
    vstd::arithmetic::div_mod::lemma_div_is_ordered(total - later, total - earlier, 1_000_000);
}

} // verus!
