use timer::parse::SUM_CAP;
use timer::{
    format_duration, parse_duration, tick, token_span, token_span_at, DisplayMode, ParsingError,
    Span, Tick, MAX_NANOS,
};

fn parse(tokens: &[&str]) -> Result<Span, ParsingError> {
    parse_duration(tokens.iter().map(|t| t.to_string()).collect())
}

fn secs(s: u64) -> Span {
    Span::new(s, 0)
}

#[test]
fn thousand_milliseconds_make_one_second() {
    assert_eq!(parse(&["1000ms"]), parse(&["1s"]));
    assert_eq!(parse(&["1s"]), Ok(secs(1)));
}

#[test]
fn larger_units_match_smaller_ones() {
    assert_eq!(parse(&["1m"]), parse(&["60s"]));
    assert_eq!(parse(&["1h"]), parse(&["60m"]));
    assert_eq!(parse(&["1d"]), parse(&["24h"]));
    assert_eq!(parse(&["1d"]), Ok(secs(86_400)));
}

#[test]
fn letters_alone_are_no_number() {
    assert_eq!(parse(&["abcs"]), Err(ParsingError::InvalidNumber));
}

#[test]
fn unknown_unit_is_refused() {
    assert_eq!(parse(&["10x"]), Err(ParsingError::InvalidUnit));
    assert_eq!(parse(&["1x"]), Err(ParsingError::InvalidUnit));
}

#[test]
fn bare_number_counts_seconds() {
    assert_eq!(parse(&["5"]), Ok(secs(5)));
}

#[test]
fn day_hour_minute_second_and_millis() {
    assert_eq!(format_duration(Span::from_millis(90_061_500)), "1d 01h 01m 01s 500ms");
}

#[test]
fn no_day_prefix_without_days() {
    assert_eq!(format_duration(Span::from_millis(3_661_000)), "01h 01m 01s 000ms");
}

#[test]
fn zero_and_many_days() {
    assert_eq!(format_duration(Span::new(0, 0)), "00h 00m 00s 000ms");
    assert_eq!(format_duration(Span::new(86_400 * 123 + 59, 999_999_999)), "123d 00h 00m 59s 999ms");
}

#[test]
fn reordering_keeps_the_total() {
    let a = parse(&["1h", "30m", "15s", "250ms", "-2s"]);
    let b = parse(&["-2s", "250ms", "15s", "30m", "1h"]);
    assert_eq!(a, b);
    assert_eq!(a, Ok(Span::from_millis(5_413_250)));
}

#[test]
fn fractions_and_signs() {
    assert_eq!(parse(&["1.5h"]), Ok(secs(5_400)));
    assert_eq!(parse(&[".5s"]), Ok(Span::from_millis(500)));
    assert_eq!(parse(&["5.s"]), Ok(secs(5)));
    assert_eq!(parse(&["+5s"]), Ok(secs(5)));
    assert_eq!(parse(&["10s", "-5s"]), Ok(secs(5)));
    assert_eq!(parse(&["-5s"]), Ok(secs(0)));
    assert_eq!(parse(&["0.0000000019s"]), Ok(Span::new(0, 1)));
    assert_eq!(parse(&["0.0000001ms"]), Ok(Span::new(0, 0)));
}

#[test]
fn malformed_numbers() {
    assert_eq!(parse(&["."]), Err(ParsingError::InvalidNumber));
    assert_eq!(parse(&["+"]), Err(ParsingError::InvalidNumber));
    assert_eq!(parse(&[""]), Err(ParsingError::InvalidNumber));
    assert_eq!(parse(&["1.2.3s"]), Err(ParsingError::InvalidNumber));
    assert_eq!(parse(&["1_000s"]), Err(ParsingError::InvalidNumber));
    assert_eq!(parse(&["+-5s"]), Err(ParsingError::InvalidNumber));
}

#[test]
fn unit_is_case_sensitive_and_starts_at_first_letter() {
    assert_eq!(parse(&["5MS"]), Err(ParsingError::InvalidUnit));
    assert_eq!(parse(&["1e3s"]), Err(ParsingError::InvalidUnit));
    assert_eq!(parse(&["5sec"]), Err(ParsingError::InvalidUnit));
}

#[test]
fn first_bad_token_decides() {
    assert_eq!(parse(&["1s", "10y", "abc"]), Err(ParsingError::InvalidUnit));
    assert_eq!(parse(&["abc", "10y"]), Err(ParsingError::InvalidNumber));
}

#[test]
fn huge_tokens_saturate() {
    assert_eq!(parse(&["99999999999999999999999999999999999999d"]), Ok(Span { nanos: MAX_NANOS }));
    assert_eq!(token_span("-99999999999999999999999999999999999999d"), Ok(-SUM_CAP));
}

#[test]
fn huge_tokens_cancel() {
    assert_eq!(
        parse(&["100000000000000000000s", "-99000000000000000000s"]),
        Ok(Span::new(1_000_000_000_000_000_000, 0))
    );
}

#[test]
fn small_fractions_of_large_units_add_up() {
    let tokens = ["0.0000000009d"; 13];
    assert_eq!(token_span("0.0000000009d"), Ok(77_760));
    assert_eq!(parse(&tokens), Ok(Span::new(0, 1_010_880)));
    assert_eq!(parse(&["0.00000001158d"]), Ok(Span::new(0, 1_000_512)));
    let total = parse(&["0.00000001158d"]).unwrap();
    assert_eq!(format_duration(total), "00h 00m 00s 001ms");
    assert_eq!(token_span("0.5h"), Ok(1_800_000_000_000));
    assert_eq!(token_span("0.0000000000000000011s"), Ok(0));
}

#[test]
fn split_token_spans() {
    assert_eq!(token_span_at("5", 1), Ok(5_000_000_000));
    assert_eq!(token_span_at("1.5m", 3), Ok(90_000_000_000));
    assert_eq!(token_span_at("1.5m", 1), Err(ParsingError::InvalidUnit));
    assert_eq!(token_span_at("x", 0), Err(ParsingError::InvalidNumber));
}

#[test]
fn shown_times_add_up_to_the_total() {
    let mode = DisplayMode { ascending: true, descending: true };
    match tick(Span::from_millis(1_000), Span::new(0, 333_500_000), mode) {
        Tick::Repaint(s) => assert_eq!(s, "00h 00m 00s 333ms | 00h 00m 00s 666ms"),
        Tick::Finish(_) => panic!("finished early"),
    }
}

#[test]
fn token_spans() {
    assert_eq!(token_span("250ms"), Ok(250_000_000));
    assert_eq!(token_span("2m"), Ok(120_000_000_000));
    assert_eq!(token_span("-1h"), Ok(-3_600_000_000_000));
}

#[test]
fn error_messages() {
    assert_eq!(ParsingError::InvalidNumber.message(), "Error: Invalid number format");
    assert_eq!(ParsingError::InvalidUnit.message(), "Error: Invalid unit format");
}

#[test]
fn both_times_shown_while_running() {
    let mode = DisplayMode { ascending: true, descending: true };
    match tick(secs(1), Span::from_millis(400), mode) {
        Tick::Repaint(s) => assert_eq!(s, "00h 00m 00s 400ms | 00h 00m 00s 600ms"),
        Tick::Finish(_) => panic!("finished early"),
    }
}

#[test]
fn one_time_shown_without_separator() {
    let up = DisplayMode { ascending: true, descending: false };
    let down = DisplayMode { ascending: false, descending: true };
    match tick(secs(1), Span::from_millis(250), up) {
        Tick::Repaint(s) => assert_eq!(s, "00h 00m 00s 250ms"),
        Tick::Finish(_) => panic!("finished early"),
    }
    match tick(secs(1), Span::from_millis(250), down) {
        Tick::Repaint(s) => assert_eq!(s, "00h 00m 00s 750ms"),
        Tick::Finish(_) => panic!("finished early"),
    }
}

#[test]
fn silent_mode_paints_nothing_until_the_end() {
    let mode = DisplayMode { ascending: false, descending: false };
    match tick(secs(1), Span::from_millis(999), mode) {
        Tick::Repaint(s) => assert_eq!(s, ""),
        Tick::Finish(_) => panic!("finished early"),
    }
    match tick(secs(1), Span::from_millis(1_003), mode) {
        Tick::Finish(s) => assert_eq!(s, "00h 00m 01s 000ms"),
        Tick::Repaint(_) => panic!("still running"),
    }
}

#[test]
fn finish_shows_the_full_total() {
    let mode = DisplayMode { ascending: true, descending: true };
    match tick(secs(1), secs(1), mode) {
        Tick::Finish(s) => assert_eq!(s, "00h 00m 01s 000ms"),
        Tick::Repaint(_) => panic!("still running"),
    }
}

#[test]
fn span_accessors() {
    let s = Span::new(90_061, 500_000_000);
    assert_eq!(s.as_secs(), 90_061);
    assert_eq!(s.as_millis(), 90_061_500);
    assert_eq!(s.subsec_nanos(), 500_000_000);
    assert_eq!(s.minus(&Span::from_millis(61_500)), secs(90_000));
}
