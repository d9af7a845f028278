use meter_reader::plausibility::{RateLimit, Reading, Verdict};
use meter_reader::sinks::{convert_ts, PlausibilityFilterSink, ResultSink};
use std::time::{Duration, SystemTime, UNIX_EPOCH};

#[derive(Debug, PartialEq)]
enum Logged {
    Value(u64, u64),
    Error(u64, String),
}

struct Recorder {
    log: Vec<Logged>,
}

impl ResultSink for Recorder {
    fn log_value(&mut self, time: SystemTime, number: u64) {
        self.log.push(Logged::Value(convert_ts(time), number));
    }

    fn log_error(&mut self, time: SystemTime, err: &str) {
        self.log.push(Logged::Error(convert_ts(time), err.to_string()));
    }
}

fn at(seconds: u64) -> SystemTime {
    UNIX_EPOCH + Duration::from_secs(seconds)
}

#[test]
fn timestamps_are_whole_seconds_since_the_epoch() {
    assert_eq!(convert_ts(UNIX_EPOCH), 0);
    assert_eq!(convert_ts(at(5)), 5);
    assert_eq!(convert_ts(UNIX_EPOCH + Duration::from_millis(7_999)), 7);
    assert_eq!(convert_ts(at(1_700_000_000)), 1_700_000_000);
}

#[test]
fn a_time_before_the_epoch_counts_as_zero() {
    assert_eq!(convert_ts(UNIX_EPOCH - Duration::from_secs(10)), 0);
}

#[test]
fn plausible_values_pass_and_others_become_errors() {
    let recorder = Recorder { log: vec![] };
    let mut sink = PlausibilityFilterSink::new(RateLimit { units: 1, seconds: 10 }, recorder);
    sink.log_value(at(0), 100);
    sink.log_value(at(10), 101);
    sink.log_value(at(20), 105);
    assert_eq!(sink.last_accepted(), Some(Reading { value: 101, timestamp: 10 }));
    let log = sink.into_inner().log;
    assert_eq!(log.len(), 3);
    assert_eq!(log[0], Logged::Value(0, 100));
    assert_eq!(log[1], Logged::Value(10, 101));
    assert_eq!(
        log[2],
        Logged::Error(
            20,
            "Exceeded max plausible rate: 101 -> 105 in 10s (max: 1 in 10s)".to_string()
        )
    );
}

#[test]
fn a_value_going_backwards_becomes_an_error() {
    let recorder = Recorder { log: vec![] };
    let mut sink = PlausibilityFilterSink::new(RateLimit { units: 1, seconds: 1 }, recorder);
    sink.log_value(at(50), 100);
    sink.log_value(at(60), 99);
    let log = sink.into_inner().log;
    assert_eq!(
        log,
        vec![
            Logged::Value(50, 100),
            Logged::Error(60, "Value 99 going backwards (before: 100)".to_string()),
        ]
    );
}

#[test]
fn errors_pass_through() {
    let recorder = Recorder { log: vec![] };
    let mut sink = PlausibilityFilterSink::new(RateLimit { units: 1, seconds: 1 }, recorder);
    sink.log_error(at(3), "no digits");
    assert_eq!(sink.last_accepted(), None);
    assert_eq!(sink.into_inner().log, vec![Logged::Error(3, "no digits".to_string())]);
}

#[test]
fn the_verdict_is_handed_back() {
    let recorder = Recorder { log: vec![] };
    let mut sink = PlausibilityFilterSink::new(RateLimit { units: 1, seconds: 10 }, recorder);
    assert_eq!(sink.log_value_at(at(5), 5, 10), Verdict::Accepted);
    assert_eq!(sink.log_value_at(at(6), 6, 9), Verdict::Backwards { previous: 10 });
    assert_eq!(sink.log_value_at(at(7), 7, 20), Verdict::TooFast { previous: 10, elapsed: 2 });
}

#[test]
fn a_jump_after_a_reading_taken_at_the_epoch_becomes_an_error() {
    let recorder = Recorder { log: vec![] };
    let mut sink = PlausibilityFilterSink::new(RateLimit { units: 1, seconds: 10 }, recorder);
    sink.log_value(UNIX_EPOCH, 100);
    sink.log_value(at(10), 1000);
    assert_eq!(sink.last_accepted(), Some(Reading { value: 100, timestamp: 0 }));
    let log = sink.into_inner().log;
    assert_eq!(log.len(), 2);
    assert_eq!(log[0], Logged::Value(0, 100));
    assert_eq!(
        log[1],
        Logged::Error(
            10,
            "Exceeded max plausible rate: 100 -> 1000 in 10s (max: 1 in 10s)".to_string()
        )
    );
}
