//! Where readings go.

use crate::plausibility::{after, verdict, PlausibilityFilter, RateLimit, Reading, Verdict};
use std::time::{Duration, SystemTime, UNIX_EPOCH};
use vstd::prelude::*;

verus! {

/// `std::time::SystemTime`: a point in time, handed on unread.
#[verifier::external_type_specification]
#[verifier::external_body]
pub struct ExSystemTime(SystemTime);

/// Result receiver of the detection logic.
///
/// What a sink does with what it is given is its own affair. A sink may say
/// it in two relations between itself before and itself after; one that
/// says nothing takes anything for anything. Sinks built on other sinks say
/// what they hand on in terms of those relations.
pub trait ResultSink {
    /// `after` is what taking the reading `number` of the picture taken at
    /// `time` makes of this sink.
    open spec fn takes_value(&self, time: SystemTime, number: u64, after: &Self) -> bool {
        true
    }

    /// `after` is what taking the error `err` for the picture taken at
    /// `time` makes of this sink.
    open spec fn takes_error(&self, time: SystemTime, err: Seq<char>, after: &Self) -> bool {
        true
    }

    /// Takes the reading `number` of the picture taken at `time`.
    fn log_value(&mut self, time: SystemTime, number: u64)
        ensures
            old(self).takes_value(time, number, final(self)),
    ;

    /// Takes word that the picture taken at `time` gave no reading.
    fn log_error(&mut self, time: SystemTime, err: &str)
        ensures
            old(self).takes_error(time, err@, final(self)),
    ;
}

/// The time gone by from the start of the Unix epoch to `time`, as
/// `SystemTime::duration_since` gives it; nothing for a time before the
/// epoch.
pub uninterp spec fn span_since_epoch(time: SystemTime) -> Option<Duration>;

/// The whole seconds in a span of time, as `Duration::as_secs` gives them.
pub uninterp spec fn seconds_in(span: Duration) -> u64;

/// The whole seconds from the start of the Unix epoch to `time`; 0 for a
/// time before it.
pub open spec fn unix_seconds(time: SystemTime) -> u64 {
    match span_since_epoch(time) {
        Some(span) => seconds_in(span),
        None => 0,
    }
}

/// Calls `SystemTime::duration_since` with the start of the Unix epoch and
/// drops the error that a time before the epoch gives. The span is a
/// function of the time alone and is only named.
#[verifier::external_body]
fn since_epoch(time: SystemTime) -> (out: Option<Duration>)
    ensures
        out == span_since_epoch(time),
{
    time.duration_since(UNIX_EPOCH).ok()
}

/// Calls `Duration::as_secs`. The number is a function of the span alone
/// and is only named.
#[verifier::external_body]
fn whole_seconds(span: Duration) -> (out: u64)
    ensures
        out == seconds_in(span),
{
    span.as_secs()
}

/// The whole seconds from the start of the Unix epoch to `time`; 0 for a
/// time before it.
pub fn convert_ts(time: SystemTime) -> (out: u64)
    ensures
        out == unix_seconds(time),
{
    match since_epoch(time) {
        Some(span) => whole_seconds(span),
        None => 0,
    }
}

/// Words for a reading that goes down, put together by `format!`. Nothing
/// is claimed of the text.
#[verifier::external_body]
fn backwards_message(number: u64, previous: u64) -> String {
    format!("Value {} going backwards (before: {})", number, previous)
}

/// Words for a reading that rises too fast, put together by `format!`.
/// Nothing is claimed of the text.
#[verifier::external_body]
fn too_fast_message(previous: u64, number: u64, elapsed: u64, limit: RateLimit) -> String {
    format!(
        "Exceeded max plausible rate: {} -> {} in {}s (max: {} in {}s)",
        previous, number, elapsed, limit.units, limit.seconds
    )
}

/// A sink that only accepts values that look plausible: always increasing
/// and not exceeding a rate of increase. What it turns away goes on as an
/// error.
pub struct PlausibilityFilterSink<S: ResultSink> {
    filter: PlausibilityFilter,
    delegatee: S,
}

impl<S: ResultSink> PlausibilityFilterSink<S> {
    /// The filter in front of the sink.
    pub closed spec fn filter(&self) -> PlausibilityFilter {
        self.filter
    }

    /// The sink behind the filter.
    pub closed spec fn inner(&self) -> S {
        self.delegatee
    }

    /// Puts a fresh filter with the limit `max_plausible_rate` in front of
    /// `delegatee`.
    pub fn new(max_plausible_rate: RateLimit, delegatee: S) -> (out: Self)
        ensures
            out.filter().limit() == max_plausible_rate,
            out.filter().last() is None,
            out.inner() == delegatee,
    {
        PlausibilityFilterSink { filter: PlausibilityFilter::new(max_plausible_rate), delegatee }
    }

    /// The last reading that went through, if any has.
    pub fn last_accepted(&self) -> (out: Option<Reading>)
        ensures
            out == self.filter().last(),
    {
        self.filter.last_accepted()
    }

    /// Gives the sink behind the filter back.
    pub fn into_inner(self) -> (out: S)
        ensures
            out == self.inner(),
    {
        self.delegatee
    }

    /// What judging the reading `number` of second `timestamp` hands on to
    /// the sink behind the filter: the reading where it is accepted, an
    /// error in some words where it is not.
    pub open spec fn hands_on(
        &self,
        time: SystemTime,
        timestamp: u64,
        number: u64,
        after: &Self,
    ) -> bool {
        if verdict(self.filter().last(), self.filter().limit(), timestamp, number) is Accepted {
            self.inner().takes_value(time, number, &after.inner())
        } else {
            exists|words: Seq<char>|
                #[trigger] self.inner().takes_error(time, words, &after.inner())
        }
    }

    /// Judges the reading `number` of second `timestamp` and passes it on:
    /// as a value where it is accepted, as an error where it is not.
    pub fn log_value_at(&mut self, time: SystemTime, timestamp: u64, number: u64) -> (out: Verdict)
        ensures
            out == verdict(
                old(self).filter().last(),
                old(self).filter().limit(),
                timestamp,
                number,
            ),
            final(self).filter().last() == after(
                old(self).filter().last(),
                old(self).filter().limit(),
                timestamp,
                number,
            ),
            final(self).filter().limit() == old(self).filter().limit(),
            old(self).hands_on(time, timestamp, number, final(self)),
    {
        let limit = self.filter.rate_limit();
        let judged = self.filter.check(timestamp, number);
        match judged {
            Verdict::Accepted => {
                self.delegatee.log_value(time, number);
            },
            Verdict::Backwards { previous } => {
                let words = backwards_message(number, previous);
                self.delegatee.log_error(time, words.as_str());
                assert(old(self).inner().takes_error(time, words@, &self.inner()));
            },
            Verdict::TooFast { previous, elapsed } => {
                let words = too_fast_message(previous, number, elapsed, limit);
                self.delegatee.log_error(time, words.as_str());
                assert(old(self).inner().takes_error(time, words@, &self.inner()));
            },
        }
        judged
    }
}

impl<S: ResultSink> ResultSink for PlausibilityFilterSink<S> {
    /// The reading is judged by the second in which its picture was taken,
    /// the filter remembers it if it is accepted, and the sink behind the
    /// filter is handed what the verdict calls for.
    open spec fn takes_value(&self, time: SystemTime, number: u64, after: &Self) -> bool {
        &&& after.filter().limit() == self.filter().limit()
        &&& after.filter().last() == crate::plausibility::after(
            self.filter().last(),
            self.filter().limit(),
            unix_seconds(time),
            number,
        )
        &&& self.hands_on(time, unix_seconds(time), number, after)
    }

    /// The filter stays as it is and the sink behind it is handed the
    /// error.
    open spec fn takes_error(&self, time: SystemTime, err: Seq<char>, after: &Self) -> bool {
        &&& after.filter() == self.filter()
        &&& self.inner().takes_error(time, err, &after.inner())
    }

    /// Judges the reading by the second in which its picture was taken and
    /// passes it on: as a value where it is accepted, as an error where it
    /// is not.
    fn log_value(&mut self, time: SystemTime, number: u64) {
        let timestamp = convert_ts(time);
        let _ = self.log_value_at(time, timestamp, number);
    }

    /// Passes the error on; the filter stays as it is.
    fn log_error(&mut self, time: SystemTime, err: &str) {
        self.delegatee.log_error(time, err);
    }
}

} // verus!
