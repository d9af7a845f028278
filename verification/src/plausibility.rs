//! A filter for readings that cannot be true.
//!
//! A counter only counts up, and only so fast. A reading below the last
//! accepted one, or one that would need a higher rate than the limit to get
//! there, is turned away and leaves the filter as it was.

use vstd::prelude::*;

verus! {

/// The highest plausible rate of a counter: `units` per `seconds` seconds.
#[derive(Clone, Copy, Debug, PartialEq, Eq, Structural)]
pub struct RateLimit {
    pub units: u64,
    pub seconds: u64,
}

/// What the filter says of a reading.
#[derive(Clone, Copy, Debug, PartialEq, Eq, Structural)]
pub enum Verdict {
    /// The reading is taken and is now the last accepted one.
    Accepted,
    /// The reading is below the last accepted one, `previous`.
    Backwards { previous: u64 },
    /// The reading is too far above `previous`, the last accepted one, for
    /// the `elapsed` seconds since.
    TooFast { previous: u64, elapsed: u64 },
}

/// An accepted reading and the second in which it was taken.
#[derive(Clone, Copy, Debug, PartialEq, Eq, Structural)]
pub struct Reading {
    pub value: u64,
    pub timestamp: u64,
}

/// A rise by `rise` within `elapsed` seconds is above the limit.
pub open spec fn exceeds(limit: RateLimit, rise: int, elapsed: int) -> bool {
    rise * limit.seconds > limit.units * elapsed
}

/// The verdict on the reading `number` taken at `timestamp`, where `last`
/// is the last reading accepted before, if there is one. The first reading
/// is accepted whatever it is. After that a reading must not go down, and
/// where time has gone by since the last accepted one, it must not have
/// risen faster than the limit allows.
pub open spec fn verdict(
    last: Option<Reading>,
    limit: RateLimit,
    timestamp: u64,
    number: u64,
) -> Verdict {
    match last {
        None => Verdict::Accepted,
        Some(l) => if number < l.value {
            Verdict::Backwards { previous: l.value }
        } else if timestamp > l.timestamp && exceeds(
            limit,
            number - l.value,
            timestamp - l.timestamp,
        ) {
            Verdict::TooFast { previous: l.value, elapsed: (timestamp - l.timestamp) as u64 }
        } else {
            Verdict::Accepted
        },
    }
}

/// The last accepted reading after `number` at `timestamp` has been judged.
pub open spec fn after(
    last: Option<Reading>,
    limit: RateLimit,
    timestamp: u64,
    number: u64,
) -> Option<Reading> {
    if verdict(last, limit, timestamp, number) is Accepted {
        Some(Reading { value: number, timestamp })
    } else {
        last
    }
}

/// Judges readings one after another.
pub struct PlausibilityFilter {
    last: Option<Reading>,
    limit: RateLimit,
}

impl PlausibilityFilter {
    /// The last accepted reading, if any has been accepted.
    pub closed spec fn last(&self) -> Option<Reading> {
        self.last
    }

    /// The limit that readings are held against.
    pub closed spec fn limit(&self) -> RateLimit {
        self.limit
    }

    /// A filter that has not accepted anything yet.
    pub fn new(limit: RateLimit) -> (out: PlausibilityFilter)
        ensures
            out.limit() == limit,
            out.last() is None,
    {
        PlausibilityFilter { last: None, limit }
    }

    /// The last accepted reading, if any has been accepted.
    pub fn last_accepted(&self) -> (out: Option<Reading>)
        ensures
            out == self.last(),
    {
        self.last
    }

    /// The limit that readings are held against.
    pub fn rate_limit(&self) -> (out: RateLimit)
        ensures
            out == self.limit(),
    {
        self.limit
    }

    /// Judges the reading `number` taken at `timestamp` and remembers it if
    /// it is accepted.
    pub fn check(&mut self, timestamp: u64, number: u64) -> (out: Verdict)
        ensures
            out == verdict(old(self).last(), old(self).limit(), timestamp, number),
            final(self).last() == after(old(self).last(), old(self).limit(), timestamp, number),
            final(self).limit() == old(self).limit(),
    {
        match self.last {
            None => {},
            Some(l) => {
                if number < l.value {
                    return Verdict::Backwards { previous: l.value };
                }
                if timestamp > l.timestamp {
                    let rise: u64 = number - l.value;
                    let elapsed: u64 = timestamp - l.timestamp;
                    assert(rise * self.limit.seconds <= u64::MAX * u64::MAX) by (nonlinear_arith)
                        requires
                            0 <= rise <= u64::MAX,
                            0 <= self.limit.seconds <= u64::MAX,
                    ;
                    assert(self.limit.units * elapsed <= u64::MAX * u64::MAX) by (nonlinear_arith)
                        requires
                            0 <= elapsed <= u64::MAX,
                            0 <= self.limit.units <= u64::MAX,
                    ;
                    if (rise as u128) * (self.limit.seconds as u128) > (self.limit.units as u128)
                        * (elapsed as u128) {
                        return Verdict::TooFast { previous: l.value, elapsed };
                    }
                }
            },
        }
        self.last = Some(Reading { value: number, timestamp });
        Verdict::Accepted
    }
}

/// Accepted readings never go down: whatever is judged, the last accepted
/// value afterwards is no smaller than before. An accepted reading is the
/// last accepted one afterwards, and one turned away changes nothing.
pub proof fn lemma_accepted_values_rise(
    last: Option<Reading>,
    limit: RateLimit,
    timestamp: u64,
    number: u64,
)
    ensures
        last matches Some(l) ==> after(last, limit, timestamp, number) matches Some(r) && r.value
            >= l.value,
        verdict(last, limit, timestamp, number) is Accepted ==> after(
            last,
            limit,
            timestamp,
            number,
        ) == Some(Reading { value: number, timestamp }),
        !(verdict(last, limit, timestamp, number) is Accepted) ==> after(
            last,
            limit,
            timestamp,
            number,
        ) == last,
{
}

/// A reading that keeps within the limit since the last accepted one, and
/// does not go down, is accepted.
pub proof fn lemma_steady_reading_is_accepted(
    last: Reading,
    limit: RateLimit,
    timestamp: u64,
    number: u64,
)
    requires
        number >= last.value,
        timestamp > last.timestamp,
        (number - last.value) * limit.seconds <= limit.units * (timestamp - last.timestamp),
    ensures
        verdict(Some(last), limit, timestamp, number) is Accepted,
{
}

/// Whenever a reading has been accepted before, whatever its time, a later
/// reading that has risen faster than the limit allows is turned away.
pub proof fn lemma_fast_reading_is_turned_away(
    last: Reading,
    limit: RateLimit,
    timestamp: u64,
    number: u64,
)
    requires
        number >= last.value,
        timestamp > last.timestamp,
        (number - last.value) * limit.seconds > limit.units * (timestamp - last.timestamp),
    ensures
        verdict(Some(last), limit, timestamp, number) == (Verdict::TooFast {
            previous: last.value,
            elapsed: (timestamp - last.timestamp) as u64,
        }),
        after(Some(last), limit, timestamp, number) == Some(last),
{
}

/// The first reading is accepted whatever it is.
pub proof fn lemma_first_reading_is_accepted(limit: RateLimit, timestamp: u64, number: u64)
    ensures
        verdict(None, limit, timestamp, number) is Accepted,
        after(None, limit, timestamp, number) == Some(Reading { value: number, timestamp }),
{
}

} // verus!
