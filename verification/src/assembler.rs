//! From digit positions to the number on the meter.
//!
//! The digits of a counter stand at even distances. A gap that differs much
//! from the gap before it means that a digit was missed, and is reported
//! before anything else so that the failure points at its place.

use crate::locator::DigitPos;
use vstd::prelude::*;
use vstd::string::StringSliceAdditionalSpecFns;
use vstd::utf8::encode_utf8;

verus! {

/// By how many percent the distance between two digits may differ from the
/// distance before it.
pub const SPACING_TOLERANCE: i128 = 40;

/// Why no number could be assembled.
#[derive(Clone, Copy, Debug, PartialEq, Eq, Structural)]
pub enum AssembleError {
    /// Fewer than two digits were found.
    TooFewDigits,
    /// The distance `current` from digit `index - 1` to digit `index` is out
    /// of proportion to the distance `previous` before it.
    SpacingJitter { index: usize, previous: i128, current: i128 },
    /// Fewer digits were found than the number has.
    CountMismatch { got: usize, expected: usize },
    /// The identifier of the template matched at digit `position` is unknown
    /// or holds no decimal digit.
    NoDigit { position: usize, template: usize },
    /// The number does not fit 64 bits.
    Overflow,
}

/// The distance from digit `i - 1` to digit `i`.
pub open spec fn gap(digits: Seq<DigitPos>, i: int) -> int {
    digits[i].pos - digits[i - 1].pos
}

/// The distance `current` is in proportion to the distance `previous`:
/// their ratio lies within the tolerance around 1.
pub open spec fn steady(previous: int, current: int) -> bool {
    if previous > 0 {
        (100 - SPACING_TOLERANCE) * previous <= 100 * current <= (100 + SPACING_TOLERANCE)
            * previous
    } else if previous < 0 {
        (100 + SPACING_TOLERANCE) * previous <= 100 * current <= (100 - SPACING_TOLERANCE)
            * previous
    } else {
        false
    }
}

/// The first digit among the first `n` whose distance to its neighbour on
/// the left is out of proportion to the distance before.
pub open spec fn first_jitter(digits: Seq<DigitPos>, n: nat) -> Option<int>
    decreases n,
{
    if n <= 2 {
        None
    } else {
        match first_jitter(digits, (n - 1) as nat) {
            Some(i) => Some(i),
            None => if steady(gap(digits, n - 2), gap(digits, n - 1)) {
                None
            } else {
                Some(n - 1)
            },
        }
    }
}

/// `b` is the code of a decimal digit.
pub open spec fn is_digit(b: u8) -> bool {
    48 <= b <= 57
}

/// The value of the first decimal digit among the bytes of an identifier.
pub open spec fn first_digit(id: Seq<u8>) -> Option<u8>
    decreases id.len(),
{
    if id.len() == 0 {
        None
    } else if is_digit(id[0]) {
        Some((id[0] - 48) as u8)
    } else {
        first_digit(id.subrange(1, id.len() as int))
    }
}

/// The identifiers as byte strings in UTF-8, in which a decimal digit is
/// always a byte of its own.
pub open spec fn names(identifiers: &Vec<String>) -> Seq<Seq<u8>> {
    Seq::new(identifiers@.len(), |t: int| encode_utf8(identifiers@[t]@))
}

/// The digit that template `template` stands for, if its identifier names
/// one.
pub open spec fn digit_of(ids: Seq<Seq<u8>>, template: int) -> Option<u8> {
    if 0 <= template < ids.len() {
        first_digit(ids[template])
    } else {
        None
    }
}

/// The number that the first `n` digits spell, most significant digit
/// first, or the first of them whose template names no digit.
pub open spec fn spelled(digits: Seq<DigitPos>, ids: Seq<Seq<u8>>, n: nat) -> Result<
    nat,
    AssembleError,
>
    decreases n,
{
    if n == 0 {
        Ok(0)
    } else {
        match spelled(digits, ids, (n - 1) as nat) {
            Err(e) => Err(e),
            Ok(v) => match digit_of(ids, digits[n - 1].digit as int) {
                Some(d) => Ok(v * 10 + d as nat),
                None => Err(
                    AssembleError::NoDigit {
                        position: (n - 1) as usize,
                        template: digits[n - 1].digit,
                    },
                ),
            },
        }
    }
}

/// What the spacing of the digits amounts to: nothing to object, too few
/// digits to tell, or the first gap out of proportion.
pub open spec fn spacing(digits: Seq<DigitPos>) -> Result<(), AssembleError> {
    if digits.len() < 2 {
        Err(AssembleError::TooFewDigits)
    } else {
        match first_jitter(digits, digits.len()) {
            Some(i) => Err(
                AssembleError::SpacingJitter {
                    index: i as usize,
                    previous: gap(digits, i - 1) as i128,
                    current: gap(digits, i) as i128,
                },
            ),
            None => Ok(()),
        }
    }
}

/// The reading of a meter with `expected` digits: the spacing is checked
/// first, then the count, then the digits are spelled out.
pub open spec fn assembled(digits: Seq<DigitPos>, expected: nat, ids: Seq<Seq<u8>>) -> Result<
    u64,
    AssembleError,
> {
    match spacing(digits) {
        Err(e) => Err(e),
        Ok(_) => if digits.len() < expected {
            Err(
                AssembleError::CountMismatch {
                    got: digits.len() as usize,
                    expected: expected as usize,
                },
            )
        } else {
            match spelled(digits, ids, expected) {
                Err(e) => Err(e),
                Ok(v) => if v > u64::MAX {
                    Err(AssembleError::Overflow)
                } else {
                    Ok(v as u64)
                },
            }
        },
    }
}

/// The first jitter is a jitter, and no gap before it is one.
pub proof fn lemma_first_jitter_is_first(digits: Seq<DigitPos>, n: nat)
    ensures
        match first_jitter(digits, n) {
            Some(i) => {
                &&& 2 <= i < n
                &&& !steady(gap(digits, i - 1), gap(digits, i))
                &&& forall|k: int|
                    2 <= k < i ==> steady(gap(digits, k - 1), #[trigger] gap(digits, k))
            },
            None => forall|k: int|
                2 <= k < n ==> steady(gap(digits, k - 1), #[trigger] gap(digits, k)),
        },
    decreases n,
{
    if n > 2 {
        lemma_first_jitter_is_first(digits, (n - 1) as nat);
    }
}

/// Digits at one and the same distance from each other, left to right, pass
/// the spacing check.
pub proof fn lemma_even_spacing_is_steady(digits: Seq<DigitPos>, distance: int)
    requires
        digits.len() >= 2,
        distance > 0,
        forall|i: int| 1 <= i < digits.len() ==> #[trigger] gap(digits, i) == distance,
    ensures
        spacing(digits) == Ok::<(), AssembleError>(()),
{
    lemma_first_jitter_is_first(digits, digits.len());
    match first_jitter(digits, digits.len()) {
        Some(i) => {
            assert(gap(digits, i) == distance);
            assert(gap(digits, i - 1) == distance);
        },
        None => {},
    }
}

/// Where one digit of an evenly spaced row is missing, the gap in its place
/// is twice as wide and is reported as the first jitter.
pub proof fn lemma_missed_digit_is_jitter(digits: Seq<DigitPos>, distance: int, missing: int)
    requires
        distance > 0,
        2 <= missing < digits.len(),
        gap(digits, missing) == 2 * distance,
        forall|i: int| 1 <= i < missing ==> #[trigger] gap(digits, i) == distance,
    ensures
        spacing(digits) == Err::<(), AssembleError>(
            AssembleError::SpacingJitter {
                index: missing as usize,
                previous: distance as i128,
                current: (2 * distance) as i128,
            },
        ),
{
    lemma_first_jitter_is_first(digits, digits.len());
    match first_jitter(digits, digits.len()) {
        Some(i) => {
            if i < missing {
                assert(gap(digits, i) == distance);
                assert(gap(digits, i - 1) == distance);
            } else if i > missing {
                assert(steady(gap(digits, missing - 1), gap(digits, missing)));
                assert(gap(digits, missing - 1) == distance);
            }
            assert(gap(digits, missing - 1) == distance);
        },
        None => {
            assert(steady(gap(digits, missing - 1), gap(digits, missing)));
            assert(gap(digits, missing - 1) == distance);
        },
    }
}

proof fn lemma_first_digit_range(id: Seq<u8>)
    ensures
        first_digit(id) matches Some(d) ==> d <= 9,
    decreases id.len(),
{
    if id.len() > 0 && !is_digit(id[0]) {
        lemma_first_digit_range(id.subrange(1, id.len() as int));
    }
}

/// The value of the first decimal digit in `id`, if it holds one.
pub fn first_digit_of(id: &str) -> (d: Option<u8>)
    ensures
        d == first_digit(id.spec_bytes()),
        d matches Some(v) ==> v <= 9,
{
    let bytes = id.as_bytes();
    let mut i: usize = 0;
    proof {
        lemma_first_digit_range(bytes@);
        assert(bytes@.subrange(0, bytes@.len() as int) == bytes@);
    }
    while i < bytes.len()
        invariant
            i <= bytes@.len(),
            bytes@ == id.spec_bytes(),
            first_digit(bytes@) == first_digit(bytes@.subrange(i as int, bytes@.len() as int)),
        decreases bytes.len() - i,
    {
        let b: u8 = bytes[i];
        let ghost rest = bytes@.subrange(i as int, bytes@.len() as int);
        proof {
            assert(rest[0] == b);
            assert(rest.subrange(1, rest.len() as int) == bytes@.subrange(
                i + 1,
                bytes@.len() as int,
            ));
        }
        if 48 <= b && b <= 57 {
            assert(first_digit(rest) == Some((b - 48) as u8));
            return Some(b - 48);
        }
        assert(first_digit(rest) == first_digit(rest.subrange(1, rest.len() as int)));
        i = i + 1;
    }
    None
}

/// Checks that the digits stand at even distances.
pub fn check_spacing(digits: &Vec<DigitPos>) -> (out: Result<(), AssembleError>)
    ensures
        out == spacing(digits@),
{
    if digits.len() < 2 {
        return Err(AssembleError::TooFewDigits);
    }
    let mut i: usize = 2;
    while i < digits.len()
        invariant
            2 <= i <= digits.len(),
            first_jitter(digits@, i as nat) is None,
        decreases digits.len() - i,
    {
        let previous: i128 = digits[i - 1].pos as i128 - digits[i - 2].pos as i128;
        let current: i128 = digits[i].pos as i128 - digits[i - 1].pos as i128;
        assert((100 - SPACING_TOLERANCE) * previous == 60 * previous && (100 + SPACING_TOLERANCE)
            * previous == 140 * previous) by (nonlinear_arith)
            requires
                SPACING_TOLERANCE == 40,
        ;
        let lower: i128 = (100 - SPACING_TOLERANCE) * previous;
        let upper: i128 = (100 + SPACING_TOLERANCE) * previous;
        let scaled: i128 = 100 * current;
        let in_proportion: bool = if previous > 0 {
            lower <= scaled && scaled <= upper
        } else if previous < 0 {
            upper <= scaled && scaled <= lower
        } else {
            false
        };
        assert(in_proportion == steady(gap(digits@, i - 1), gap(digits@, i as int)));
        if !in_proportion {
            proof {
                lemma_jitter_stays(digits@, (i + 1) as nat, digits@.len());
            }
            return Err(AssembleError::SpacingJitter { index: i, previous, current });
        }
        i = i + 1;
    }
    Ok(())
}

/// A jitter found among the first `n` digits is the first jitter of any
/// longer stretch as well.
proof fn lemma_jitter_stays(digits: Seq<DigitPos>, n: nat, m: nat)
    requires
        n <= m,
        first_jitter(digits, n) is Some,
    ensures
        first_jitter(digits, m) == first_jitter(digits, n),
    decreases m,
{
    if n < m {
        lemma_jitter_stays(digits, n, (m - 1) as nat);
    }
}

/// Assembles the reading of a meter with `expected` digits from the digits
/// found, left to right. `identifiers` names each template; the first
/// decimal digit in a template's identifier is the digit it stands for.
pub fn assemble_number(digits: &Vec<DigitPos>, expected: usize, identifiers: &Vec<String>) -> (out:
    Result<u64, AssembleError>)
    ensures
        out == assembled(digits@, expected as nat, names(identifiers)),
{
    match check_spacing(digits) {
        Err(e) => {
            return Err(e);
        },
        Ok(_) => {},
    }
    if digits.len() < expected {
        return Err(AssembleError::CountMismatch { got: digits.len(), expected });
    }
    let ghost ids = names(identifiers);
    let mut value: u64 = 0;
    let mut overflow: bool = false;
    let mut i: usize = 0;
    while i < expected
        invariant
            i <= expected <= digits.len(),
            ids == names(identifiers),
            spacing(digits@) is Ok,
            spelled(digits@, ids, i as nat) is Ok,
            overflow <==> spelled(digits@, ids, i as nat).unwrap() > u64::MAX,
            !overflow ==> value == spelled(digits@, ids, i as nat).unwrap(),
        decreases expected - i,
    {
        let template: usize = digits[i].digit;
        let found: Option<u8> = if template < identifiers.len() {
            first_digit_of(identifiers[template].as_str())
        } else {
            None
        };
        assert(found == digit_of(ids, template as int));
        match found {
            None => {
                proof {
                    assert(spelled(digits@, ids, (i + 1) as nat) == Err::<nat, AssembleError>(
                        AssembleError::NoDigit { position: i, template },
                    ));
                    lemma_no_digit_stays(digits@, ids, (i + 1) as nat, expected as nat);
                }
                return Err(AssembleError::NoDigit { position: i, template });
            },
            Some(d) => {
                if !overflow {
                    if value > (u64::MAX - d as u64) / 10 {
                        overflow = true;
                    } else {
                        value = value * 10 + d as u64;
                    }
                }
            },
        }
        i = i + 1;
    }
    if overflow {
        Err(AssembleError::Overflow)
    } else {
        Ok(value)
    }
}

/// Once a template without a digit has been met, spelling further digits
/// changes nothing.
proof fn lemma_no_digit_stays(digits: Seq<DigitPos>, ids: Seq<Seq<u8>>, n: nat, m: nat)
    requires
        n <= m,
        spelled(digits, ids, n) is Err,
    ensures
        spelled(digits, ids, m) == spelled(digits, ids, n),
    decreases m,
{
    if n < m {
        lemma_no_digit_stays(digits, ids, n, (m - 1) as nat);
    }
}

} // verus!
