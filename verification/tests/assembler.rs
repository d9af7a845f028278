use meter_reader::assembler::{
    assemble_number, check_spacing, first_digit_of, AssembleError, SPACING_TOLERANCE,
};
use meter_reader::locator::DigitPos;

fn at(positions: &[usize]) -> Vec<DigitPos> {
    positions.iter().map(|&pos| DigitPos { digit: 0, score: 900_000, pos }).collect()
}

fn placed(digits: &[(usize, usize)]) -> Vec<DigitPos> {
    digits.iter().map(|&(digit, pos)| DigitPos { digit, score: 900_000, pos }).collect()
}

fn names() -> Vec<String> {
    ["d0.png", "d1.png", "d2.png", "d3.png", "d4.png", "d5.png"]
        .iter()
        .map(|s| s.to_string())
        .collect()
}

#[test]
fn even_spacing_passes() {
    assert_eq!(check_spacing(&at(&[0, 20, 40, 60, 80])), Ok(()));
    assert_eq!(assemble_number(&at(&[0, 20, 40, 60, 80]), 5, &names()), Ok(0));
}

#[test]
fn a_missed_digit_is_a_jitter() {
    let expected = Err(AssembleError::SpacingJitter { index: 3, previous: 20, current: 40 });
    assert_eq!(check_spacing(&at(&[0, 20, 40, 80, 100])), expected);
    assert_eq!(
        assemble_number(&at(&[0, 20, 40, 80, 100]), 5, &names()),
        Err(AssembleError::SpacingJitter { index: 3, previous: 20, current: 40 })
    );
}

#[test]
fn seven_digits_make_a_number() {
    let digits = placed(&[(2, 0), (0, 20), (5, 40), (3, 60), (1, 80), (4, 100), (0, 120)]);
    assert_eq!(assemble_number(&digits, 7, &names()), Ok(2053140));
}

#[test]
fn tolerance_is_forty_percent() {
    assert_eq!(SPACING_TOLERANCE, 40);
    // 14 / 10 and 6 / 10 are the last ratios that pass.
    assert_eq!(check_spacing(&at(&[0, 10, 24])), Ok(()));
    assert_eq!(check_spacing(&at(&[0, 10, 16])), Ok(()));
    assert_eq!(
        check_spacing(&at(&[0, 100, 241])),
        Err(AssembleError::SpacingJitter { index: 2, previous: 100, current: 141 })
    );
    assert_eq!(
        check_spacing(&at(&[0, 100, 159])),
        Err(AssembleError::SpacingJitter { index: 2, previous: 100, current: 59 })
    );
}

#[test]
fn fewer_than_two_digits_are_too_few() {
    assert_eq!(check_spacing(&at(&[])), Err(AssembleError::TooFewDigits));
    assert_eq!(check_spacing(&at(&[5])), Err(AssembleError::TooFewDigits));
    assert_eq!(assemble_number(&at(&[5]), 1, &names()), Err(AssembleError::TooFewDigits));
    assert_eq!(assemble_number(&at(&[]), 0, &names()), Err(AssembleError::TooFewDigits));
}

#[test]
fn two_digits_have_no_jitter() {
    assert_eq!(check_spacing(&at(&[0, 1000])), Ok(()));
}

#[test]
fn the_first_jitter_is_reported() {
    assert_eq!(
        check_spacing(&at(&[0, 10, 20, 50, 200])),
        Err(AssembleError::SpacingJitter { index: 3, previous: 10, current: 30 })
    );
}

#[test]
fn digits_on_one_spot_are_a_jitter() {
    assert_eq!(
        check_spacing(&at(&[7, 7, 7])),
        Err(AssembleError::SpacingJitter { index: 2, previous: 0, current: 0 })
    );
}

#[test]
fn digits_from_right_to_left_keep_their_proportion() {
    assert_eq!(check_spacing(&at(&[60, 40, 20, 0])), Ok(()));
    assert_eq!(
        check_spacing(&at(&[60, 40, 0])),
        Err(AssembleError::SpacingJitter { index: 2, previous: -20, current: -40 })
    );
}

#[test]
fn spacing_is_checked_before_the_count() {
    assert_eq!(
        assemble_number(&at(&[0, 20, 40, 80, 100]), 7, &names()),
        Err(AssembleError::SpacingJitter { index: 3, previous: 20, current: 40 })
    );
}

#[test]
fn too_few_digits_for_the_number() {
    assert_eq!(
        assemble_number(&at(&[0, 20, 40]), 7, &names()),
        Err(AssembleError::CountMismatch { got: 3, expected: 7 })
    );
}

#[test]
fn digits_beyond_the_number_are_left_out() {
    let digits = placed(&[(1, 0), (2, 20), (3, 40), (4, 60)]);
    assert_eq!(assemble_number(&digits, 3, &names()), Ok(123));
    assert_eq!(assemble_number(&digits, 0, &names()), Ok(0));
}

#[test]
fn a_template_without_digit_fails() {
    let ids = vec!["zero.png".to_string(), "d1.png".to_string()];
    let digits = placed(&[(1, 0), (0, 20), (1, 40)]);
    assert_eq!(
        assemble_number(&digits, 3, &ids),
        Err(AssembleError::NoDigit { position: 1, template: 0 })
    );
}

#[test]
fn an_unknown_template_fails() {
    let digits = placed(&[(1, 0), (9, 20)]);
    assert_eq!(
        assemble_number(&digits, 2, &names()),
        Err(AssembleError::NoDigit { position: 1, template: 9 })
    );
}

#[test]
fn a_number_beyond_64_bits_fails() {
    let ids = vec!["9".to_string(), "1".to_string(), "8".to_string()];
    let nines: Vec<(usize, usize)> = (0..20).map(|i| (0, i * 10)).collect();
    assert_eq!(assemble_number(&placed(&nines), 20, &ids), Err(AssembleError::Overflow));
    assert_eq!(assemble_number(&placed(&nines), 19, &ids), Ok(9_999_999_999_999_999_999));
    // 18446744073709551615 is the largest number that fits.
    let max = "18446744073709551615";
    let all: Vec<String> = (0..10).map(|d| d.to_string()).collect();
    let digits: Vec<(usize, usize)> =
        max.bytes().enumerate().map(|(i, b)| ((b - b'0') as usize, i * 10)).collect();
    assert_eq!(assemble_number(&placed(&digits), 20, &all), Ok(u64::MAX));
    let mut over = digits.clone();
    over[19].0 = 6;
    assert_eq!(assemble_number(&placed(&over), 20, &all), Err(AssembleError::Overflow));
}

#[test]
fn a_missing_digit_comes_before_an_overflow() {
    let ids = vec!["9".to_string(), "none".to_string()];
    let mut digits: Vec<(usize, usize)> = (0..22).map(|i| (0, i * 10)).collect();
    digits[21].0 = 1;
    assert_eq!(
        assemble_number(&placed(&digits), 22, &ids),
        Err(AssembleError::NoDigit { position: 21, template: 1 })
    );
}

#[test]
fn the_first_decimal_digit_of_an_identifier() {
    assert_eq!(first_digit_of("d0.png"), Some(0));
    assert_eq!(first_digit_of("digits/7-bold-2.png"), Some(7));
    assert_eq!(first_digit_of("nine"), None);
    assert_eq!(first_digit_of(""), None);
    assert_eq!(first_digit_of("ö9"), Some(9));
    assert_eq!(first_digit_of("٣"), None);
}
