use meter_reader::locator::{locate_digits, scan_length, DigitPos, Score, SCORE_ONE, THRESHOLD};

// Scores written as decimal fractions, on the scale of SCORE_ONE.
fn ppm(scores: &[f64]) -> Vec<Score> {
    scores.iter().map(|s| (s * SCORE_ONE as f64).round() as Score).collect()
}

#[test]
fn two_templates_two_digits() {
    let scores = vec![
        ppm(&[0.0, 0.0, 0.7, 0.9, 0.8, 0.0, 0.0, 0.0, 0.0, 0.0]),
        ppm(&[0.0, 0.0, 0.0, 0.0, 0.0, 0.0, 0.7, 0.8, 0.75, 0.0]),
    ];
    let found = locate_digits(&scores, 3, THRESHOLD);
    assert_eq!(
        found,
        vec![
            DigitPos { digit: 0, score: 900_000, pos: 3 },
            DigitPos { digit: 1, score: 800_000, pos: 7 },
        ]
    );
}

#[test]
fn threshold_is_six_tenths() {
    assert_eq!(THRESHOLD, 600_000);
    assert_eq!(SCORE_ONE, 1_000_000);
}

#[test]
fn nothing_without_templates() {
    let scores: Vec<Vec<Score>> = vec![];
    assert_eq!(scan_length(&scores), 0);
    assert_eq!(locate_digits(&scores, 3, THRESHOLD), vec![]);
}

#[test]
fn nothing_below_the_threshold() {
    let scores = vec![vec![0, 599_999, 100, 599_999], vec![1, 2, 3, 4]];
    assert_eq!(locate_digits(&scores, 1, THRESHOLD), vec![]);
}

#[test]
fn a_score_at_the_threshold_counts() {
    let scores = vec![vec![0, 600_000, 0, 0]];
    assert_eq!(
        locate_digits(&scores, 1, THRESHOLD),
        vec![DigitPos { digit: 0, score: 600_000, pos: 1 }]
    );
}

#[test]
fn the_shortest_table_ends_the_scan() {
    let scores = vec![vec![0, 0, 0, 0, 900_000], vec![0, 0, 700_000]];
    assert_eq!(scan_length(&scores), 3);
    assert_eq!(
        locate_digits(&scores, 2, THRESHOLD),
        vec![DigitPos { digit: 1, score: 700_000, pos: 2 }]
    );
}

#[test]
fn the_first_of_equal_scores_wins() {
    let scores = vec![vec![0, 800_000, 800_000, 0, 0, 0], vec![0, 800_000, 0, 0, 0, 0]];
    assert_eq!(
        locate_digits(&scores, 2, THRESHOLD),
        vec![DigitPos { digit: 0, score: 800_000, pos: 1 }]
    );
}

#[test]
fn a_stronger_score_within_the_width_takes_over() {
    let scores = vec![vec![700_000, 0, 900_000, 0, 0, 0, 0]];
    assert_eq!(
        locate_digits(&scores, 3, THRESHOLD),
        vec![DigitPos { digit: 0, score: 900_000, pos: 2 }]
    );
}

#[test]
fn a_weaker_score_at_the_commit_column_is_lost() {
    // At column 3 the score of 0.7 is offered before 0.9 is committed and does not beat it.
    let scores = vec![vec![900_000, 0, 0, 700_000, 0, 0, 0, 0]];
    assert_eq!(
        locate_digits(&scores, 3, THRESHOLD),
        vec![DigitPos { digit: 0, score: 900_000, pos: 0 }]
    );
}

#[test]
fn with_no_width_every_column_commits() {
    let scores = vec![vec![700_000, 800_000, 0, 900_000]];
    assert_eq!(
        locate_digits(&scores, 0, THRESHOLD),
        vec![
            DigitPos { digit: 0, score: 700_000, pos: 0 },
            DigitPos { digit: 0, score: 800_000, pos: 1 },
            DigitPos { digit: 0, score: 900_000, pos: 3 },
        ]
    );
}

#[test]
fn a_match_held_at_the_end_is_reported() {
    let scores = vec![vec![0, 0, 0, 950_000]];
    assert_eq!(
        locate_digits(&scores, 10, THRESHOLD),
        vec![DigitPos { digit: 0, score: 950_000, pos: 3 }]
    );
}

#[test]
fn with_threshold_zero_a_score_of_zero_is_still_no_match() {
    let scores = vec![vec![0, 0, 5, 0]];
    assert_eq!(locate_digits(&scores, 1, 0), vec![DigitPos { digit: 0, score: 5, pos: 2 }]);
}

#[test]
fn reported_digits_are_spaced_and_genuine() {
    let scores = vec![
        vec![610_000, 0, 990_000, 0, 0, 650_000, 700_000, 0, 0, 0, 800_000, 0],
        vec![0, 620_000, 0, 0, 0, 0, 710_000, 0, 0, 0, 0, 900_000],
    ];
    let found = locate_digits(&scores, 2, THRESHOLD);
    assert!(!found.is_empty());
    for d in &found {
        assert_eq!(scores[d.digit][d.pos], d.score);
        assert!(d.score >= THRESHOLD);
    }
    for pair in found.windows(2) {
        assert!(pair[0].pos + 2 < pair[1].pos);
    }
}
