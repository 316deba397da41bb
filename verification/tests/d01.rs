use advent::y2025::d01::{a, b, turn, turn_count_zeros};
use advent::y2025::PuzzleError;

const CASES: [(i32, i32, i32); 11] = [
    (0, 0, 0),
    (50, -68, 82),
    (82, -30, 52),
    (52, 48, 0),
    (0, -5, 95),
    (95, 60, 55),
    (55, -55, 0),
    (0, -1, 99),
    (99, -99, 0),
    (0, 14, 14),
    (14, -82, 32),
];

#[test]
fn test_turn() {
    for (position, amount, expected) in CASES {
        assert_eq!(turn(position, amount), expected);
    }
}

#[test]
fn test_turn_count_zeros_position() {
    for (position, amount, expected) in CASES {
        let (result, _) = turn_count_zeros(position, amount);
        assert_eq!(result, expected);
    }
}

#[test]
fn test_turn_count_zeros_zeros() {
    let cases = [
        (0, 0, 0),
        (50, -68, 1),
        (82, -30, 0),
        (52, 48, 1),
        (0, -5, 0),
        (95, 60, 1),
        (55, -55, 1),
        (0, -1, 0),
        (99, -99, 1),
        (0, 14, 0),
        (14, -82, 1),
        (50, 1000, 10),
        (50, -1000, 10),
        (0, 1000, 10),
        (0, -1000, 10),
        (0, 100, 1),
        (0, -100, 1),
        (50, -150, 2),
    ];
    for (position, amount, expected) in cases {
        let (_, result) = turn_count_zeros(position, amount);
        assert_eq!(result, expected, "{position} {amount}");
    }
}

const INPUT: &str = "L68\nL30\nR48\nL5\nR60\nL55\nL1\nL99\nR14\nL82\n";

#[test]
fn d01_counts_stops_and_clicks() {
    assert_eq!(a(INPUT), Ok(3));
    assert_eq!(b(INPUT), Ok(6));
}

#[test]
fn d01_rejects_bad_lines() {
    assert_eq!(a("L68\nRx\n"), Err(PuzzleError::InvalidNumber));
    assert_eq!(a("L68\n\nR5\n"), Err(PuzzleError::InvalidInput));
    assert_eq!(b("L\n"), Err(PuzzleError::InvalidNumber));
    assert_eq!(a("L-2147483648\n"), Err(PuzzleError::Overflow));
    assert_eq!(a(""), Ok(0));
}
