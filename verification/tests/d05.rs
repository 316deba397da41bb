use advent::y2025::d05::{a, b, RangesBuilder, Span};
use advent::y2025::PuzzleError;

const TEST_INPUT: &str = "3-5
10-14
16-20
12-18

1
5
8
11
17
32
";

#[test]
fn d05_test_a() {
    assert_eq!(a(TEST_INPUT), Ok(3));
}

#[test]
fn d05_test_b() {
    assert_eq!(b(TEST_INPUT), Ok(14));
}

#[test]
fn d05_merges_overlapping_spans() {
    let spans = vec![
        Span { start: 16, end: 20 },
        Span { start: 3, end: 5 },
        Span { start: 12, end: 18 },
        Span { start: 10, end: 14 },
    ];
    let ranges = RangesBuilder(spans).build();
    assert_eq!(ranges.iter(), &[Span { start: 3, end: 5 }, Span { start: 10, end: 20 }]);
    assert!(ranges.contains(&4));
    assert!(ranges.contains(&15));
    assert!(!ranges.contains(&6));
    assert!(!ranges.contains(&21));
}

#[test]
fn d05_rejects_bad_input() {
    assert_eq!(a("3+5\n"), Err(PuzzleError::InvalidInput));
    assert_eq!(a("5-3\n"), Err(PuzzleError::InvalidInput));
    assert_eq!(a("3-x\n"), Err(PuzzleError::InvalidNumber));
    assert_eq!(a("3-5\n\nx\n"), Err(PuzzleError::InvalidNumber));
    assert_eq!(b("0-18446744073709551615\n"), Err(PuzzleError::Overflow));
    assert_eq!(b(""), Ok(0));
}
