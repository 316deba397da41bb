use advent::y2025::d07::{a, add, b};
use advent::y2025::PuzzleError;

const TEST_INPUT: &str = ".......S.......
...............
.......^.......
...............
......^.^......
...............
.....^.^.^.....
...............
....^.^...^....
...............
...^.^...^.^...
...............
..^...^.....^..
...............
.^.^.^.^.^...^.
...............
";

#[test]
fn d07_test_a() {
    assert_eq!(a(TEST_INPUT), Ok(21));
}

#[test]
fn d07_test_b() {
    assert_eq!(b(TEST_INPUT), Ok(40));
}

#[test]
fn d07_add_saturates() {
    let mut cell = None;
    add(&mut cell, 3);
    assert_eq!(cell, Some(3));
    add(&mut cell, 4);
    assert_eq!(cell, Some(7));
    add(&mut cell, u64::MAX);
    assert_eq!(cell, Some(u64::MAX));
}

#[test]
fn d07_rejects_splitters_at_the_edge() {
    assert_eq!(a("S.\n..\n^.\n"), Err(PuzzleError::InvalidInput));
    assert_eq!(a(""), Err(PuzzleError::InvalidInput));
    assert_eq!(b("S\n"), Ok(1));
}
