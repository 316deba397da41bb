use advent::util::vector::{vec2, IVec2};
use advent::y2025::d09::{a, b, Rect, Segments};
use advent::y2025::PuzzleError;

const TEST_INPUT: &str = "7,1
11,1
11,7
9,7
9,5
2,5
2,3
7,3
";

fn area(a: IVec2, b: IVec2) -> i128 {
    Rect::new(a, b).area()
}

#[test]
fn test_area() {
    assert_eq!(area(vec2(2, 5), vec2(9, 7)), 24);
    assert_eq!(area(vec2(7, 1), vec2(11, 7)), 35);
    assert_eq!(area(vec2(7, 3), vec2(2, 3)), 6);
    assert_eq!(area(vec2(2, 5), vec2(11, 1)), 50);
}

#[test]
fn d09_test_a() {
    assert_eq!(a(TEST_INPUT), Ok(50));
}

#[test]
fn d09_test_b() {
    assert_eq!(b(TEST_INPUT), Ok(24));
}

#[test]
fn d09_interior_and_overlap() {
    let rect = Rect::new(vec2(0, 0), vec2(4, 4));
    let inner = rect.interior().unwrap();
    assert_eq!(inner, Rect { position: vec2(1, 1), size: vec2(3, 3) });
    assert_eq!(Rect::new(vec2(0, 0), vec2(0, 9)).interior(), None);
    let square = [vec2(0, 0), vec2(4, 0), vec2(4, 4), vec2(0, 4)];
    let segments = Segments::from_loop(&square).ok().unwrap();
    assert_eq!(segments.horizontal.len(), 2);
    assert_eq!(segments.vertical.len(), 2);
    assert!(!segments.overlaps(&inner));
    assert!(segments.overlaps(&rect));
}

#[test]
fn d09_errors() {
    assert_eq!(a(""), Err(PuzzleError::EmptyInput));
    assert_eq!(a("1,1\n"), Err(PuzzleError::EmptyInput));
    assert_eq!(a("1;1\n"), Err(PuzzleError::InvalidInput));
    assert_eq!(a("1,x\n"), Err(PuzzleError::InvalidNumber));
    assert_eq!(b("0,0\n3,4\n"), Err(PuzzleError::DiagonalSegment));
    assert_eq!(b("0,0\n0,5\n"), Err(PuzzleError::NoSuitableRectangle));
    assert_eq!(a("9223372036854775807,0\n0,0\n"), Err(PuzzleError::Overflow));
}
