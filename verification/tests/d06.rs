use advent::y2025::d06::{a, b, Op};
use advent::y2025::PuzzleError;

const TEST_INPUT: &str = "123 328  51 64 
 45 64  387 23 
  6 98  215 314
*   +   *   +  
";

#[test]
fn d06_test_a() {
    assert_eq!(a(TEST_INPUT), Ok(4277556));
}

#[test]
fn d06_test_b() {
    assert_eq!(b(TEST_INPUT), Ok(3263827));
}

#[test]
fn d06_operations() {
    assert_eq!(Op::Add.identity(), 0);
    assert_eq!(Op::Mul.identity(), 1);
    let mut n = 6;
    Op::Mul.apply_to(&mut n, 7);
    assert_eq!(n, 42);
    Op::Add.apply_to(&mut n, 8);
    assert_eq!(n, 50);
    assert!(!Op::Mul.try_apply_to(&mut n, u64::MAX));
    assert_eq!(n, 50);
    assert_eq!(Op::parse("+"), Op::Add);
    assert_eq!(Op::parse("*"), Op::Mul);
    assert_eq!(Op::parse("x"), Op::Mul);
}

#[test]
fn d06_rejects_bad_input() {
    assert_eq!(a(""), Err(PuzzleError::EmptyInput));
    assert_eq!(b(""), Err(PuzzleError::EmptyInput));
    assert_eq!(a("1 x\n+ +\n"), Err(PuzzleError::InvalidNumber));
    assert_eq!(b("12\n1\n+ \n"), Err(PuzzleError::InvalidInput));
    assert_eq!(a("18446744073709551615\n2\n*\n"), Err(PuzzleError::Overflow));
}

#[test]
fn d06_operations_are_read_from_their_signs() {
    assert_eq!("+".parse::<Op>(), Ok(Op::Add));
    assert_eq!("*".parse::<Op>(), Ok(Op::Mul));
    assert_eq!("anything".parse::<Op>(), Ok(Op::Mul));
}
