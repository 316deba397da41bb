use advent::y2025::d03::{a, b, bank_joltage, parse};
use advent::y2025::PuzzleError;

fn joltage(bank: &str, n: u32) -> u64 {
    let chars: Vec<char> = bank.chars().collect();
    let bank = parse(&chars).unwrap();
    bank_joltage(&bank, n)
}

#[test]
fn test_bank_joltage() {
    assert_eq!(joltage("987654321111111", 2), 98);
    assert_eq!(joltage("811111111111119", 2), 89);
    assert_eq!(joltage("234234234234278", 2), 78);
    assert_eq!(joltage("818181911112111", 2), 92);
    assert_eq!(joltage("987654321111111", 12), 987654321111);
    assert_eq!(joltage("811111111111119", 12), 811111111119);
    assert_eq!(joltage("234234234234278", 12), 434234234278);
    assert_eq!(joltage("818181911112111", 12), 888911112111);
}

#[test]
fn bank_joltage_of_short_banks() {
    assert_eq!(joltage("", 2), 0);
    assert_eq!(joltage("7", 2), 7);
    assert_eq!(joltage("70", 0), 0);
}

#[test]
fn d03_adds_the_banks() {
    let input = "987654321111111\n811111111111119\n234234234234278\n818181911112111\n";
    assert_eq!(a(input), Ok(357));
    assert_eq!(b(input), Ok(3121910778619));
    assert_eq!(a("12a4\n"), Err(PuzzleError::InvalidInput));
}
