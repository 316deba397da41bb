use advent::y2025::d02::{a, b, is_invalid_input_b, is_repeating_pattern, iter_invalid_ids_a, iter_invalid_ids_b, len};
use advent::y2025::PuzzleError;

#[test]
fn test_iter_invalid_ids_a() {
    let cases: [(u64, u64, &[u64]); 8] = [
        (11, 22, &[11, 22]),
        (95, 115, &[99]),
        (998, 1012, &[1010]),
        (1188511880, 1188511890, &[1188511885]),
        (222220, 222224, &[222222]),
        (1698522, 1698528, &[]),
        (446443, 446449, &[446446]),
        (38593856, 38593862, &[38593859]),
    ];
    for (low, high, expected) in cases {
        assert_eq!(iter_invalid_ids_a(low, high), expected);
    }
}

#[test]
fn test_iter_invalid_ids_b() {
    let cases: [(u64, u64, &[u64]); 10] = [
        (11, 22, &[11, 22]),
        (95, 115, &[99, 111]),
        (998, 1012, &[999, 1010]),
        (1188511880, 1188511890, &[1188511885]),
        (222220, 222224, &[222222]),
        (1698522, 1698528, &[]),
        (446443, 446449, &[446446]),
        (38593856, 38593862, &[38593859]),
        (565653, 565659, &[565656]),
        (2121212118, 2121212124, &[2121212121]),
    ];
    for (low, high, expected) in cases {
        assert_eq!(iter_invalid_ids_b(low, high), expected);
    }
}

#[test]
fn d02_digits_and_patterns() {
    assert_eq!(len(0), 1);
    assert_eq!(len(9), 1);
    assert_eq!(len(10), 2);
    assert_eq!(len(u64::MAX), 20);
    assert!(is_repeating_pattern(1212, 2));
    assert!(!is_repeating_pattern(1213, 2));
    assert!(is_invalid_input_b(777));
    assert!(!is_invalid_input_b(7));
    assert!(iter_invalid_ids_a(18446744073709551600, u64::MAX).is_empty());
    assert!(iter_invalid_ids_b(5, 4).is_empty());
}

#[test]
fn d02_sums_the_ranges() {
    let input = "11-22,95-115,998-1012,1188511880-1188511890,222220-222224,\n1698522-1698528,446443-446449,38593856-38593862,565653-565659,\n824824821-824824827,2121212118-2121212124\n";
    assert_eq!(a(input), Ok(1227775554));
    assert_eq!(b(input), Ok(4174379265));
    assert_eq!(a("11-22, 95-115"), Ok(132));
}

#[test]
fn d02_rejects_bad_ranges() {
    assert_eq!(a(""), Err(PuzzleError::InvalidInput));
    assert_eq!(a("11"), Err(PuzzleError::InvalidInput));
    assert_eq!(a("11-x"), Err(PuzzleError::InvalidNumber));
    assert_eq!(b("11-22,"), Err(PuzzleError::InvalidInput));
}
