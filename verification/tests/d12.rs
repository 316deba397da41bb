use advent::util::vector::vec2;
use advent::y2025::d12::{a, can_fit_piece_count, can_fit_upper_shape_bound, parse, parse_region, parse_shapes};
use advent::y2025::PuzzleError;

const INPUT: &str = "0:\n###\n#..\n###\n\n1:\n##\n##\n\n4x4: 0 1\n12x5: 1 1\n3x3: 1 2\n";

#[test]
fn d12_parses_shapes_and_regions() {
    let (shapes, regions) = parse(INPUT).ok().unwrap();
    assert_eq!(shapes.len(), 2);
    assert_eq!(shapes[0].size, vec2(3, 3));
    assert_eq!(shapes[0].pieces.len(), 7);
    assert_eq!(shapes[1].size, vec2(2, 2));
    assert_eq!(regions.len(), 3);
    assert_eq!(regions[1].size, vec2(12, 5));
    assert_eq!(regions[1].shape_counts, vec![1, 1]);
}

#[test]
fn d12_counts_regions_with_room() {
    assert_eq!(a(INPUT), Ok(2));
}

#[test]
fn d12_fitting_rules() {
    let (shapes, regions) = parse(INPUT).ok().unwrap();
    assert!(!can_fit_upper_shape_bound(vec2(3, 3), &regions[0]));
    assert!(can_fit_upper_shape_bound(vec2(3, 3), &regions[1]));
    assert_eq!(can_fit_piece_count(&shapes, &regions[0]), Some((true, true)));
    assert_eq!(can_fit_piece_count(&shapes, &regions[2]), Some((false, false)));
}

#[test]
fn d12_unexpected_state() {
    let input = "0:\n###\n#..\n###\n\n3x3: 1\n";
    assert_eq!(a(input), Ok(1));
    let tight = "0:\n#.#\n...\n#.#\n\n2x2: 1\n";
    assert_eq!(a(tight), Err(PuzzleError::UnexpectedState { upper: false, exact: true }));
    assert_eq!(
        PuzzleError::UnexpectedState { upper: false, exact: true }.message(),
        "unexpected state: upper=false, exact=true"
    );
}

#[test]
fn d12_rejects_bad_input() {
    assert_eq!(a("no blank line"), Err(PuzzleError::InvalidInput));
    assert_eq!(a("0:\n##\n\n4y4: 1\n"), Err(PuzzleError::InvalidInput));
    assert_eq!(a("0:\n##\n\n4x4: a\n"), Err(PuzzleError::InvalidNumber));
    assert_eq!(a("0:\n..\n\n4x4: 1\n"), Err(PuzzleError::InvalidInput));
    let region: Vec<char> = "4x4 1".chars().collect();
    assert!(parse_region(&region).is_err());
    let bare: Vec<char> = "0:".chars().collect();
    assert!(parse_shapes(&bare).is_err());
}

#[test]
fn d12_piece_count_compares_cells_and_room() {
    let (shapes, regions) = parse("0:\n##\n#.\n\n2x2: 1\n2x2: 2\n").unwrap();
    assert_eq!(can_fit_piece_count(&shapes, &regions[0]), Some((true, true)));
    assert_eq!(can_fit_piece_count(&shapes, &regions[1]), Some((false, false)));
}
