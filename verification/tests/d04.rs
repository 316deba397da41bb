use advent::y2025::d04::{
    a, b, moore_neighborhood, parse, with_accessible_rolls, with_accessible_rolls_masked,
};

const TEST_INPUT: &str = "..@@.@@@@.
@@@.@.@.@@
@@@@@.@.@@
@.@@@@..@.
@@.@@@@.@@
.@@@@@@@.@
.@.@.@.@@@
@.@@@.@@@@
.@@@@@@@@.
@.@.@@@.@.
";

#[test]
fn d04_test_a() {
    assert_eq!(a(TEST_INPUT), Ok(13));
}

#[test]
fn d04_test_b() {
    assert_eq!(b(TEST_INPUT), Ok(43));
}

#[test]
fn d04_neighborhood_has_eight_cells() {
    assert_eq!(
        moore_neighborhood(5, 7),
        vec![(4, 6), (5, 6), (6, 6), (4, 7), (6, 7), (4, 8), (5, 8), (6, 8)]
    );
}

#[test]
fn d04_empty_floor() {
    assert_eq!(a(""), Ok(0));
    assert_eq!(b("....\n....\n"), Ok(0));
    assert_eq!(b("@"), Ok(1));
}

#[test]
fn d04_accessible_rolls_of_a_small_floor() {
    let rolls = parse("@@@\n@@@\n@@@\n").unwrap();
    let mut found = with_accessible_rolls(&rolls);
    found.sort();
    assert_eq!(found, vec![(0, 0), (0, 2), (2, 0), (2, 2)]);

    let mask = parse("@..\n.@.\n..@\n").unwrap();
    let mut masked = with_accessible_rolls_masked(&rolls, &mask);
    masked.sort();
    assert_eq!(masked, vec![(0, 0), (2, 2)]);
}
