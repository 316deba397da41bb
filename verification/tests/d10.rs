use advent::y2025::d10::{a, iter_ones, parse, parse_button, parse_lights, Machine};
use advent::y2025::PuzzleError;

const TEST_INPUTS: [&str; 3] = [
    "[.##.] (3) (1,3) (2) (2,3) (0,2) (0,1) {3,5,4,7}",
    "[...#.] (0,2,3,4) (2,3) (0,4) (0,1,2) (1,2,3,4) {7,5,12,7,2}",
    "[.###.#] (0,1,2,3,4) (0,3,4) (0,1,2,4,5) (1,2) {10,11,11,5,10,5}",
];

fn machine(line: &str) -> Machine {
    let chars: Vec<char> = line.chars().collect();
    parse(&chars).unwrap()
}

#[test]
fn d10_test_a() {
    let expected = [2, 3, 2];
    for (line, presses) in TEST_INPUTS.iter().zip(expected) {
        let (_pattern, found) = machine(line).solve_lights();
        assert_eq!(found, presses);
    }
    assert_eq!(a(&TEST_INPUTS.join("\n")), Ok(7));
}

#[test]
fn d10_parses_machines() {
    let parsed = machine(TEST_INPUTS[0]);
    assert_eq!(parsed.lights, 0b0110);
    assert_eq!(parsed.buttons, vec![0b1000, 0b1010, 0b0100, 0b1100, 0b0101, 0b0011]);
    assert_eq!(parsed.joltage, vec![3, 5, 4, 7]);
    let lights: Vec<char> = "#..#".chars().collect();
    assert_eq!(parse_lights(&lights), Some(0b1001));
    let button: Vec<char> = "0,2,31)".chars().collect();
    assert_eq!(parse_button(&button, 0), Some((0x8000_0005, 6)));
    assert_eq!(iter_ones(0b1010_0001), vec![0, 5, 7]);
}

#[test]
fn d10_rejects_bad_machines() {
    let bad = ["", "[.#] (0) {1", "[.#] (0){1}", "[.#] {1}", "[.#](0) {1}", "[.#] (32) {1}", "[.#] (0) {}"];
    for line in bad {
        let chars: Vec<char> = line.chars().collect();
        assert!(parse(&chars).is_none(), "{line}");
    }
    assert_eq!(a("[.#] (0) {1}\nnonsense\n"), Err(PuzzleError::InvalidInput));
}

#[test]
fn d10_unsolvable_lights_give_the_number_of_patterns() {
    let unsolvable = Machine::new(0b1, vec![0b10], vec![1]);
    assert_eq!(unsolvable.solve_lights(), (0, 2));
    let nothing = Machine::new(0, vec![0b10], vec![1]);
    assert_eq!(nothing.solve_lights(), (0, 0));
}

#[test]
fn d10_more_than_31_buttons_are_refused() {
    let mut line = String::from("[#]");
    for _ in 0..32 {
        line.push_str(" (0)");
    }
    line.push_str(" {1}");
    assert_eq!(a(&line), Err(PuzzleError::Overflow));
    assert_eq!(a(&format!("nonsense\n{line}\n")), Err(PuzzleError::InvalidInput));
}

#[test]
fn d10_lights_that_no_buttons_light_count_all_patterns() {
    assert_eq!(a("[.#] (0) {1}"), Ok(2));
    assert_eq!(a("[.#] (0) {1}\n[#] (0) {1}\n"), Ok(3));
    assert_eq!(a(""), Ok(0));
}
