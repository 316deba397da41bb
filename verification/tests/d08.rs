use advent::util::vector::vec3;
use advent::y2025::d08::{a, b, parse_node, Circuits, Edge};
use advent::y2025::PuzzleError;

const TEST_INPUT: &str = "162,817,812
57,618,57
906,360,560
592,479,940
352,342,300
466,668,158
542,29,236
431,825,988
739,650,466
52,470,668
216,146,977
819,987,18
117,168,530
805,96,715
346,949,466
970,615,88
941,993,340
862,61,35
984,92,344
425,690,689
";

#[test]
fn d08_test_a() {
    assert_eq!(a(TEST_INPUT, 10), Ok(40));
}

#[test]
fn d08_test_b() {
    assert_eq!(b(TEST_INPUT), Ok(25272));
}

#[test]
fn d08_reads_boxes() {
    let line: Vec<char> = "-1,+2,3 rest".chars().collect();
    assert_eq!(parse_node(&line), Ok(vec3(-1, 2, 3)));
    let short: Vec<char> = "1,2".chars().collect();
    assert_eq!(parse_node(&short), Err(PuzzleError::InvalidInput));
}

#[test]
fn d08_candidates_come_shortest_first() {
    let nodes = vec![vec3(0, 0, 0), vec3(10, 0, 0), vec3(1, 0, 0)];
    let edges = Edge::candidates(&nodes).unwrap();
    assert_eq!(
        edges,
        vec![
            Edge { left: 0, right: 2, d2: 1 },
            Edge { left: 1, right: 2, d2: 81 },
            Edge { left: 0, right: 1, d2: 100 },
        ]
    );
    assert_eq!(Edge::candidates(&vec![vec3(i64::MAX, 0, 0), vec3(0, 0, 0)]), None);
}

#[test]
fn d08_circuits_merge() {
    let mut circuits = Circuits::new(4);
    assert_eq!(circuits.len(), 4);
    assert!(circuits.connect(0, 1));
    assert!(!circuits.connect(1, 0));
    assert!(circuits.connect(2, 3));
    assert_eq!(circuits.iter(), vec![2, 2]);
    assert!(!circuits.is_single_circuit());
    assert!(circuits.connect(3, 0));
    assert!(circuits.is_single_circuit());
    assert_eq!(circuits.iter(), vec![4]);
}

#[test]
fn d08_errors() {
    assert_eq!(a("1,2,3\n4,5,6\n", 2), Err(PuzzleError::NotEnoughEdges));
    assert_eq!(b("1,2,3\n"), Err(PuzzleError::NotEnoughEdges));
    assert_eq!(a("1,2\n", 1), Err(PuzzleError::InvalidInput));
    assert_eq!(a("", 0), Ok(1));
}

#[test]
fn d08_distances_beyond_64_bits_are_refused() {
    let far = "-9000000000000000000,0,0\n9000000000000000000,0,0\n";
    assert_eq!(a(far, 1), Err(PuzzleError::Overflow));
    assert_eq!(b(far), Err(PuzzleError::Overflow));
    let nodes = vec![vec3(-9000000000000000000, 0, 0), vec3(9000000000000000000, 0, 0)];
    assert!(Edge::candidates(&nodes).is_none());
}

#[test]
fn d08_candidates_are_one_for_each_pair() {
    let nodes = vec![vec3(0, 0, 0), vec3(5, 0, 0), vec3(0, 1, 0), vec3(0, 0, 3)];
    let edges = Edge::candidates(&nodes).unwrap();
    assert_eq!(edges.len(), 6);
    let lengths: Vec<i64> = edges.iter().map(|edge| edge.d2).collect();
    assert_eq!(lengths, vec![1, 9, 10, 25, 26, 34]);
    assert_eq!((edges[0].left, edges[0].right), (0, 2));
}

#[test]
fn d08_connections_beyond_the_pairs_are_refused() {
    assert_eq!(a("0,0,0\n1,0,0\n3,0,0\n", 3), Ok(3));
    assert_eq!(a("0,0,0\n1,0,0\n3,0,0\n", 4), Err(PuzzleError::NotEnoughEdges));
    assert_eq!(b("0,0,0\n"), Err(PuzzleError::NotEnoughEdges));
    assert_eq!(b("3000000000,0,0\n4000000000,1,1\n"), Err(PuzzleError::Overflow));
}
