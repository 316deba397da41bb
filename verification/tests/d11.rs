use advent::y2025::d11::{a, b, count_paths, get_node_idx, parse};
use advent::y2025::PuzzleError;

const TEST_INPUT_A: &str = "aaa: you hhh
you: bbb ccc
bbb: ddd eee
ccc: ddd eee fff
ddd: ggg
eee: out
fff: out
ggg: out
hhh: ccc fff iii
iii: out
";

const TEST_INPUT_B: &str = "svr: aaa bbb
aaa: fft
fft: ccc
bbb: tty
tty: ccc
ccc: ddd eee
ddd: hub
hub: fff
eee: dac
dac: fff
fff: ggg hhh
ggg: out
hhh: out
";

#[test]
fn d11_test_a() {
    assert_eq!(a(TEST_INPUT_A), Ok(5));
}

#[test]
fn d11_test_b() {
    assert_eq!(b(TEST_INPUT_B), Ok(2));
}

#[test]
fn d11_missing_devices() {
    assert_eq!(a("aaa: out\n"), Err(PuzzleError::MissingYou));
    assert_eq!(a("you: aaa\n"), Err(PuzzleError::MissingOut));
    assert_eq!(b("svr: dac\ndac: out\n"), Err(PuzzleError::MissingFft));
    assert_eq!(a("you out\n"), Err(PuzzleError::InvalidInput));
}

#[test]
fn d11_cycles_are_reported() {
    assert_eq!(a("you: aaa\naaa: you\nbbb: out\n"), Err(PuzzleError::CyclicGraph));
    assert_eq!(a("you: aaa out\naaa: out out\n"), Ok(3));
}

#[test]
fn d11_graph_places() {
    let network = parse("b: a c\na: c\n").ok().unwrap();
    assert_eq!(network.len(), 3);
    let b = get_node_idx(&network, "b", PuzzleError::InvalidInput).unwrap();
    let c = get_node_idx(&network, "c", PuzzleError::InvalidInput).unwrap();
    assert_eq!((b.0, c.0), (0, 2));
    assert_eq!(count_paths(&network, b, c), Ok(2));
    assert_eq!(count_paths(&network, c, b), Ok(0));
    assert_eq!(network.node(b).name, "b");
}

#[test]
fn d11_b_names_the_first_device_that_is_missing() {
    assert_eq!(b("aaa: dac fft out\n"), Err(PuzzleError::MissingSvr));
    assert_eq!(b("svr: fft out\n"), Err(PuzzleError::MissingDac));
    assert_eq!(b("svr: dac\n"), Err(PuzzleError::MissingFft));
    assert_eq!(b("svr: dac fft\n"), Err(PuzzleError::MissingOut));
    assert_eq!(b("svr dac fft out\n"), Err(PuzzleError::InvalidInput));
}

#[test]
fn d11_b_refuses_ways_that_lead_back() {
    assert_eq!(b("svr: dac\ndac: fft\nfft: dac out\n"), Err(PuzzleError::CyclicGraph));
    assert_eq!(b("svr: dac\ndac: fft\nfft: out\n"), Ok(1));
    assert_eq!(b("svr: fft\nfft: dac dac\ndac: out\n"), Ok(2));
    assert_eq!(b("svr: dac fft\ndac: out\nfft: out\n"), Ok(0));
}
