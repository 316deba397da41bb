//! The puzzles of 2025.
use vstd::prelude::*;
use crate::solution::Solutions;

pub mod d01;
pub mod d02;
pub mod d03;
pub mod d04;
pub mod d05;
pub mod d06;
pub mod d07;
pub mod d08;
pub mod d09;
pub mod d10;
pub mod d11;
pub mod d12;

verus! {

/// Why a puzzle could not be solved for an input.
#[derive(Debug, Clone, Copy, PartialEq, Eq, Structural)]
pub enum PuzzleError {
    /// The input is not laid out as the puzzle describes it.
    InvalidInput,
    /// Where a number is expected stands something else, or a number too
    /// large.
    InvalidNumber,
    /// The input holds nothing to work on.
    EmptyInput,
    /// The answer, or a number on the way to it, is beyond the numbers of
    /// the machine.
    Overflow,
    /// Two tiles that follow each other share neither row nor column.
    DiagonalSegment,
    /// No rectangle between two tiles is free of the lines between tiles.
    NoSuitableRectangle,
    /// The device `you` is not in the network.
    MissingYou,
    /// The device `out` is not in the network.
    MissingOut,
    /// The device `svr` is not in the network.
    MissingSvr,
    /// The device `dac` is not in the network.
    MissingDac,
    /// The device `fft` is not in the network.
    MissingFft,
    /// The network leads back to a device it came from.
    CyclicGraph,
    /// There are fewer pairs of boxes than connections to make.
    NotEnoughEdges,
    /// The two ways of counting room disagree on whether a region has room
    /// enough: by the rectangles around the shapes, and by their pieces.
    UnexpectedState { upper: bool, exact: bool },
}

/// `true` or `false`, as `flag` is.
pub open spec fn flag_text(flag: bool) -> Seq<char> {
    if flag {
        "true"@
    } else {
        "false"@
    }
}

impl PuzzleError {
    /// What is shown for this error.
    pub open spec fn spec_message(&self) -> Seq<char> {
        match self {
            PuzzleError::InvalidInput => "invalid input"@,
            PuzzleError::InvalidNumber => "invalid input: not a number"@,
            PuzzleError::EmptyInput => "empty input"@,
            PuzzleError::Overflow => "arithmetic overflow"@,
            PuzzleError::DiagonalSegment => "diagonal segment"@,
            PuzzleError::NoSuitableRectangle => "no suitable rectangle"@,
            PuzzleError::MissingYou => "invalid input: missing 'you' node"@,
            PuzzleError::MissingOut => "invalid input: missing 'out' node"@,
            PuzzleError::MissingSvr => "invalid input: missing 'svr' node"@,
            PuzzleError::MissingDac => "invalid input: missing 'dac' node"@,
            PuzzleError::MissingFft => "invalid input: missing 'fft' node"@,
            PuzzleError::CyclicGraph => "unexpected cyclic graph"@,
            PuzzleError::NotEnoughEdges => "not enough edge candidates"@,
            PuzzleError::UnexpectedState { upper, exact } => "unexpected state: upper="@ + flag_text(*upper)
                + ", exact="@ + flag_text(*exact),
        }
    }

    /// What is shown for this error.
    pub fn message(&self) -> (s: String)
        ensures
            s@ == self.spec_message(),
    {
        match self {
            PuzzleError::InvalidInput => "invalid input".to_owned(),
            PuzzleError::InvalidNumber => "invalid input: not a number".to_owned(),
            PuzzleError::EmptyInput => "empty input".to_owned(),
            PuzzleError::Overflow => "arithmetic overflow".to_owned(),
            PuzzleError::DiagonalSegment => "diagonal segment".to_owned(),
            PuzzleError::NoSuitableRectangle => "no suitable rectangle".to_owned(),
            PuzzleError::MissingYou => "invalid input: missing 'you' node".to_owned(),
            PuzzleError::MissingOut => "invalid input: missing 'out' node".to_owned(),
            PuzzleError::MissingSvr => "invalid input: missing 'svr' node".to_owned(),
            PuzzleError::MissingDac => "invalid input: missing 'dac' node".to_owned(),
            PuzzleError::MissingFft => "invalid input: missing 'fft' node".to_owned(),
            PuzzleError::CyclicGraph => "unexpected cyclic graph".to_owned(),
            PuzzleError::NotEnoughEdges => "not enough edge candidates".to_owned(),
            PuzzleError::UnexpectedState { upper, exact } => {
                let mut s = String::new();
                crate::util::text::push_text(&mut s, "unexpected state: upper=");
                crate::util::text::push_text(&mut s, if *upper {
                    "true"
                } else {
                    "false"
                });
                crate::util::text::push_text(&mut s, ", exact=");
                crate::util::text::push_text(&mut s, if *exact {
                    "true"
                } else {
                    "false"
                });
                assert(s@ =~= self.spec_message());
                s
            },
        }
    }
}

/// Every one of `items` read by `parse`, in order, or the error of the
/// first that cannot be read.
pub open spec fn collect<T>(
    items: Seq<Seq<char>>,
    parse: spec_fn(Seq<char>) -> Result<T, PuzzleError>,
) -> Result<Seq<T>, PuzzleError>
    decreases items.len(),
{
    if items.len() == 0 {
        Ok(Seq::empty())
    } else {
        match collect(items.drop_last(), parse) {
            Err(error) => Err(error),
            Ok(read) => match parse(items.last()) {
                Err(error) => Err(error),
                Ok(item) => Ok(read.push(item)),
            },
        }
    }
}

/// Once the first items cannot all be read, neither can the whole.
pub proof fn lemma_collect_fails<T>(
    items: Seq<Seq<char>>,
    parse: spec_fn(Seq<char>) -> Result<T, PuzzleError>,
    n: int,
)
    requires
        0 <= n <= items.len(),
        collect(items.take(n), parse) is Err,
    ensures
        collect(items, parse) == collect(items.take(n), parse),
    decreases items.len() - n,
{
    if n < items.len() {
        assert(items.take(n + 1).drop_last() =~= items.take(n));
        lemma_collect_fails(items, parse, n + 1);
    } else {
        assert(items.take(n) =~= items);
    }
}

/// What is shown for the result of a puzzle: the answer, or the message of
/// the error.
pub fn shown<T>(result: Result<T, PuzzleError>) -> (r: Result<T, String>)
    ensures
        r == (match result {
            Ok(answer) => Ok::<T, String>(answer),
            Err(error) => Err::<T, String>(r->Err_0),
        }),
        result matches Err(error) ==> r->Err_0@ == error.spec_message(),
{
    match result {
        Ok(answer) => Ok(answer),
        Err(error) => Err(error.message()),
    }
}

/// Registers the solutions of 2025.
pub fn register(solutions: &mut Solutions)
    requires
        old(solutions).wf(),
    ensures
        final(solutions).wf(),
        final(solutions).registered().dom() == old(solutions).registered().dom() + days(),
{
    solutions.register(2025, 1, self::d01::solution());
    solutions.register(2025, 2, self::d02::solution());
    solutions.register(2025, 3, self::d03::solution());
    solutions.register(2025, 4, self::d04::solution());
    solutions.register(2025, 5, self::d05::solution());
    solutions.register(2025, 6, self::d06::solution());
    solutions.register(2025, 7, self::d07::solution());
    solutions.register(2025, 8, self::d08::solution());
    solutions.register(2025, 9, self::d09::solution());
    solutions.register(2025, 10, self::d10::solution());
    solutions.register(2025, 11, self::d11::solution());
    solutions.register(2025, 12, self::d12::solution());
    assert(solutions.registered().dom() =~= old(solutions).registered().dom() + days());
}

/// The days of 2025 that this library holds solutions for.
pub open spec fn days() -> Set<(u32, u32)> {
    set![(2025u32, 1u32), (2025u32, 2u32), (2025u32, 3u32), (2025u32, 4u32), (2025u32, 5u32), (2025u32, 6u32), (2025u32, 7u32), (2025u32, 8u32), (2025u32, 9u32), (2025u32, 10u32), (2025u32, 11u32), (2025u32, 12u32)]
}

} // verus!
