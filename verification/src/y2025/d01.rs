//! Day 1: a dial of a hundred positions, turned left and right.
use vstd::prelude::*;
use crate::solution::Solution;
use crate::util::parse::{parse_signed, parse_signed_chars};
use crate::util::text::{copy_range, lines, split_lines, to_chars, views};
use crate::y2025::{collect, lemma_collect_fails, shown, PuzzleError};

verus! {

/// The number of positions of the dial.
pub const DIAL: i32 = 100;

/// The solvers of both parts.
pub fn solution() -> (solution: Solution)
    ensures
        solution.part_a() is Some,
        solution.part_b() is Some,
{
    Solution::new().with_a(|input: &str| -> (r: Result<i32, String>) { shown(a(input)) }).with_b(
        |input: &str| -> (r: Result<i32, String>) { shown(b(input)) },
    )
}

/// The turn that `line` asks for: the number after its first character, to
/// the left, which counts as negative, where that character is `L`, else to
/// the right.
pub open spec fn spec_parse(line: Seq<char>) -> Result<i32, PuzzleError> {
    if line.len() == 0 {
        Err(PuzzleError::InvalidInput)
    } else {
        match parse_signed(line.skip(1), i32::MIN as int, i32::MAX as int) {
            None => Err(PuzzleError::InvalidNumber),
            Some(magnitude) => if line[0] == 'L' {
                if magnitude == i32::MIN {
                    Err(PuzzleError::Overflow)
                } else {
                    Ok((-magnitude) as i32)
                }
            } else {
                Ok(magnitude as i32)
            },
        }
    }
}

/// Reads the turn that `line` asks for.
pub fn parse(line: &Vec<char>) -> (r: Result<i32, PuzzleError>)
    ensures
        r == spec_parse(line@),
{
    if line.len() == 0 {
        return Err(PuzzleError::InvalidInput);
    }
    let rest = copy_range(line, 1, line.len());
    assert(rest@ =~= line@.skip(1));
    match parse_signed_chars(&rest, i32::MIN as i64, i32::MAX as i64) {
        None => Err(PuzzleError::InvalidNumber),
        Some(magnitude) => if line[0] == 'L' {
            if magnitude == i32::MIN as i64 {
                Err(PuzzleError::Overflow)
            } else {
                Ok((-magnitude) as i32)
            }
        } else {
            Ok(magnitude as i32)
        },
    }
}

/// The turns that the lines of a text ask for.
pub open spec fn spec_moves(text: Seq<char>) -> Result<Seq<i32>, PuzzleError> {
    collect(lines(text), reader())
}

/// [`spec_parse`] as a value.
pub open spec fn reader() -> spec_fn(Seq<char>) -> Result<i32, PuzzleError> {
    |line: Seq<char>| spec_parse(line)
}

/// Reads the turns that the lines of `input` ask for.
pub fn moves(input: &str) -> (r: Result<Vec<i32>, PuzzleError>)
    ensures
        match r {
            Ok(moves) => spec_moves(input@) == Ok::<Seq<i32>, PuzzleError>(moves@),
            Err(error) => spec_moves(input@) == Err::<Seq<i32>, PuzzleError>(error),
        },
{
    let text = to_chars(input);
    let rows = split_lines(&text);
    let ghost all = lines(input@);
    let ghost read = reader();
    let mut moves: Vec<i32> = Vec::new();
    let mut i: usize = 0;
    assert(all.take(0) =~= Seq::<Seq<char>>::empty());
    while i < rows.len()
        invariant
            i <= rows@.len(),
            views(rows@) == all,
            all == lines(input@),
            read == reader(),
            collect(all.take(i as int), read) == Ok::<Seq<i32>, PuzzleError>(moves@),
        decreases rows.len() - i,
    {
        proof {
            assert(all.take(i + 1).drop_last() =~= all.take(i as int));
            assert(all.take(i + 1).last() == rows@[i as int]@);
        }
        match parse(&rows[i]) {
            Ok(amount) => {
                moves.push(amount);
            },
            Err(error) => {
                proof {
                    lemma_collect_fails(all, read, i + 1);
                }
                return Err(error);
            },
        }
        i += 1;
    }
    assert(all.take(i as int) =~= all);
    Ok(moves)
}

/// Where the dial points after a turn of `amount` from `position`.
pub open spec fn spec_turn(position: int, amount: int) -> int {
    (position + amount) % (DIAL as int)
}

/// Turns the dial by `amount` from `position`.
pub fn turn(position: i32, amount: i32) -> (end: i32)
    requires
        0 <= position < DIAL,
    ensures
        end == spec_turn(position as int, amount as int),
        0 <= end < DIAL,
{
    let sum: i64 = position as i64 + amount as i64;
    match sum.checked_rem_euclid(DIAL as i64) {
        Some(end) => end as i32,
        None => {
            assert(false);
            0
        },
    }
}

/// How often the dial stops at zero while `moves` are made one after the
/// other from `position`.
pub open spec fn zero_stops(moves: Seq<i32>, position: int) -> int
    decreases moves.len(),
{
    if moves.len() == 0 {
        0
    } else {
        let end = spec_turn(position, moves[0] as int);
        (if end == 0 {
            1int
        } else {
            0int
        }) + zero_stops(moves.skip(1), end)
    }
}

/// The answer of part A for `text`: how often the dial, which starts at 50,
/// stops at zero.
pub open spec fn spec_a(text: Seq<char>) -> Result<i32, PuzzleError> {
    match spec_moves(text) {
        Err(error) => Err(error),
        Ok(moves) => if zero_stops(moves, 50) > i32::MAX {
            Err(PuzzleError::Overflow)
        } else {
            Ok(zero_stops(moves, 50) as i32)
        },
    }
}

/// Counts how often the dial stops at zero.
pub fn a(input: &str) -> (r: Result<i32, PuzzleError>)
    ensures
        r == spec_a(input@),
{
    let moves = match moves(input) {
        Ok(moves) => moves,
        Err(error) => {
            return Err(error);
        },
    };
    let mut position: i32 = 50;
    let mut password: u64 = 0;
    let mut i: usize = 0;
    assert(moves@.skip(0) =~= moves@);
    while i < moves.len()
        invariant
            i <= moves@.len(),
            0 <= position < DIAL,
            password <= i,
            password + zero_stops(moves@.skip(i as int), position as int) == zero_stops(moves@, 50),
        decreases moves.len() - i,
    {
        assert(moves@.skip(i as int).skip(1) =~= moves@.skip(i + 1));
        assert(moves@.skip(i as int)[0] == moves@[i as int]);
        position = turn(position, moves[i]);
        if position == 0 {
            password += 1;
        }
        i += 1;
    }
    if password > i32::MAX as u64 {
        Err(PuzzleError::Overflow)
    } else {
        Ok(password as i32)
    }
}

/// Quotient and remainder of the Euclidean division of `value` by
/// `divisor`. This is `num::traits::Euclid::div_rem_euclid` on 64-bit
/// integers: for a positive divisor the quotient is rounded down and the
/// remainder is not negative.
#[verifier::external_body]
fn div_rem_euclid(value: i64, divisor: i64) -> (r: (i64, i64))
    requires
        divisor > 0,
    ensures
        r.0 == value as int / divisor as int,
        r.1 == value as int % divisor as int,
{
    num::traits::Euclid::div_rem_euclid(&value, &divisor)
}

/// Where the dial points after a turn of `amount` from `position`, and how
/// often it pointed at zero during the turn or at its end. A turn that
/// starts at zero does not count that zero.
pub open spec fn spec_turn_count_zeros(position: int, amount: int) -> (int, int) {
    let rounds = (position + amount) / (DIAL as int);
    let end = (position + amount) % (DIAL as int);
    let full = if rounds < 0 {
        -rounds
    } else {
        rounds
    };
    if amount < 0 {
        (end, full - (if position == 0 {
            1int
        } else {
            0int
        }) + (if end == 0 {
            1int
        } else {
            0int
        }))
    } else {
        (end, full)
    }
}

/// Turns the dial by `amount` from `position` and counts the zeros passed.
pub fn turn_count_zeros(position: i32, amount: i32) -> (r: (i32, i32))
    requires
        0 <= position < DIAL,
    ensures
        r.0 == spec_turn_count_zeros(position as int, amount as int).0,
        r.1 == spec_turn_count_zeros(position as int, amount as int).1,
        0 <= r.0 < DIAL,
        0 <= r.1 <= 21474837,
{
    let sum: i64 = position as i64 + amount as i64;
    let (rounds, end) = div_rem_euclid(sum, DIAL as i64);
    assert(-21474837 <= rounds <= 21474837 && 0 <= end < 100) by (nonlinear_arith)
        requires
            rounds == sum as int / 100,
            end == sum as int % 100,
            -2147483648 <= sum <= 2147483647 + 99,
    ;
    let mut zeros: i64 = if rounds < 0 {
        -rounds
    } else {
        rounds
    };
    if amount < 0 {
        let was_zero = position == 0;
        let is_zero = end == 0;
        if was_zero {
            zeros -= 1;
        }
        if is_zero {
            zeros += 1;
        }
        assert(zeros >= 0) by {
            if was_zero {
                assert(sum < 0);
                assert(rounds < 0) by (nonlinear_arith)
                    requires
                        rounds == sum as int / 100,
                        sum < 0,
                ;
            }
        }
        assert(zeros <= 21474837) by {
            if is_zero && !was_zero {
                assert(rounds * 100 == sum) by (nonlinear_arith)
                    requires
                        rounds == sum as int / 100,
                        0 == sum as int % 100,
                ;
            }
        }
    }
    (end as i32, zeros as i32)
}

/// How often the dial points at zero while `moves` are made one after the
/// other from `position`.
pub open spec fn zero_clicks(moves: Seq<i32>, position: int) -> int
    decreases moves.len(),
{
    if moves.len() == 0 {
        0
    } else {
        let (end, zeros) = spec_turn_count_zeros(position, moves[0] as int);
        zeros + zero_clicks(moves.skip(1), end)
    }
}

/// The answer of part B for `text`: how often the dial, which starts at 50,
/// points at zero, during a turn or at its end.
pub open spec fn spec_b(text: Seq<char>) -> Result<i32, PuzzleError> {
    match spec_moves(text) {
        Err(error) => Err(error),
        Ok(moves) => if zero_clicks(moves, 50) > i32::MAX {
            Err(PuzzleError::Overflow)
        } else {
            Ok(zero_clicks(moves, 50) as i32)
        },
    }
}

/// A dial never points at zero a negative number of times.
pub proof fn lemma_zero_clicks(moves: Seq<i32>, position: int)
    requires
        0 <= position < DIAL,
    ensures
        zero_clicks(moves, position) >= 0,
    decreases moves.len(),
{
    if moves.len() > 0 {
        let amount = moves[0] as int;
        let (end, zeros) = spec_turn_count_zeros(position, amount);
        let sum = position + amount;
        assert(0 <= end < 100 && (sum < 0 ==> sum / 100 < 0)) by (nonlinear_arith)
            requires
                end == sum % 100,
        ;
        assert(zeros >= 0);
        lemma_zero_clicks(moves.skip(1), end);
    }
}

/// Counts how often the dial points at zero.
pub fn b(input: &str) -> (r: Result<i32, PuzzleError>)
    ensures
        r == spec_b(input@),
{
    let moves = match moves(input) {
        Ok(moves) => moves,
        Err(error) => {
            return Err(error);
        },
    };
    let mut position: i32 = 50;
    let mut password: i32 = 0;
    let mut i: usize = 0;
    assert(moves@.skip(0) =~= moves@);
    while i < moves.len()
        invariant
            i <= moves@.len(),
            0 <= position < DIAL,
            0 <= password,
            spec_moves(input@) == Ok::<Seq<i32>, PuzzleError>(moves@),
            password + zero_clicks(moves@.skip(i as int), position as int) == zero_clicks(moves@, 50),
        decreases moves.len() - i,
    {
        assert(moves@.skip(i as int).skip(1) =~= moves@.skip(i + 1));
        assert(moves@.skip(i as int)[0] == moves@[i as int]);
        let (end, zeros) = turn_count_zeros(position, moves[i]);
        password = match password.checked_add(zeros) {
            Some(sum) => sum,
            None => {
                proof {
                    lemma_zero_clicks(moves@.skip(i + 1), end as int);
                    assert(zero_clicks(moves@.skip(i as int), position as int) == zeros + zero_clicks(
                        moves@.skip(i + 1),
                        end as int,
                    ));
                }
                return Err(PuzzleError::Overflow);
            },
        };
        position = end;
        i += 1;
    }
    Ok(password)
}

} // verus!
