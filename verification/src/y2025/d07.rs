//! Day 7: beams that fall through rows of splitters.
use vstd::prelude::*;
use crate::solution::Solution;
use crate::util::hash::{cells_contains, cells_insert, cells_new, Cells};
use crate::util::text::{lines, split_lines, to_chars, views};
use crate::y2025::d06::{checked_sum, lemma_sum_fails, sum, sum_upto};
use crate::y2025::{shown, PuzzleError};

verus! {

/// What the input shows: how many cells wide and how many rows high it is,
/// where the beam starts, and where splitters stand. Only every other line
/// of the text counts as a row.
pub struct Input {
    pub width: i64,
    pub height: i64,
    pub start: i64,
    pub splitters: Cells,
}

/// The rows that count: every other line, from the first.
pub open spec fn every_other(rows: Seq<Seq<char>>) -> Seq<Seq<char>> {
    Seq::new(((rows.len() + 1) / 2) as nat, |y: int| rows[2 * y])
}

/// The splitters that `rows` show: the cells that hold a `^`.
pub open spec fn splitters_of(rows: Seq<Seq<char>>) -> Set<(i64, i64)> {
    Set::new(
        |p: (i64, i64)| 0 <= p.1 < rows.len() && 0 <= p.0 < rows[p.1 as int].len() && rows[p.1 as int][p.0 as int] == '^',
    )
}

/// The splitters that the first `y` rows show, with those among the first
/// `x` cells of the row after them.
pub open spec fn splitters_upto(rows: Seq<Seq<char>>, x: int, y: int) -> Set<(i64, i64)> {
    Set::new(
        |p: (i64, i64)|
            0 <= p.1 < rows.len() && 0 <= p.0 < rows[p.1 as int].len() && rows[p.1 as int][p.0 as int] == '^' && (
            p.1 < y || (p.1 == y && p.0 < x)),
    )
}

/// The column of the last `S` among the first `y` rows and the first `x`
/// cells of the row after them; zero where there is none.
pub open spec fn start_upto(rows: Seq<Seq<char>>, x: int, y: int) -> int
    decreases y, x,
{
    if y < 0 || x < 0 || (y == 0 && x == 0) {
        0
    } else if x == 0 {
        start_upto(rows, rows[y - 1].len() as int, y - 1)
    } else if y < rows.len() && x <= rows[y].len() && rows[y][x - 1] == 'S' {
        x - 1
    } else {
        start_upto(rows, x - 1, y)
    }
}

/// Whether the rows and their lengths are few enough to be counted.
pub open spec fn countable(rows: Seq<Seq<char>>) -> bool {
    rows.len() < i64::MAX && forall|y: int| 0 <= y < rows.len() ==> (#[trigger] rows[y]).len() < i64::MAX
}

/// Reads what `input` shows.
pub fn parse(input: &str) -> (r: Option<Input>)
    ensures
        ({
            let rows = every_other(lines(input@));
            match r {
                Some(parsed) => {
                    &&& countable(rows)
                    &&& parsed.height == rows.len()
                    &&& parsed.width == (if rows.len() > 0 {
                        rows[0].len()
                    } else {
                        0
                    })
                    &&& parsed.start == start_upto(rows, 0, rows.len() as int)
                    &&& parsed.splitters@ == splitters_of(rows)
                },
                None => !countable(rows),
            }
        }),
{
    let text = to_chars(input);
    let all = split_lines(&text);
    let ghost rows = every_other(lines(input@));
    let mut width: i64 = 0;
    let mut height: i64 = 0;
    let mut start: i64 = 0;
    let mut splitters = cells_new();
    let mut h: usize = 0;
    assert(splitters@ =~= splitters_upto(rows, 0, 0));
    while all.len() > 0 && h <= (all.len() - 1) / 2
        invariant
            h == height,
            h <= rows.len(),
            h < i64::MAX,
            rows.len() == (all@.len() + 1) / 2,
            views(all@) == lines(input@),
            rows == every_other(lines(input@)),
            forall|j: int| 0 <= j < height ==> (#[trigger] rows[j]).len() < i64::MAX,
            width == (if height > 0 {
                rows[0].len()
            } else {
                0
            }),
            start == start_upto(rows, 0, height as int),
            splitters@ == splitters_upto(rows, 0, height as int),
        decreases rows.len() - h,
    {
        let line = 2 * h;
        let row = &all[line];
        let y = height;
        assert(views(all@)[line as int] == row@);
        assert(rows[y as int] == row@);
        if row.len() as u128 >= i64::MAX as u128 || y >= i64::MAX - 1 {
            proof {
                if row@.len() < i64::MAX {
                    assert(rows.len() > y);
                }
            }
            return None;
        }
        let mut x: usize = 0;
        while x < row.len()
            invariant
                x <= row@.len(),
                row@.len() < i64::MAX,
                0 <= y < rows.len(),
                y == height,
                row@ == rows[y as int],
                start == start_upto(rows, x as int, y as int),
                splitters@ == splitters_upto(rows, x as int, y as int),
            decreases row.len() - x,
        {
            let ch = row[x];
            if ch == 'S' {
                start = x as i64;
            } else if ch == '^' {
                let ghost before = splitters@;
                cells_insert(&mut splitters, x as i64, y);
                assert(splitters@ =~= splitters_upto(rows, x + 1, y as int)) by {
                    let cell = (x as i64, y);
                    let next = splitters_upto(rows, x + 1, y as int);
                    assert(next.contains(cell));
                    assert forall|p: (i64, i64)| splitters@.contains(p) <==> next.contains(p) by {
                        if p != cell {
                            assert(before.contains(p) == next.contains(p));
                        }
                    }
                }
            }
            if ch != '^' {
                assert(splitters@ =~= splitters_upto(rows, x + 1, y as int));
            }
            x += 1;
        }
        if y == 0 {
            width = row.len() as i64;
        }
        height += 1;
        h += 1;
        assert(splitters@ =~= splitters_upto(rows, 0, height as int));
    }
    assert(height == rows.len());
    assert(splitters@ =~= splitters_of(rows));
    Some(Input { width, height, start, splitters })
}

/// The beams of a row: for each cell, how many beams fall through it, if
/// any.
pub type Beams = Seq<Option<u64>>;

/// What becomes of the beams of a cell when `count` more reach it. Counts
/// stop at the largest 64-bit number.
pub open spec fn spec_add(dest: Option<u64>, count: u64) -> Option<u64> {
    match dest {
        Some(there) => Some(
            if there + count > u64::MAX {
                u64::MAX
            } else {
                (there + count) as u64
            },
        ),
        None => if count == 0 {
            None
        } else {
            Some(count)
        },
    }
}

/// Lets `count` more beams reach the cell `dest`.
pub fn add(dest: &mut Option<u64>, count: u64)
    ensures
        *final(dest) == spec_add(*old(dest), count),
{
    match *dest {
        Some(there) => {
            *dest = Some(there.saturating_add(count));
        },
        None => {
            if count != 0 {
                *dest = Some(count);
            }
        },
    }
}

/// The beams among the first `upto` cells of `beams` that meet a splitter
/// in row `y`, each as its column and the number of beams, from left to
/// right.
pub open spec fn split_beams(splitters: Set<(i64, i64)>, y: i64, beams: Beams, upto: int) -> Seq<(i64, u64)>
    decreases upto,
{
    if upto <= 0 {
        Seq::empty()
    } else {
        let before = split_beams(splitters, y, beams, upto - 1);
        match beams[upto - 1] {
            Some(count) => if splitters.contains(((upto - 1) as i64, y)) {
                before.push(((upto - 1) as i64, count))
            } else {
                before
            },
            None => before,
        }
    }
}

/// Finds the beams that meet a splitter in row `y`.
pub fn with_split_beams(splitters: &Cells, y: i64, beams: &Vec<Option<u64>>) -> (hits: Vec<(i64, u64)>)
    requires
        beams@.len() < i64::MAX,
    ensures
        hits@ == split_beams(splitters@, y, beams@, beams@.len() as int),
        forall|k: int| 0 <= k < hits@.len() ==> 0 <= (#[trigger] hits@[k]).0 < beams@.len(),
{
    let mut hits: Vec<(i64, u64)> = Vec::new();
    let mut x: usize = 0;
    while x < beams.len()
        invariant
            x <= beams@.len(),
            beams@.len() < i64::MAX,
            hits@ == split_beams(splitters@, y, beams@, x as int),
            forall|k: int| 0 <= k < hits@.len() ==> 0 <= (#[trigger] hits@[k]).0 < beams@.len(),
        decreases beams.len() - x,
    {
        if let Some(count) = beams[x] {
            if cells_contains(splitters, x as i64, y) {
                hits.push((x as i64, count));
            }
        }
        x += 1;
    }
    hits
}

/// What becomes of `buffer` when the first `upto` of `hits` are applied:
/// the beams at a splitter end there, and as many go on in the cells to
/// its left and to its right. A splitter at the edge of the row has no
/// cell to one side: then there is no result.
pub open spec fn apply_hits(buffer: Beams, hits: Seq<(i64, u64)>, upto: int) -> Option<Beams>
    decreases upto,
{
    if upto <= 0 {
        Some(buffer)
    } else {
        match apply_hits(buffer, hits, upto - 1) {
            None => None,
            Some(so_far) => {
                let (x, count) = hits[upto - 1];
                if x <= 0 || x + 1 >= so_far.len() {
                    None
                } else {
                    Some(
                        so_far.update(x as int, None).update(x - 1, spec_add(so_far[x - 1], count)).update(
                            x + 1,
                            spec_add(so_far[x + 1], count),
                        ),
                    )
                }
            },
        }
    }
}

proof fn lemma_apply_hits_fails(buffer: Beams, hits: Seq<(i64, u64)>, n: int, upto: int)
    requires
        0 <= n <= upto,
        apply_hits(buffer, hits, n) is None,
    ensures
        apply_hits(buffer, hits, upto) is None,
    decreases upto - n,
{
    if n < upto {
        lemma_apply_hits_fails(buffer, hits, n, upto - 1);
    }
}

/// The beams and the number of splits after the rows up to `upto`, the
/// first left out: in each row the beams that meet a splitter are split.
pub open spec fn fall(splitters: Set<(i64, i64)>, beams: Beams, upto: int) -> Option<(Beams, nat)>
    decreases upto,
{
    if upto <= 1 {
        Some((beams, 0))
    } else {
        match fall(splitters, beams, upto - 1) {
            None => None,
            Some((above, splits)) => {
                let hits = split_beams(splitters, (upto - 1) as i64, above, above.len() as int);
                match apply_hits(above, hits, hits.len() as int) {
                    None => None,
                    Some(below) => Some((below, splits + hits.len())),
                }
            },
        }
    }
}

proof fn lemma_fall_fails(splitters: Set<(i64, i64)>, beams: Beams, n: int, upto: int)
    requires
        0 <= n <= upto,
        fall(splitters, beams, n) is None,
    ensures
        fall(splitters, beams, upto) is None,
    decreases upto - n,
{
    if n < upto {
        lemma_fall_fails(splitters, beams, n, upto - 1);
    }
}

/// The beams of the first row: one beam in the column `start`.
pub open spec fn first_beams(width: int, start: int) -> Beams {
    Seq::new(width as nat, |x: int| if x == start {
        Some(1u64)
    } else {
        None
    })
}

/// Lets the beam fall through the rows of `input`. The result is the beams
/// of the last row and the number of splits, or nothing where the beam
/// starts outside the rows or a splitter that is met stands at the edge.
pub fn simulate(input: &Input) -> (r: Option<(Vec<Option<u64>>, u128)>)
    requires
        0 <= input.width < i64::MAX,
        0 <= input.height < i64::MAX,
        0 <= input.start,
    ensures
        match r {
            Some((beams, splits)) => input.start < input.width && fall(
                input.splitters@,
                first_beams(input.width as int, input.start as int),
                input.height as int,
            ) == Some((beams@, splits as nat)),
            None => input.start >= input.width || fall(
                input.splitters@,
                first_beams(input.width as int, input.start as int),
                input.height as int,
            ) is None,
        },
{
    if input.start >= input.width {
        return None;
    }
    let mut beams: Vec<Option<u64>> = Vec::new();
    let mut x: i64 = 0;
    while x < input.width
        invariant
            0 <= x <= input.width,
            0 <= input.start < input.width,
            beams@.len() == x,
            forall|j: int| 0 <= j < x ==> #[trigger] beams@[j] == first_beams(input.width as int, input.start as int)[j],
        decreases input.width - x,
    {
        beams.push(if x == input.start {
            Some(1)
        } else {
            None
        });
        x += 1;
    }
    let ghost first = first_beams(input.width as int, input.start as int);
    assert(beams@ =~= first);
    let mut splits: u128 = 0;
    let mut y: i64 = 1;
    while y < input.height
        invariant
            1 <= y,
            y <= input.height || input.height <= 1,
            input.height <= 1 ==> y == 1,
            input.height < i64::MAX,
            beams@.len() == input.width,
            input.width < i64::MAX,
            first == first_beams(input.width as int, input.start as int),
            fall(input.splitters@, first, y as int) == Some((beams@, splits as nat)),
            splits <= (y - 1) * input.width,
        decreases input.height - y,
    {
        let hits = with_split_beams(&input.splitters, y, &beams);
        let ghost above = beams@;
        let mut buffer = beams.clone();
        assert(buffer@ =~= above);
        let mut k: usize = 0;
        while k < hits.len()
            invariant
                k <= hits@.len(),
                buffer@.len() == above.len(),
                above.len() == input.width,
                1 <= y < input.height,
                first == first_beams(input.width as int, input.start as int),
                fall(input.splitters@, first, y as int) == Some((above, splits as nat)),
                hits@ == split_beams(input.splitters@, y, above, above.len() as int),
                forall|j: int| 0 <= j < hits@.len() ==> 0 <= (#[trigger] hits@[j]).0 < above.len(),
                apply_hits(above, hits@, k as int) == Some(buffer@),
            decreases hits.len() - k,
        {
            let (x, count) = hits[k];
            if x <= 0 || x + 1 >= buffer.len() as i64 {
                proof {
                    assert(apply_hits(above, hits@, k + 1) is None);
                    lemma_apply_hits_fails(above, hits@, k + 1, hits@.len() as int);
                    assert(fall(input.splitters@, first, y + 1) is None);
                    lemma_fall_fails(input.splitters@, first, y + 1, input.height as int);
                }
                return None;
            }
            let at = x as usize;
            buffer.set(at, None);
            let mut left = buffer[at - 1];
            self::add(&mut left, count);
            buffer.set(at - 1, left);
            let mut right = buffer[at + 1];
            self::add(&mut right, count);
            buffer.set(at + 1, right);
            k += 1;
        }
        proof {
            lemma_hits_len(input.splitters@, y, above, above.len() as int);
            assert((y - 1) * input.width + input.width == y * input.width) by (nonlinear_arith);
            assert(y * input.width <= i64::MAX * i64::MAX) by (nonlinear_arith)
                requires
                    0 <= y < i64::MAX,
                    0 <= input.width < i64::MAX,
            ;
        }
        splits = splits + hits.len() as u128;
        beams = buffer;
        y += 1;
    }
    proof {
        if input.height <= 1 {
            assert(fall(input.splitters@, first, input.height as int) == Some((beams@, 0nat)));
        }
    }
    Some((beams, splits))
}

/// No more beams meet a splitter than there are cells.
proof fn lemma_hits_len(splitters: Set<(i64, i64)>, y: i64, beams: Beams, upto: int)
    requires
        0 <= upto,
    ensures
        split_beams(splitters, y, beams, upto).len() <= upto,
    decreases upto,
{
    if upto > 0 {
        lemma_hits_len(splitters, y, beams, upto - 1);
    }
}

/// What `parse` makes of `text`, as the width, the height, the column of
/// the start and the splitters.
pub open spec fn spec_input(text: Seq<char>) -> (int, int, int, Set<(i64, i64)>) {
    let rows = every_other(lines(text));
    (
        if rows.len() > 0 {
            rows[0].len() as int
        } else {
            0
        },
        rows.len() as int,
        start_upto(rows, 0, rows.len() as int),
        splitters_of(rows),
    )
}

/// What falling through the rows of `text` gives, if anything.
pub open spec fn spec_fall(text: Seq<char>) -> Option<(Beams, nat)> {
    let (width, height, start, splitters) = spec_input(text);
    if !countable(every_other(lines(text))) || start < 0 || start >= width {
        None
    } else {
        fall(splitters, first_beams(width, start), height)
    }
}

/// The numbers of beams in `beams`, zero where there is none.
pub open spec fn beam_counts(beams: Beams) -> Seq<u64> {
    beams.map_values(|cell: Option<u64>| match cell {
        Some(count) => count,
        None => 0,
    })
}

/// The column of the start is never negative.
proof fn lemma_start(rows: Seq<Seq<char>>, x: int, y: int)
    ensures
        start_upto(rows, x, y) >= 0,
    decreases y, x,
{
    if y < 0 || x < 0 || (y == 0 && x == 0) {
    } else if x == 0 {
        lemma_start(rows, rows[y - 1].len() as int, y - 1);
    } else if y < rows.len() && x <= rows[y].len() && rows[y][x - 1] == 'S' {
    } else {
        lemma_start(rows, x - 1, y);
    }
}

/// Counts how often a beam is split.
pub fn a(input: &str) -> (r: Result<u64, PuzzleError>)
    ensures
        r == (match spec_fall(input@) {
            Some((beams, splits)) => if splits > u64::MAX {
                Err::<u64, PuzzleError>(PuzzleError::Overflow)
            } else {
                Ok::<u64, PuzzleError>(splits as u64)
            },
            None => Err::<u64, PuzzleError>(PuzzleError::InvalidInput),
        }),
{
    let parsed = match parse(input) {
        Some(parsed) => parsed,
        None => {
            return Err(PuzzleError::InvalidInput);
        },
    };
    proof {
        let rows = every_other(lines(input@));
        lemma_start(rows, 0, rows.len() as int);
    }
    match simulate(&parsed) {
        Some((beams, splits)) => if splits > u64::MAX as u128 {
            Err(PuzzleError::Overflow)
        } else {
            Ok(splits as u64)
        },
        None => Err(PuzzleError::InvalidInput),
    }
}

/// Counts the ways that a single beam can take through the splitters.
pub fn b(input: &str) -> (r: Result<u64, PuzzleError>)
    ensures
        r == (match spec_fall(input@) {
            Some((beams, splits)) => match sum_upto(beam_counts(beams), beams.len() as int) {
                Some(timelines) => Ok::<u64, PuzzleError>(timelines),
                None => Err::<u64, PuzzleError>(PuzzleError::Overflow),
            },
            None => Err::<u64, PuzzleError>(PuzzleError::InvalidInput),
        }),
{
    let parsed = match parse(input) {
        Some(parsed) => parsed,
        None => {
            return Err(PuzzleError::InvalidInput);
        },
    };
    proof {
        let rows = every_other(lines(input@));
        lemma_start(rows, 0, rows.len() as int);
    }
    let beams = match simulate(&parsed) {
        Some((beams, splits)) => beams,
        None => {
            return Err(PuzzleError::InvalidInput);
        },
    };
    let mut counts: Vec<u64> = Vec::new();
    let mut x: usize = 0;
    while x < beams.len()
        invariant
            x <= beams@.len(),
            counts@.len() == x,
            forall|j: int| 0 <= j < x ==> #[trigger] counts@[j] == beam_counts(beams@)[j],
        decreases beams.len() - x,
    {
        counts.push(match beams[x] {
            Some(count) => count,
            None => 0,
        });
        x += 1;
    }
    assert(counts@ =~= beam_counts(beams@));
    match sum(&counts) {
        Some(timelines) => Ok(timelines),
        None => Err(PuzzleError::Overflow),
    }
}

/// The solvers of both parts.
pub fn solution() -> (solution: Solution)
    ensures
        solution.part_a() is Some,
        solution.part_b() is Some,
{
    Solution::new().with_a(|input: &str| -> (r: Result<u64, String>) { shown(a(input)) }).with_b(
        |input: &str| -> (r: Result<u64, String>) { shown(b(input)) },
    )
}

} // verus!
