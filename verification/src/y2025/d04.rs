//! Day 4: rolls of paper on a floor, taken away where few others are near.
use vstd::prelude::*;
use crate::solution::Solution;
use crate::util::hash::{cells_contains, cells_insert, cells_items, cells_len, cells_new, cells_remove, Cells};
use crate::util::text::{lines, split_lines, to_chars, views};
use crate::y2025::{shown, PuzzleError};

verus! {

/// The largest column or row that a roll may lie in.
pub const EDGE: i64 = 0x3fff_ffff_ffff_ffff;

/// Whether the cell `p` lies within the columns and rows from `-EDGE` to
/// `EDGE`.
pub open spec fn on_floor(p: (i64, i64)) -> bool {
    -EDGE <= p.0 <= EDGE && -EDGE <= p.1 <= EDGE
}

/// The cell that lies `dx` columns and `dy` rows from `p`.
pub open spec fn shifted(p: (i64, i64), dx: int, dy: int) -> (i64, i64) {
    ((p.0 + dx) as i64, (p.1 + dy) as i64)
}

/// The eight cells around `p`, row by row.
pub open spec fn spec_moore_neighborhood(p: (i64, i64)) -> Seq<(i64, i64)> {
    seq![
        shifted(p, -1, -1),
        shifted(p, 0, -1),
        shifted(p, 1, -1),
        shifted(p, -1, 0),
        shifted(p, 1, 0),
        shifted(p, -1, 1),
        shifted(p, 0, 1),
        shifted(p, 1, 1),
    ]
}

/// The eight cells around the cell `(x, y)`, row by row.
pub fn moore_neighborhood(x: i64, y: i64) -> (around: Vec<(i64, i64)>)
    requires
        -EDGE <= x <= EDGE,
        -EDGE <= y <= EDGE,
    ensures
        around@ == spec_moore_neighborhood((x, y)),
{
    let mut around: Vec<(i64, i64)> = Vec::new();
    around.push((x - 1, y - 1));
    around.push((x, y - 1));
    around.push((x + 1, y - 1));
    around.push((x - 1, y));
    around.push((x + 1, y));
    around.push((x - 1, y + 1));
    around.push((x, y + 1));
    around.push((x + 1, y + 1));
    assert(around@ =~= spec_moore_neighborhood((x, y)));
    around
}

/// How many of the first `upto` of `cells` hold a roll.
pub open spec fn rolls_among(rolls: Set<(i64, i64)>, cells: Seq<(i64, i64)>, upto: int) -> nat
    decreases upto,
{
    if upto <= 0 {
        0
    } else {
        rolls_among(rolls, cells, upto - 1) + (if rolls.contains(cells[upto - 1]) {
            1nat
        } else {
            0nat
        })
    }
}

/// How many rolls lie around `p`.
pub open spec fn crowd(rolls: Set<(i64, i64)>, p: (i64, i64)) -> nat {
    rolls_among(rolls, spec_moore_neighborhood(p), 8)
}

/// Whether `p` is a roll that fewer than four rolls lie around.
pub open spec fn accessible(rolls: Set<(i64, i64)>, p: (i64, i64)) -> bool {
    rolls.contains(p) && crowd(rolls, p) < 4
}

/// The rolls that fewer than four rolls lie around.
pub open spec fn accessible_rolls(rolls: Set<(i64, i64)>) -> Set<(i64, i64)> {
    rolls.filter(|p: (i64, i64)| accessible(rolls, p))
}

/// The rolls that `rows` show: the cells that hold an `@`.
pub open spec fn rolls_of(rows: Seq<Seq<char>>) -> Set<(i64, i64)> {
    Set::new(
        |p: (i64, i64)| 0 <= p.1 < rows.len() && 0 <= p.0 < rows[p.1 as int].len() && rows[p.1 as int][p.0 as int] == '@',
    )
}

/// The rolls that the first `y` rows show, with those among the first `x`
/// cells of the row after them.
pub open spec fn rolls_upto(rows: Seq<Seq<char>>, x: int, y: int) -> Set<(i64, i64)> {
    Set::new(
        |p: (i64, i64)|
            0 <= p.1 < rows.len() && 0 <= p.0 < rows[p.1 as int].len() && rows[p.1 as int][p.0 as int] == '@' && (
            p.1 < y || (p.1 == y && p.0 < x)),
    )
}

/// Whether every row and every row's length is within [`EDGE`].
pub open spec fn fits_floor(rows: Seq<Seq<char>>) -> bool {
    rows.len() <= EDGE && forall|y: int| 0 <= y < rows.len() ==> (#[trigger] rows[y]).len() <= EDGE
}

/// Reads the rolls that `input` shows.
pub fn parse(input: &str) -> (r: Option<Cells>)
    ensures
        match r {
            Some(rolls) => fits_floor(lines(input@)) && rolls@ == rolls_of(lines(input@)) && rolls@.finite(),
            None => !fits_floor(lines(input@)),
        },
{
    let text = to_chars(input);
    let rows = split_lines(&text);
    let ghost all = lines(input@);
    if rows.len() as u128 > EDGE as u128 {
        return None;
    }
    let mut rolls = cells_new();
    let mut y: usize = 0;
    assert(rolls@ =~= rolls_upto(all, 0, 0));
    while y < rows.len()
        invariant
            y <= rows@.len(),
            rows@.len() <= EDGE,
            views(rows@) == all,
            all == lines(input@),
            forall|j: int| 0 <= j < y ==> (#[trigger] all[j]).len() <= EDGE,
            rolls@ == rolls_upto(all, 0, y as int),
            rolls@.finite(),
        decreases rows.len() - y,
    {
        let row = &rows[y];
        assert(views(rows@)[y as int] == row@);
        if row.len() as u128 > EDGE as u128 {
            return None;
        }
        let mut x: usize = 0;
        while x < row.len()
            invariant
                x <= row@.len(),
                y < rows@.len(),
                rows@.len() <= EDGE,
                row@.len() <= EDGE,
                views(rows@) == all,
                row@ == all[y as int],
                rolls@ == rolls_upto(all, x as int, y as int),
                rolls@.finite(),
            decreases row.len() - x,
        {
            if row[x] == '@' {
                let ghost before = rolls@;
                cells_insert(&mut rolls, x as i64, y as i64);
                assert(rolls@ =~= rolls_upto(all, x + 1, y as int)) by {
                    let cell = (x as i64, y as i64);
                    let next = rolls_upto(all, x + 1, y as int);
                    assert(rolls@ == before.insert(cell));
                    assert(all[y as int][x as int] == '@');
                    assert(cell.0 == x && cell.1 == y);
                    assert(0 <= cell.1 < all.len() && 0 <= cell.0 < all[cell.1 as int].len());
                    assert(all[cell.1 as int][cell.0 as int] == '@');
                    assert(next.contains(cell));
                    assert forall|p: (i64, i64)| rolls@.contains(p) <==> next.contains(p) by {
                        if p != cell {
                            assert(before.contains(p) == next.contains(p));
                        }
                    }
                }
            } else {
                assert(rolls@ =~= rolls_upto(all, x + 1, y as int));
            }
            x += 1;
        }
        assert(rolls@ =~= rolls_upto(all, 0, y + 1));
        y += 1;
    }
    assert(rolls@ =~= rolls_of(all));
    Some(rolls)
}

/// Whether the rolls lie within the floor, with room around them.
pub open spec fn within_floor(rolls: Set<(i64, i64)>) -> bool {
    forall|p: (i64, i64)| #[trigger] rolls.contains(p) ==> on_floor(p)
}

/// Tells whether `(x, y)`, a roll, has fewer than four rolls around it.
fn is_accessible(rolls: &Cells, x: i64, y: i64) -> (b: bool)
    requires
        on_floor((x, y)),
        rolls@.contains((x, y)),
    ensures
        b == accessible(rolls@, (x, y)),
{
    let around = moore_neighborhood(x, y);
    let mut count: usize = 0;
    let mut k: usize = 0;
    while k < around.len()
        invariant
            k <= around@.len(),
            around@.len() == 8,
            around@ == spec_moore_neighborhood((x, y)),
            count <= k,
            count == rolls_among(rolls@, around@, k as int),
        decreases around.len() - k,
    {
        let cell = around[k];
        if cells_contains(rolls, cell.0, cell.1) {
            count += 1;
        }
        k += 1;
    }
    count < 4
}

/// The accessible rolls among `rolls` that `mask`, where there is one,
/// holds too.
fn find_accessible(rolls: &Cells, mask: Option<&Cells>) -> (found: Vec<(i64, i64)>)
    requires
        within_floor(rolls@),
    ensures
        found@.no_duplicates(),
        forall|p: (i64, i64)|
            found@.contains(p) <==> accessible(rolls@, p) && (mask matches Some(cells) ==> cells@.contains(p)),
{
    let items = cells_items(rolls);
    let mut found: Vec<(i64, i64)> = Vec::new();
    let mut i: usize = 0;
    while i < items.len()
        invariant
            i <= items@.len(),
            items@.no_duplicates(),
            items@.to_set() == rolls@,
            within_floor(rolls@),
            found@.no_duplicates(),
            forall|p: (i64, i64)|
                found@.contains(p) <==> (exists|j: int| 0 <= j < i && items@[j] == p) && accessible(rolls@, p) && (
                mask matches Some(cells) ==> cells@.contains(p)),
        decreases items.len() - i,
    {
        let cell = items[i];
        assert(items@.to_set().contains(cell));
        assert(rolls@.contains(cell));
        let masked = match mask {
            Some(cells) => cells_contains(cells, cell.0, cell.1),
            None => true,
        };
        let ghost before = found@;
        if masked && is_accessible(rolls, cell.0, cell.1) {
            assert(!before.contains(cell)) by {
                if before.contains(cell) {
                    let j = choose|j: int| 0 <= j < i && items@[j] == cell;
                    assert(items@[j] == items@[i as int]);
                }
            }
            found.push(cell);
            assert(found@.no_duplicates()) by {
                assert forall|a: int, b: int| 0 <= a < b < found@.len() implies found@[a] != found@[b] by {
                    if b == before.len() {
                        assert(before.contains(found@[a]));
                    }
                }
            }
            assert forall|p: (i64, i64)|
                found@.contains(p) <==> (exists|j: int| 0 <= j < i + 1 && items@[j] == p) && accessible(
                    rolls@,
                    p,
                ) && (mask matches Some(cells) ==> cells@.contains(p)) by {
                if found@.contains(p) {
                    let k = choose|k: int| 0 <= k < found@.len() && found@[k] == p;
                    if k < before.len() {
                        assert(before.contains(p));
                        let j = choose|j: int| 0 <= j < i && items@[j] == p;
                        assert(0 <= j < i + 1 && items@[j] == p);
                    } else {
                        assert(items@[i as int] == p);
                    }
                }
                if (exists|j: int| 0 <= j < i + 1 && items@[j] == p) && accessible(rolls@, p) && (
                mask matches Some(cells) ==> cells@.contains(p)) {
                    let j = choose|j: int| 0 <= j < i + 1 && items@[j] == p;
                    if j < i {
                        assert(before.contains(p));
                        let k = choose|k: int| 0 <= k < before.len() && before[k] == p;
                        assert(found@[k] == p);
                    } else {
                        assert(found@[before.len() as int] == p);
                    }
                }
            }
        } else {
            assert forall|p: (i64, i64)|
                found@.contains(p) <==> (exists|j: int| 0 <= j < i + 1 && items@[j] == p) && accessible(
                    rolls@,
                    p,
                ) && (mask matches Some(cells) ==> cells@.contains(p)) by {
                if found@.contains(p) {
                    let j = choose|j: int| 0 <= j < i && items@[j] == p;
                    assert(0 <= j < i + 1 && items@[j] == p);
                }
                if (exists|j: int| 0 <= j < i + 1 && items@[j] == p) && accessible(rolls@, p) && (
                mask matches Some(cells) ==> cells@.contains(p)) {
                    let j = choose|j: int| 0 <= j < i + 1 && items@[j] == p;
                    if j == i {
                        assert(p == cell);
                    }
                    assert(exists|j: int| 0 <= j < i && items@[j] == p);
                }
            }
        }
        i += 1;
    }
    proof {
        assert forall|p: (i64, i64)|
            found@.contains(p) <==> accessible(rolls@, p) && (mask matches Some(cells) ==> cells@.contains(
                p,
            )) by {
            if accessible(rolls@, p) {
                assert(items@.to_set().contains(p));
                assert(items@.contains(p));
            }
        }
    }
    found
}

/// The accessible rolls among `rolls`, each once.
pub fn with_accessible_rolls(rolls: &Cells) -> (found: Vec<(i64, i64)>)
    requires
        within_floor(rolls@),
    ensures
        found@.no_duplicates(),
        forall|p: (i64, i64)| found@.contains(p) <==> accessible(rolls@, p),
{
    find_accessible(rolls, None)
}

/// The accessible rolls among `rolls` that `mask` holds too, each once.
pub fn with_accessible_rolls_masked(rolls: &Cells, mask: &Cells) -> (found: Vec<(i64, i64)>)
    requires
        within_floor(rolls@),
    ensures
        found@.no_duplicates(),
        forall|p: (i64, i64)| found@.contains(p) <==> accessible(rolls@, p) && mask@.contains(p),
{
    find_accessible(rolls, Some(mask))
}

/// Rolls that come from a text lie within the floor.
proof fn lemma_rolls_on_floor(rows: Seq<Seq<char>>)
    requires
        fits_floor(rows),
    ensures
        within_floor(rolls_of(rows)),
{
    assert forall|p: (i64, i64)| #[trigger] rolls_of(rows).contains(p) implies on_floor(p) by {
        assert(rows[p.1 as int].len() <= EDGE);
    }
}

/// The answer of part A for `text`: how many rolls have fewer than four
/// rolls around them.
pub open spec fn spec_a(text: Seq<char>) -> Result<u64, PuzzleError> {
    if !fits_floor(lines(text)) {
        Err(PuzzleError::Overflow)
    } else {
        Ok(accessible_rolls(rolls_of(lines(text))).len() as u64)
    }
}

/// Counts the rolls that fewer than four rolls lie around.
pub fn a(input: &str) -> (r: Result<u64, PuzzleError>)
    ensures
        r == spec_a(input@),
{
    let rolls = match parse(input) {
        Some(rolls) => rolls,
        None => {
            return Err(PuzzleError::Overflow);
        },
    };
    proof {
        lemma_rolls_on_floor(lines(input@));
    }
    let found = with_accessible_rolls(&rolls);
    proof {
        assert(found@.to_set() =~= accessible_rolls(rolls@));
        found@.unique_seq_to_set();
    }
    Ok(found.len() as u64)
}

/// What is left of `rolls` when the rolls that fewer than four rolls lie
/// around are taken away, all at once, again and again, until none is left
/// to take.
pub open spec fn peel(rolls: Set<(i64, i64)>) -> Set<(i64, i64)>
    decreases rolls.len(),
    via peel_decreases
{
    let gone = accessible_rolls(rolls);
    if !rolls.finite() || gone.len() == 0 {
        rolls
    } else {
        peel(rolls.difference(gone))
    }
}

#[via_fn]
proof fn peel_decreases(rolls: Set<(i64, i64)>) {
    let gone = accessible_rolls(rolls);
    if rolls.finite() && gone.len() != 0 {
        lemma_take_away(rolls, gone);
    }
}

/// Taking a part that is not empty away from a finite set leaves fewer.
proof fn lemma_take_away(rolls: Set<(i64, i64)>, gone: Set<(i64, i64)>)
    requires
        rolls.finite(),
        gone.subset_of(rolls),
        gone.len() != 0,
    ensures
        rolls.difference(gone).finite(),
        rolls.difference(gone).len() < rolls.len(),
        gone.finite(),
{
    vstd::set_lib::lemma_len_subset(gone, rolls);
    assert(gone.finite()) by {
        vstd::set_lib::lemma_set_subset_finite(rolls, gone);
    }
    vstd::set_lib::lemma_set_difference_len(rolls, gone);
    assert(rolls.intersect(gone) =~= gone);
}

/// The answer of part B for `text`: how many rolls are taken away in all.
pub open spec fn spec_b(text: Seq<char>) -> Result<u64, PuzzleError> {
    if !fits_floor(lines(text)) {
        Err(PuzzleError::Overflow)
    } else {
        Ok((rolls_of(lines(text)).len() - peel(rolls_of(lines(text))).len()) as u64)
    }
}

/// Where fewer rolls lie around `p` among `fewer` than among `more`, one
/// of the cells around `p` holds a roll of `more` that `fewer` lacks.
proof fn lemma_crowd_drops(more: Set<(i64, i64)>, fewer: Set<(i64, i64)>, cells: Seq<(i64, i64)>, upto: int) -> (k:
    int)
    requires
        0 <= upto <= cells.len(),
        rolls_among(fewer, cells, upto) < rolls_among(more, cells, upto),
    ensures
        0 <= k < upto,
        more.contains(cells[k]),
        !fewer.contains(cells[k]),
    decreases upto,
{
    if more.contains(cells[upto - 1]) && !fewer.contains(cells[upto - 1]) {
        upto - 1
    } else {
        lemma_crowd_drops(more, fewer, cells, upto - 1)
    }
}

/// The cell that `p` is a neighbour of lies, seen from that neighbour, at
/// the opposite place.
proof fn lemma_opposite(p: (i64, i64), k: int)
    requires
        on_floor(p),
        0 <= k < 8,
    ensures
        spec_moore_neighborhood(spec_moore_neighborhood(p)[k])[7 - k] == p,
{
}

/// Whether `q` is one of the first `upto` of `cells`.
pub open spec fn among(cells: Seq<(i64, i64)>, upto: int, q: (i64, i64)) -> bool {
    exists|m: int| 0 <= m < upto && #[trigger] cells[m] == q
}

/// Whether `q` lies around one of the first `upto` of `cells`.
pub open spec fn near_any(cells: Seq<(i64, i64)>, upto: int, q: (i64, i64)) -> bool {
    exists|j: int, k: int| 0 <= j < upto && 0 <= k < 8 && #[trigger] spec_moore_neighborhood(cells[j])[k] == q
}

/// Counts the rolls that are taken away when the rolls with fewer than
/// four rolls around them are removed again and again.
pub fn b(input: &str) -> (r: Result<u64, PuzzleError>)
    ensures
        r == spec_b(input@),
{
    let mut rolls = match parse(input) {
        Some(rolls) => rolls,
        None => {
            return Err(PuzzleError::Overflow);
        },
    };
    let ghost first = rolls@;
    proof {
        lemma_rolls_on_floor(lines(input@));
    }
    let initial = cells_len(&rolls);
    let mut removed = with_accessible_rolls(&rolls);
    proof {
        assert(removed@.to_set() =~= accessible_rolls(rolls@));
        removed@.unique_seq_to_set();
    }
    while removed.len() != 0
        invariant
            rolls@.finite(),
            rolls@.subset_of(first),
            within_floor(first),
            first.finite(),
            peel(rolls@) == peel(first),
            removed@.no_duplicates(),
            removed@.to_set() == accessible_rolls(rolls@),
            removed@.len() == accessible_rolls(rolls@).len(),
        decreases rolls@.len(),
    {
        let ghost start = rolls@;
        let ghost gone = accessible_rolls(start);
        let mut dirty = cells_new();
        let mut i: usize = 0;
        assert(start.difference(removed@.take(0).to_set()) =~= start);
        while i < removed.len()
            invariant
                i <= removed@.len(),
                start.finite(),
                within_floor(start),
                removed@.to_set() == gone,
                gone == accessible_rolls(start),
                rolls@ == start.difference(removed@.take(i as int).to_set()),
                forall|q: (i64, i64)| #[trigger] dirty@.contains(q) <==> near_any(removed@, i as int, q),
            decreases removed.len() - i,
        {
            let roll = removed[i];
            assert(removed@.to_set().contains(roll));
            assert(start.contains(roll));
            let around = moore_neighborhood(roll.0, roll.1);
            let ghost before = dirty@;
            let mut k: usize = 0;
            while k < around.len()
                invariant
                    k <= around@.len(),
                    around@.len() == 8,
                    i < removed@.len(),
                    around@ == spec_moore_neighborhood(removed@[i as int]),
                    forall|q: (i64, i64)|
                        #[trigger] dirty@.contains(q) <==> before.contains(q) || among(around@, k as int, q),
                decreases around.len() - k,
            {
                let cell = around[k];
                let ghost so_far = dirty@;
                cells_insert(&mut dirty, cell.0, cell.1);
                proof {
                    assert forall|q: (i64, i64)|
                        #[trigger] dirty@.contains(q) <==> before.contains(q) || among(
                            around@,
                            k + 1,
                            q,
                        ) by {
                        if dirty@.contains(q) {
                            if q == cell {
                                assert(around@[k as int] == q);
                            } else {
                                assert(so_far.contains(q));
                                if !before.contains(q) {
                                    assert(among(around@, k as int, q));
                                    let m = choose|m: int| 0 <= m < k && #[trigger] around@[m] == q;
                                    assert(0 <= m < k + 1 && around@[m] == q);
                                }
                            }
                        }
                        if among(around@, k + 1, q) {
                            let m = choose|m: int| 0 <= m < k + 1 && #[trigger] around@[m] == q;
                            if m < k {
                                assert(among(around@, k as int, q));
                                assert(so_far.contains(q));
                            }
                        }
                        if before.contains(q) {
                            assert(so_far.contains(q));
                        }
                    }
                }
                k += 1;
            }
            cells_remove(&mut rolls, roll.0, roll.1);
            proof {
                assert(removed@.take(i + 1) =~= removed@.take(i as int).push(roll));
                removed@.take(i as int).lemma_push_to_set_commute(roll);
                assert(rolls@ =~= start.difference(removed@.take(i + 1).to_set()));
                assert forall|q: (i64, i64)| #[trigger] dirty@.contains(q) <==> near_any(removed@, i + 1, q) by {
                    if dirty@.contains(q) {
                        assert(before.contains(q) || among(around@, 8, q));
                        if before.contains(q) {
                            assert(near_any(removed@, i as int, q));
                            let (j, m) = choose|j: int, m: int|
                                0 <= j < i && 0 <= m < 8 && #[trigger] spec_moore_neighborhood(removed@[j])[m]
                                    == q;
                            assert(0 <= j < i + 1 && spec_moore_neighborhood(removed@[j])[m] == q);
                        } else {
                            let m = choose|m: int| 0 <= m < 8 && #[trigger] around@[m] == q;
                            assert(spec_moore_neighborhood(removed@[i as int])[m] == q);
                        }
                    }
                    if near_any(removed@, i + 1, q) {
                        let (j, m) = choose|j: int, m: int|
                            0 <= j < i + 1 && 0 <= m < 8 && #[trigger] spec_moore_neighborhood(removed@[j])[m] == q;
                        if j < i {
                            assert(near_any(removed@, i as int, q));
                            assert(before.contains(q));
                        } else {
                            assert(around@[m] == q);
                            assert(among(around@, 8, q));
                        }
                    }
                }
            }
            i += 1;
        }
        proof {
            assert(removed@.take(i as int) =~= removed@);
            assert(rolls@ == start.difference(gone));
            assert(gone.subset_of(start));
            assert(gone.len() != 0);
            lemma_take_away(start, gone);
            assert(within_floor(rolls@));
        }
        let ghost swept = removed@;
        removed = with_accessible_rolls_masked(&rolls, &dirty);
        proof {
            let left = rolls@;
            assert forall|p: (i64, i64)| removed@.contains(p) <==> accessible(left, p) by {
                if accessible(left, p) {
                    assert(start.contains(p) && !gone.contains(p));
                    assert(!accessible(start, p));
                    let k = lemma_crowd_drops(start, left, spec_moore_neighborhood(p), 8);
                    let q = spec_moore_neighborhood(p)[k];
                    assert(gone.contains(q));
                    assert(swept.to_set().contains(q));
                    let j = choose|j: int| 0 <= j < swept.len() && swept[j] == q;
                    assert(on_floor(p));
                    lemma_opposite(p, k);
                    assert(spec_moore_neighborhood(swept[j])[7 - k] == p);
                    assert(near_any(swept, swept.len() as int, p));
                    assert(dirty@.contains(p));
                }
            }
            assert(removed@.to_set() =~= accessible_rolls(left));
            removed@.unique_seq_to_set();
        }
    }
    let remaining = cells_len(&rolls);
    proof {
        assert(peel(rolls@) == rolls@);
        vstd::set_lib::lemma_len_subset(rolls@, first);
    }
    Ok((initial - remaining) as u64)
}

/// The solvers of both parts.
pub fn solution() -> (solution: Solution)
    ensures
        solution.part_a() is Some,
        solution.part_b() is Some,
{
    Solution::new().with_a(|input: &str| -> (r: Result<u64, String>) { shown(a(input)) }).with_b(
        |input: &str| -> (r: Result<u64, String>) { shown(b(input)) },
    )
}

} // verus!
