//! Sets of cells of a plane, hashed with `foldhash`.
use vstd::prelude::*;
use crate::util::text::views;

verus! {

#[verifier::external_type_specification]
#[verifier::external_body]
pub struct ExRandomState(foldhash::fast::RandomState);

/// A set of cells, each given by its column and its row.
pub type Cells = foldhash::HashSet<(i64, i64)>;

/// No cells at all.
pub open spec fn no_cells() -> Set<(i64, i64)> {
    Set::empty()
}

/// A set without cells. This is `Default::default` of `foldhash::HashSet`,
/// a `std::collections::HashSet` with the hasher of `foldhash`: the new
/// set holds nothing.
#[verifier::external_body]
pub(crate) fn cells_new() -> (made: Cells)
    ensures
        made@ == no_cells(),
{
    foldhash::HashSet::default()
}

/// Adds the cell `(x, y)`. This is `HashSet::insert`: afterwards the set
/// holds the cell and what it held, and the result tells whether the cell
/// is new.
#[verifier::external_body]
pub(crate) fn cells_insert(cells: &mut Cells, x: i64, y: i64) -> (added: bool)
    ensures
        final(cells)@ == old(cells)@.insert((x, y)),
        added == !old(cells)@.contains((x, y)),
{
    cells.insert((x, y))
}

/// Tells whether the set holds the cell `(x, y)`. This is
/// `HashSet::contains`.
#[verifier::external_body]
pub(crate) fn cells_contains(cells: &Cells, x: i64, y: i64) -> (found: bool)
    ensures
        found == cells@.contains((x, y)),
{
    cells.contains(&(x, y))
}

/// Takes the cell `(x, y)` out. This is `HashSet::remove`: afterwards the
/// set holds what it held but the cell, and the result tells whether it
/// held the cell.
#[verifier::external_body]
pub(crate) fn cells_remove(cells: &mut Cells, x: i64, y: i64) -> (removed: bool)
    ensures
        final(cells)@ == old(cells)@.remove((x, y)),
        removed == old(cells)@.contains((x, y)),
{
    cells.remove(&(x, y))
}

/// How many cells the set holds. This is `HashSet::len`.
#[verifier::external_body]
pub(crate) fn cells_len(cells: &Cells) -> (n: usize)
    ensures
        n == cells@.len(),
{
    cells.len()
}

/// The cells of the set. This is `HashSet::iter`, which visits every
/// element once, in an order that is left open.
#[verifier::external_body]
pub(crate) fn cells_items(cells: &Cells) -> (items: Vec<(i64, i64)>)
    ensures
        items@.no_duplicates(),
        items@.to_set() == cells@,
{
    cells.iter().copied().collect()
}

/// The cells of `rows` that hold the character `mark`, each as its column
/// and its row.
pub open spec fn marked_cells(rows: Seq<Seq<char>>, mark: char) -> Set<(i64, i64)> {
    Set::new(
        |p: (i64, i64)| 0 <= p.1 < rows.len() && 0 <= p.0 < rows[p.1 as int].len() && rows[p.1 as int][p.0 as int] == mark,
    )
}

/// The cells that hold `mark` in the first `y` rows, with those among the
/// first `x` cells of the row after them.
pub open spec fn marked_upto(rows: Seq<Seq<char>>, mark: char, x: int, y: int) -> Set<(i64, i64)> {
    Set::new(
        |p: (i64, i64)|
            0 <= p.1 < rows.len() && 0 <= p.0 < rows[p.1 as int].len() && rows[p.1 as int][p.0 as int] == mark && (
            p.1 < y || (p.1 == y && p.0 < x)),
    )
}

/// Whether the rows and the cells of each row are few enough to be
/// numbered.
pub open spec fn numbered(rows: Seq<Seq<char>>) -> bool {
    rows.len() < i64::MAX && forall|y: int| 0 <= y < rows.len() ==> (#[trigger] rows[y]).len() < i64::MAX
}

/// Collects the cells of `rows` that hold `mark`.
pub fn find_cells(rows: &Vec<Vec<char>>, mark: char) -> (r: Option<Cells>)
    ensures
        match r {
            Some(cells) => numbered(views(rows@)) && cells@ == marked_cells(views(rows@), mark) && cells@.finite(),
            None => !numbered(views(rows@)),
        },
{
    let ghost all = views(rows@);
    if rows.len() as u128 >= i64::MAX as u128 {
        return None;
    }
    let mut cells = cells_new();
    let mut y: usize = 0;
    assert(cells@ =~= marked_upto(all, mark, 0, 0));
    while y < rows.len()
        invariant
            y <= rows@.len(),
            rows@.len() < i64::MAX,
            views(rows@) == all,
            forall|j: int| 0 <= j < y ==> (#[trigger] all[j]).len() < i64::MAX,
            cells@ == marked_upto(all, mark, 0, y as int),
            cells@.finite(),
        decreases rows.len() - y,
    {
        let row = &rows[y];
        assert(all[y as int] == row@);
        if row.len() as u128 >= i64::MAX as u128 {
            return None;
        }
        let mut x: usize = 0;
        while x < row.len()
            invariant
                x <= row@.len(),
                y < rows@.len(),
                rows@.len() < i64::MAX,
                row@.len() < i64::MAX,
                views(rows@) == all,
                row@ == all[y as int],
                cells@ == marked_upto(all, mark, x as int, y as int),
                cells@.finite(),
            decreases row.len() - x,
        {
            if row[x] == mark {
                let ghost before = cells@;
                cells_insert(&mut cells, x as i64, y as i64);
                assert(cells@ =~= marked_upto(all, mark, x + 1, y as int)) by {
                    let cell = (x as i64, y as i64);
                    let next = marked_upto(all, mark, x + 1, y as int);
                    assert(cells@ == before.insert(cell));
                    assert(cell.0 == x && cell.1 == y);
                    assert(next.contains(cell));
                    assert forall|p: (i64, i64)| cells@.contains(p) <==> next.contains(p) by {
                        if p != cell {
                            assert(before.contains(p) == next.contains(p));
                        }
                    }
                }
            } else {
                assert(cells@ =~= marked_upto(all, mark, x + 1, y as int));
            }
            x += 1;
        }
        assert(cells@ =~= marked_upto(all, mark, 0, y + 1));
        y += 1;
    }
    assert(cells@ =~= marked_cells(all, mark));
    Some(cells)
}

} // verus!
