//! Day 9: red tiles on a floor, and the largest rectangle between two of
//! them.
use vstd::prelude::*;
use crate::solution::Solution;
use crate::util::min_max;
use crate::util::order::{comparable, lemma_order_i64, lt_holds};
use crate::util::parse::{parse_signed, parse_signed_chars};
use crate::util::text::{copy_range, find_char, index_of, lines, split_lines, to_chars, views};
use crate::util::vector::{index_pairs, index_windows, lists_pair, vec2, IVec2};
use crate::y2025::{collect, lemma_collect_fails, shown, PuzzleError};

verus! {

/// The largest coordinate, to either side, that a tile may have for the
/// sizes and areas between tiles to be worked out.
pub const REACH: i64 = 0x2000_0000_0000_0000;

/// Whether both coordinates of `point` are within [`REACH`].
pub open spec fn within_reach(point: IVec2) -> bool {
    -REACH <= point.x <= REACH && -REACH <= point.y <= REACH
}

/// The tile that `line` writes: two numbers with a comma between.
pub open spec fn spec_parse_point(line: Seq<char>) -> Result<IVec2, PuzzleError> {
    let at = index_of(line, ',');
    if at >= line.len() {
        Err(PuzzleError::InvalidInput)
    } else {
        match (
            parse_signed(line.take(at), i64::MIN as int, i64::MAX as int),
            parse_signed(line.skip(at + 1), i64::MIN as int, i64::MAX as int),
        ) {
            (Some(x), Some(y)) => Ok(IVec2 { x: x as i64, y: y as i64 }),
            _ => Err(PuzzleError::InvalidNumber),
        }
    }
}

/// [`spec_parse_point`] as a value.
pub open spec fn point_reader() -> spec_fn(Seq<char>) -> Result<IVec2, PuzzleError> {
    |line: Seq<char>| spec_parse_point(line)
}

/// The tiles that the lines of `text` write.
pub open spec fn spec_parse(text: Seq<char>) -> Result<Seq<IVec2>, PuzzleError> {
    collect(lines(text), point_reader())
}

fn parse_point(line: &Vec<char>) -> (r: Result<IVec2, PuzzleError>)
    ensures
        r == spec_parse_point(line@),
{
    let at = find_char(line, ',');
    if at >= line.len() {
        return Err(PuzzleError::InvalidInput);
    }
    let left = copy_range(line, 0, at);
    let right = copy_range(line, at + 1, line.len());
    assert(left@ =~= line@.take(at as int));
    assert(right@ =~= line@.skip(at + 1));
    match (parse_signed_chars(&left, i64::MIN, i64::MAX), parse_signed_chars(&right, i64::MIN, i64::MAX)) {
        (Some(x), Some(y)) => Ok(vec2(x, y)),
        _ => Err(PuzzleError::InvalidNumber),
    }
}

/// Reads the tiles that the lines of `input` write.
pub fn parse(input: &str) -> (r: Result<Vec<IVec2>, PuzzleError>)
    ensures
        match r {
            Ok(points) => spec_parse(input@) == Ok::<Seq<IVec2>, PuzzleError>(points@),
            Err(error) => spec_parse(input@) == Err::<Seq<IVec2>, PuzzleError>(error),
        },
{
    let text = to_chars(input);
    let rows = split_lines(&text);
    let ghost all = lines(input@);
    let ghost read = point_reader();
    let mut points: Vec<IVec2> = Vec::new();
    let mut i: usize = 0;
    assert(all.take(0) =~= Seq::<Seq<char>>::empty());
    while i < rows.len()
        invariant
            i <= rows@.len(),
            views(rows@) == all,
            all == lines(input@),
            read == point_reader(),
            collect(all.take(i as int), read) == Ok::<Seq<IVec2>, PuzzleError>(points@),
        decreases rows.len() - i,
    {
        proof {
            assert(all.take(i + 1).drop_last() =~= all.take(i as int));
            assert(all.take(i + 1).last() == rows@[i as int]@);
        }
        match parse_point(&rows[i]) {
            Ok(point) => {
                points.push(point);
            },
            Err(error) => {
                proof {
                    lemma_collect_fails(all, read, i + 1);
                }
                return Err(error);
            },
        }
        i += 1;
    }
    assert(all.take(i as int) =~= all);
    Ok(points)
}

/// A rectangle of tiles: the tile of its least coordinates, and how many
/// tiles it is wide and high.
#[derive(Debug, Clone, Copy, PartialEq, Eq, Structural)]
pub struct Rect {
    pub position: IVec2,
    pub size: IVec2,
}

/// The lesser of two numbers.
pub open spec fn lesser(a: int, b: int) -> int {
    if b < a {
        b
    } else {
        a
    }
}

/// The distance between two numbers.
pub open spec fn span(a: int, b: int) -> int {
    if b < a {
        a - b
    } else {
        b - a
    }
}

impl Rect {
    /// The rectangle that has `a` and `b` as opposite corners.
    pub open spec fn spec_new(a: IVec2, b: IVec2) -> Rect {
        Rect {
            position: IVec2 { x: lesser(a.x as int, b.x as int) as i64, y: lesser(a.y as int, b.y as int) as i64 },
            size: IVec2 {
                x: (span(a.x as int, b.x as int) + 1) as i64,
                y: (span(a.y as int, b.y as int) + 1) as i64,
            },
        }
    }

    /// The rectangle that has `a` and `b` as opposite corners.
    pub fn new(a: IVec2, b: IVec2) -> (rect: Rect)
        requires
            within_reach(a),
            within_reach(b),
        ensures
            rect == Rect::spec_new(a, b),
            rect.size.x >= 1,
            rect.size.y >= 1,
    {
        proof {
            lemma_order_i64();
        }
        let (ax, bx) = min_max(a.x, b.x);
        let (ay, by) = min_max(a.y, b.y);
        Rect { position: vec2(ax, ay), size: vec2(bx - ax + 1, by - ay + 1) }
    }

    /// How many tiles the rectangle holds.
    pub open spec fn spec_area(&self) -> int {
        self.size.x * self.size.y
    }

    /// How many tiles the rectangle holds.
    pub fn area(&self) -> (area: i128)
        requires
            0 <= self.size.x <= 2 * REACH + 1,
            0 <= self.size.y <= 2 * REACH + 1,
        ensures
            area == self.spec_area(),
    {
        assert(0 <= self.size.x * self.size.y <= 0x4000_0000_0000_0001 * 0x4000_0000_0000_0001)
            by (nonlinear_arith)
            requires
                0 <= self.size.x <= 0x4000_0000_0000_0001,
                0 <= self.size.y <= 0x4000_0000_0000_0001,
        ;
        assert(0x4000_0000_0000_0001 * 0x4000_0000_0000_0001 == 0x1000_0000_0000_0000_8000_0000_0000_0001);
        self.size.x as i128 * self.size.y as i128
    }

    /// The rectangle without its outermost tiles, if any are left.
    pub open spec fn spec_interior(&self) -> Option<Rect> {
        if self.size.x <= 1 || self.size.y <= 1 {
            None
        } else {
            Some(
                Rect {
                    position: IVec2 { x: (self.position.x + 1) as i64, y: (self.position.y + 1) as i64 },
                    size: IVec2 { x: (self.size.x - 2) as i64, y: (self.size.y - 2) as i64 },
                },
            )
        }
    }

    /// The rectangle without its outermost tiles, if any are left.
    pub fn interior(&self) -> (inner: Option<Rect>)
        requires
            self.position.x < i64::MAX,
            self.position.y < i64::MAX,
        ensures
            inner == self.spec_interior(),
    {
        if self.size.x <= 1 || self.size.y <= 1 {
            None
        } else {
            Some(
                Rect {
                    position: vec2(self.position.x + 1, self.position.y + 1),
                    size: vec2(self.size.x - 2, self.size.y - 2),
                },
            )
        }
    }
}

/// A straight line of tiles along a row or a column: the row or column it
/// lies in, and the range it covers there.
#[derive(Debug, Clone, Copy, PartialEq, Eq, Structural)]
pub struct Segment {
    pub at: i64,
    pub low: i64,
    pub high: i64,
}

impl Segment {
    /// Whether the segment passes through the area that reaches from
    /// `across.0` up to `across.1`, the latter left out, across the
    /// segment's direction, and from `along.0` to `along.1` along it.
    pub open spec fn crosses(&self, across: (int, int), along: (int, int)) -> bool {
        across.0 <= self.at < across.1 && along.0 < self.high && self.low < along.1
    }
}

/// The lines between the tiles of a closed path, by direction.
pub struct Segments {
    pub horizontal: Vec<Segment>,
    pub vertical: Vec<Segment>,
}

/// The tile that follows tile `i` on the closed path of `n` tiles.
pub open spec fn after(i: int, n: int) -> int {
    if i + 1 == n {
        0
    } else {
        i + 1
    }
}

/// The segment from the tile `a` to the tile `b`, which share a row.
pub open spec fn along_row(a: IVec2, b: IVec2) -> Segment {
    Segment { at: a.y, low: lesser(a.x as int, b.x as int) as i64, high: (lesser(a.x as int, b.x as int) + span(
        a.x as int,
        b.x as int,
    )) as i64 }
}

/// The segment from the tile `a` to the tile `b`, which share a column.
pub open spec fn along_column(a: IVec2, b: IVec2) -> Segment {
    Segment { at: a.x, low: lesser(a.y as int, b.y as int) as i64, high: (lesser(a.y as int, b.y as int) + span(
        a.y as int,
        b.y as int,
    )) as i64 }
}

/// Whether two tiles that follow each other on the path of `points` share
/// neither row nor column.
pub open spec fn has_diagonal(points: Seq<IVec2>) -> bool {
    exists|i: int|
        0 <= i < points.len() && (#[trigger] points[i]).y != points[after(i, points.len() as int)].y
            && points[i].x != points[after(i, points.len() as int)].x
}

/// The area that `rect` covers, as a range of columns and a range of rows,
/// each with its end left out.
pub open spec fn x_range(rect: Rect) -> (int, int) {
    (rect.position.x as int, rect.position.x + rect.size.x)
}

/// See [`x_range`].
pub open spec fn y_range(rect: Rect) -> (int, int) {
    (rect.position.y as int, rect.position.y + rect.size.y)
}

/// Whether a line of the closed path of `points` passes through `rect`.
pub open spec fn crossed(points: Seq<IVec2>, rect: Rect) -> bool {
    exists|i: int|
        0 <= i < points.len() && {
            let a = #[trigger] points[i];
            let b = points[after(i, points.len() as int)];
            if a.y == b.y {
                along_row(a, b).crosses(y_range(rect), x_range(rect))
            } else {
                a.x == b.x && along_column(a, b).crosses(x_range(rect), y_range(rect))
            }
        }
}

/// The lines along rows between the first `upto` tiles of the closed path
/// of `points` and the tiles that follow them, in the order of the path.
pub open spec fn row_segments(points: Seq<IVec2>, upto: int) -> Seq<Segment>
    decreases upto,
{
    if upto <= 0 {
        Seq::empty()
    } else {
        let before = row_segments(points, upto - 1);
        let a = points[upto - 1];
        let b = points[after(upto - 1, points.len() as int)];
        if a.y == b.y {
            before.push(along_row(a, b))
        } else {
            before
        }
    }
}

/// The lines along columns between the first `upto` tiles of the closed
/// path of `points` and the tiles that follow them, in the order of the
/// path.
pub open spec fn column_segments(points: Seq<IVec2>, upto: int) -> Seq<Segment>
    decreases upto,
{
    if upto <= 0 {
        Seq::empty()
    } else {
        let before = column_segments(points, upto - 1);
        let a = points[upto - 1];
        let b = points[after(upto - 1, points.len() as int)];
        if a.y != b.y {
            before.push(along_column(a, b))
        } else {
            before
        }
    }
}

/// Whether a line along a row, from one of the first `upto` tiles, passes
/// through the area given.
pub open spec fn row_crossed(points: Seq<IVec2>, upto: int, across: (int, int), along: (int, int)) -> bool {
    exists|i: int|
        0 <= i < upto && (#[trigger] points[i]).y == points[after(i, points.len() as int)].y && along_row(
            points[i],
            points[after(i, points.len() as int)],
        ).crosses(across, along)
}

/// Whether a line along a column, from one of the first `upto` tiles,
/// passes through the area given.
pub open spec fn column_crossed(points: Seq<IVec2>, upto: int, across: (int, int), along: (int, int)) -> bool {
    exists|i: int|
        0 <= i < upto && (#[trigger] points[i]).y != points[after(i, points.len() as int)].y && along_column(
            points[i],
            points[after(i, points.len() as int)],
        ).crosses(across, along)
}

proof fn lemma_row_segments(points: Seq<IVec2>, upto: int, across: (int, int), along: (int, int))
    requires
        0 <= upto <= points.len(),
    ensures
        any_crosses(row_segments(points, upto), across, along) == row_crossed(points, upto, across, along),
    decreases upto,
{
    let n = points.len() as int;
    if upto > 0 {
        lemma_row_segments(points, upto - 1, across, along);
        let before = row_segments(points, upto - 1);
        let now = row_segments(points, upto);
        let a = points[upto - 1];
        let b = points[after(upto - 1, n)];
        if any_crosses(now, across, along) {
            let k = choose|k: int| 0 <= k < now.len() && (#[trigger] now[k]).crosses(across, along);
            if k < before.len() {
                assert(before[k].crosses(across, along));
                assert(row_crossed(points, upto - 1, across, along));
                let i = choose|i: int|
                    0 <= i < upto - 1 && (#[trigger] points[i]).y == points[after(i, n)].y && along_row(
                        points[i],
                        points[after(i, n)],
                    ).crosses(across, along);
                assert(points[i].y == points[after(i, n)].y);
            } else {
                assert(a.y == b.y && along_row(a, b).crosses(across, along));
            }
            assert(row_crossed(points, upto, across, along));
        }
        if row_crossed(points, upto, across, along) {
            let i = choose|i: int|
                0 <= i < upto && (#[trigger] points[i]).y == points[after(i, n)].y && along_row(
                    points[i],
                    points[after(i, n)],
                ).crosses(across, along);
            if i < upto - 1 {
                assert(points[i].y == points[after(i, n)].y);
                assert(row_crossed(points, upto - 1, across, along));
                let k = choose|k: int| 0 <= k < before.len() && (#[trigger] before[k]).crosses(across, along);
                assert(now[k].crosses(across, along));
            } else {
                assert(now[now.len() - 1].crosses(across, along));
            }
        }
    }
}

proof fn lemma_column_segments(points: Seq<IVec2>, upto: int, across: (int, int), along: (int, int))
    requires
        0 <= upto <= points.len(),
    ensures
        any_crosses(column_segments(points, upto), across, along) == column_crossed(points, upto, across, along),
    decreases upto,
{
    let n = points.len() as int;
    if upto > 0 {
        lemma_column_segments(points, upto - 1, across, along);
        let before = column_segments(points, upto - 1);
        let now = column_segments(points, upto);
        let a = points[upto - 1];
        let b = points[after(upto - 1, n)];
        if any_crosses(now, across, along) {
            let k = choose|k: int| 0 <= k < now.len() && (#[trigger] now[k]).crosses(across, along);
            if k < before.len() {
                assert(before[k].crosses(across, along));
                assert(column_crossed(points, upto - 1, across, along));
                let i = choose|i: int|
                    0 <= i < upto - 1 && (#[trigger] points[i]).y != points[after(i, n)].y && along_column(
                        points[i],
                        points[after(i, n)],
                    ).crosses(across, along);
                assert(points[i].y != points[after(i, n)].y);
            } else {
                assert(a.y != b.y && along_column(a, b).crosses(across, along));
            }
            assert(column_crossed(points, upto, across, along));
        }
        if column_crossed(points, upto, across, along) {
            let i = choose|i: int|
                0 <= i < upto && (#[trigger] points[i]).y != points[after(i, n)].y && along_column(
                    points[i],
                    points[after(i, n)],
                ).crosses(across, along);
            if i < upto - 1 {
                assert(points[i].y != points[after(i, n)].y);
                assert(column_crossed(points, upto - 1, across, along));
                let k = choose|k: int| 0 <= k < before.len() && (#[trigger] before[k]).crosses(across, along);
                assert(now[k].crosses(across, along));
            } else {
                assert(now[now.len() - 1].crosses(across, along));
            }
        }
    }
}

/// Whether one of `segments` passes through the area given.
pub open spec fn any_crosses(segments: Seq<Segment>, across: (int, int), along: (int, int)) -> bool {
    exists|k: int| 0 <= k < segments.len() && (#[trigger] segments[k]).crosses(across, along)
}

impl Segments {
    /// Whether one of the lines passes through `rect`.
    pub open spec fn spec_overlaps(&self, rect: Rect) -> bool {
        any_crosses(self.horizontal@, y_range(rect), x_range(rect)) || any_crosses(
            self.vertical@,
            x_range(rect),
            y_range(rect),
        )
    }

    /// Whether the lines are those of the closed path of `points`.
    pub open spec fn of_loop(&self, points: Seq<IVec2>) -> bool {
        &&& self.horizontal@ == row_segments(points, points.len() as int)
        &&& self.vertical@ == column_segments(points, points.len() as int)
    }

    /// What the lines of a path pass through is what its tiles say.
    pub proof fn lemma_of_loop(&self, points: Seq<IVec2>, rect: Rect)
        requires
            self.of_loop(points),
            !has_diagonal(points),
        ensures
            self.spec_overlaps(rect) == crossed(points, rect),
    {
        let n = points.len() as int;
        lemma_row_segments(points, n, y_range(rect), x_range(rect));
        lemma_column_segments(points, n, x_range(rect), y_range(rect));
        if crossed(points, rect) {
            let i = choose|i: int|
                0 <= i < points.len() && {
                    let a = #[trigger] points[i];
                    let b = points[after(i, points.len() as int)];
                    if a.y == b.y {
                        along_row(a, b).crosses(y_range(rect), x_range(rect))
                    } else {
                        a.x == b.x && along_column(a, b).crosses(x_range(rect), y_range(rect))
                    }
                };
            if points[i].y == points[after(i, n)].y {
                assert(row_crossed(points, n, y_range(rect), x_range(rect)));
            } else {
                assert(column_crossed(points, n, x_range(rect), y_range(rect)));
            }
        }
        if row_crossed(points, n, y_range(rect), x_range(rect)) {
            let i = choose|i: int|
                0 <= i < n && (#[trigger] points[i]).y == points[after(i, n)].y && along_row(
                    points[i],
                    points[after(i, n)],
                ).crosses(y_range(rect), x_range(rect));
            assert(points[i].y == points[after(i, n)].y);
        }
        if column_crossed(points, n, x_range(rect), y_range(rect)) {
            let i = choose|i: int|
                0 <= i < n && (#[trigger] points[i]).y != points[after(i, n)].y && along_column(
                    points[i],
                    points[after(i, n)],
                ).crosses(x_range(rect), y_range(rect));
            assert(points[i].y != points[after(i, n)].y);
            assert(points[i].x == points[after(i, n)].x);
        }
    }

    /// The lines between the tiles of the closed path of `points`. Tiles
    /// that follow each other must share a row or a column.
    pub fn from_loop(points: &[IVec2]) -> (r: Result<Segments, PuzzleError>)
        ensures
            match r {
                Ok(segments) => !has_diagonal(points@) && segments.of_loop(points@),
                Err(error) => error == PuzzleError::DiagonalSegment && has_diagonal(points@),
            },
    {
        proof {
            lemma_order_i64();
        }
        let mut horizontal: Vec<Segment> = Vec::new();
        let mut vertical: Vec<Segment> = Vec::new();
        let windows = index_windows(points.len());
        let ghost n = points@.len() as int;
        let mut w: usize = 0;
        while w < windows.len()
            invariant
                w <= windows@.len(),
                windows@.len() == n,
                n == points@.len(),
                forall|i: int|
                    0 <= i < n ==> #[trigger] windows@[i] == (i as usize, if i + 1 == n {
                        0usize
                    } else {
                        (i + 1) as usize
                    }),
                forall|a: i64, b: i64| #[trigger] lt_holds(a, b) <==> a < b,
                comparable::<i64>(),
                forall|i: int|
                    0 <= i < w ==> (#[trigger] points@[i]).y == points@[after(i, n)].y || points@[i].x
                        == points@[after(i, n)].x,
                horizontal@ == row_segments(points@, w as int),
                vertical@ == column_segments(points@, w as int),
            decreases windows.len() - w,
        {
            let (from, to) = windows[w];
            assert(from == w && to == after(w as int, n));
            let a = points[from];
            let b = points[to];
            if a.y == b.y {
                let (low, high) = min_max(a.x, b.x);
                let segment = Segment { at: a.y, low, high };
                assert(segment == along_row(a, b));
                horizontal.push(segment);
            } else if a.x == b.x {
                let (low, high) = min_max(a.y, b.y);
                let segment = Segment { at: a.x, low, high };
                assert(segment == along_column(a, b));
                vertical.push(segment);
            } else {
                assert(points@[w as int].y != points@[after(w as int, n)].y && points@[w as int].x
                    != points@[after(w as int, n)].x);
                return Err(PuzzleError::DiagonalSegment);
            }
            w += 1;
        }
        Ok(Segments { horizontal, vertical })
    }

    /// Tells whether one of the lines passes through `rect`.
    pub fn overlaps(&self, rect: &Rect) -> (b: bool)
        requires
            within_reach(rect.position),
            0 <= rect.size.x <= 2 * REACH + 1,
            0 <= rect.size.y <= 2 * REACH + 1,
        ensures
            b == self.spec_overlaps(*rect),
    {
        let x = (rect.position.x, rect.position.x + rect.size.x);
        let y = (rect.position.y, rect.position.y + rect.size.y);
        Segments::overlaps_inner(&self.horizontal, &y, &x).is_some() || Segments::overlaps_inner(
            &self.vertical,
            &x,
            &y,
        ).is_some()
    }

    /// The first of `segments` that passes through the area given, as the
    /// place of the segment and its range.
    pub fn overlaps_inner(segments: &Vec<Segment>, across: &(i64, i64), along: &(i64, i64)) -> (r: Option<
        (i64, i64, i64),
    >)
        ensures
            r is Some <==> any_crosses(
                segments@,
                (across.0 as int, across.1 as int),
                (along.0 as int, along.1 as int),
            ),
            r matches Some(found) ==> segments@.contains(Segment { at: found.0, low: found.1, high: found.2 })
                && (Segment { at: found.0, low: found.1, high: found.2 }).crosses(
                (across.0 as int, across.1 as int),
                (along.0 as int, along.1 as int),
            ),
    {
        let mut k: usize = 0;
        while k < segments.len()
            invariant
                k <= segments@.len(),
                forall|j: int|
                    0 <= j < k ==> !(#[trigger] segments@[j]).crosses(
                        (across.0 as int, across.1 as int),
                        (along.0 as int, along.1 as int),
                    ),
            decreases segments.len() - k,
        {
            let segment = segments[k];
            if across.0 <= segment.at && segment.at < across.1 && along.0 < segment.high && segment.low
                < along.1 {
                assert(segments@[k as int] == (Segment { at: segment.at, low: segment.low, high: segment.high }));
                return Some((segment.at, segment.low, segment.high));
            }
            k += 1;
        }
        None
    }
}

/// Whether every one of `points` is within [`REACH`].
pub open spec fn all_within_reach(points: Seq<IVec2>) -> bool {
    forall|i: int| 0 <= i < points.len() ==> within_reach(#[trigger] points[i])
}

/// Whether the rectangle between the tiles `i` and `j` counts: always where
/// `inside` is unset, else where it has an interior that no line of the
/// path passes through.
pub open spec fn eligible(points: Seq<IVec2>, inside: bool, i: int, j: int) -> bool {
    !inside || (Rect::spec_new(points[i], points[j]).spec_interior() is Some && !crossed(
        points,
        Rect::spec_new(points[i], points[j]).spec_interior()->0,
    ))
}

/// The area of the rectangle between the tiles `i` and `j`.
pub open spec fn pair_area(points: Seq<IVec2>, i: int, j: int) -> int {
    Rect::spec_new(points[i], points[j]).spec_area()
}

/// Whether `area` is the largest area of a rectangle that counts.
pub open spec fn is_largest(points: Seq<IVec2>, inside: bool, area: int) -> bool {
    &&& exists|i: int, j: int|
        0 <= i < j < points.len() && #[trigger] eligible(points, inside, i, j) && pair_area(points, i, j) == area
    &&& forall|i: int, j: int|
        0 <= i < j < points.len() && #[trigger] eligible(points, inside, i, j) ==> pair_area(points, i, j)
            <= area
}

/// Whether no rectangle counts.
pub open spec fn none_eligible(points: Seq<IVec2>, inside: bool) -> bool {
    forall|i: int, j: int| 0 <= i < j < points.len() ==> !#[trigger] eligible(points, inside, i, j)
}

/// Tells whether every one of `points` is within [`REACH`].
fn check_reach(points: &Vec<IVec2>) -> (ok: bool)
    ensures
        ok == all_within_reach(points@),
{
    let mut i: usize = 0;
    while i < points.len()
        invariant
            i <= points@.len(),
            forall|j: int| 0 <= j < i ==> within_reach(#[trigger] points@[j]),
        decreases points.len() - i,
    {
        let point = points[i];
        if point.x < -REACH || point.x > REACH || point.y < -REACH || point.y > REACH {
            assert(!within_reach(points@[i as int]));
            return false;
        }
        i += 1;
    }
    true
}

/// The largest area of a rectangle between two of `points` that counts,
/// if any does.
fn largest(points: &Vec<IVec2>, segments: Option<&Segments>) -> (best: Option<i128>)
    requires
        all_within_reach(points@),
        segments matches Some(lines) ==> lines.of_loop(points@) && !has_diagonal(points@),
    ensures
        match best {
            Some(area) => is_largest(points@, segments is Some, area as int),
            None => none_eligible(points@, segments is Some),
        },
{
    let ghost inside = segments is Some;
    let pairs = index_pairs(points.len());
    let mut best: Option<i128> = None;
    let mut k: usize = 0;
    while k < pairs.len()
        invariant
            k <= pairs@.len(),
            inside == segments is Some,
            all_within_reach(points@),
            segments matches Some(lines) ==> lines.of_loop(points@) && !has_diagonal(points@),
            forall|m: int| 0 <= m < pairs@.len() ==> (#[trigger] pairs@[m]).0 < pairs@[m].1 < points@.len(),
            forall|m: int|
                0 <= m < k && eligible(points@, inside, (#[trigger] pairs@[m]).0 as int, pairs@[m].1 as int)
                    ==> best is Some && pair_area(points@, pairs@[m].0 as int, pairs@[m].1 as int) <= best->0,
            best matches Some(area) ==> exists|m: int|
                0 <= m < k && eligible(points@, inside, (#[trigger] pairs@[m]).0 as int, pairs@[m].1 as int)
                    && pair_area(points@, pairs@[m].0 as int, pairs@[m].1 as int) == area,
        decreases pairs.len() - k,
    {
        let (i, j) = pairs[k];
        let a = points[i];
        let b = points[j];
        assert(within_reach(points@[i as int]) && within_reach(points@[j as int]));
        let rect = Rect::new(a, b);
        let counts = match segments {
            None => true,
            Some(lines) => match rect.interior() {
                None => false,
                Some(inner) => {
                    proof {
                        lines.lemma_of_loop(points@, inner);
                    }
                    !lines.overlaps(&inner)
                },
            },
        };
        assert(counts == eligible(points@, inside, i as int, j as int));
        if counts {
            let area = rect.area();
            let ghost previous = best;
            best = match best {
                Some(so_far) => if area > so_far {
                    Some(area)
                } else {
                    Some(so_far)
                },
                None => Some(area),
            };
            proof {
                if best == Some(area) {
                    assert(eligible(points@, inside, pairs@[k as int].0 as int, pairs@[k as int].1 as int)
                        && pair_area(points@, pairs@[k as int].0 as int, pairs@[k as int].1 as int) == area);
                } else {
                    let m = choose|m: int|
                        0 <= m < k && eligible(
                            points@,
                            inside,
                            (#[trigger] pairs@[m]).0 as int,
                            pairs@[m].1 as int,
                        ) && pair_area(points@, pairs@[m].0 as int, pairs@[m].1 as int) == previous->0;
                    assert(0 <= m < k + 1);
                }
            }
        }
        k += 1;
    }
    proof {
        match best {
            Some(area) => {
                let m = choose|m: int|
                    0 <= m < pairs@.len() && eligible(
                        points@,
                        inside,
                        (#[trigger] pairs@[m]).0 as int,
                        pairs@[m].1 as int,
                    ) && pair_area(points@, pairs@[m].0 as int, pairs@[m].1 as int) == area;
                assert(eligible(points@, inside, pairs@[m].0 as int, pairs@[m].1 as int) && pair_area(
                    points@,
                    pairs@[m].0 as int,
                    pairs@[m].1 as int,
                ) == area);
                assert forall|i: int, j: int|
                    0 <= i < j < points@.len() && #[trigger] eligible(points@, inside, i, j) implies pair_area(
                    points@,
                    i,
                    j,
                ) <= area by {
                    assert(lists_pair(pairs@, i as usize, j as usize));
                    let m = choose|m: int| 0 <= m < pairs@.len() && #[trigger] pairs@[m] == (i as usize, j as usize);
                    assert(pairs@[m].0 == i && pairs@[m].1 == j);
                }
            },
            None => {
                assert forall|i: int, j: int| 0 <= i < j < points@.len() implies !#[trigger] eligible(
                    points@,
                    inside,
                    i,
                    j,
                ) by {
                    assert(lists_pair(pairs@, i as usize, j as usize));
                    let m = choose|m: int| 0 <= m < pairs@.len() && #[trigger] pairs@[m] == (i as usize, j as usize);
                    assert(pairs@[m].0 == i && pairs@[m].1 == j);
                }
            },
        }
    }
    best
}

/// The answer for `text`: the largest area of a rectangle between two tiles
/// that counts. With `inside` set the tiles must form a closed path along
/// rows and columns, and a rectangle counts only where no line of the path
/// passes through its interior.
pub open spec fn answers(text: Seq<char>, inside: bool, r: Result<i64, PuzzleError>) -> bool {
    match spec_parse(text) {
        Err(error) => r == Err::<i64, PuzzleError>(error),
        Ok(points) => if !all_within_reach(points) {
            r == Err::<i64, PuzzleError>(PuzzleError::Overflow)
        } else if inside && has_diagonal(points) {
            r == Err::<i64, PuzzleError>(PuzzleError::DiagonalSegment)
        } else if none_eligible(points, inside) {
            r == Err::<i64, PuzzleError>(
                if inside {
                    PuzzleError::NoSuitableRectangle
                } else {
                    PuzzleError::EmptyInput
                },
            )
        } else {
            match r {
                Ok(area) => is_largest(points, inside, area as int),
                Err(error) => error == PuzzleError::Overflow && exists|area: int|
                    area > i64::MAX && #[trigger] is_largest(points, inside, area),
            }
        },
    }
}

/// The largest area of a rectangle between two tiles.
pub fn a(input: &str) -> (r: Result<i64, PuzzleError>)
    ensures
        answers(input@, false, r),
{
    let points = match parse(input) {
        Ok(points) => points,
        Err(error) => {
            return Err(error);
        },
    };
    if !check_reach(&points) {
        return Err(PuzzleError::Overflow);
    }
    match largest(&points, None) {
        None => Err(PuzzleError::EmptyInput),
        Some(area) => {
            proof {
                lemma_not_none(points@, false, area as int);
            }
            if area > i64::MAX as i128 {
                Err(PuzzleError::Overflow)
            } else {
                assert(0 <= area) by {
                    lemma_area_positive(points@, false, area as int);
                }
                Ok(area as i64)
            }
        },
    }
}

/// The largest area of a rectangle between two tiles that lies within the
/// closed path of the tiles.
pub fn b(input: &str) -> (r: Result<i64, PuzzleError>)
    ensures
        answers(input@, true, r),
{
    let points = match parse(input) {
        Ok(points) => points,
        Err(error) => {
            return Err(error);
        },
    };
    if !check_reach(&points) {
        return Err(PuzzleError::Overflow);
    }
    let segments = match Segments::from_loop(points.as_slice()) {
        Ok(segments) => segments,
        Err(error) => {
            return Err(error);
        },
    };
    match largest(&points, Some(&segments)) {
        None => Err(PuzzleError::NoSuitableRectangle),
        Some(area) => {
            proof {
                lemma_not_none(points@, true, area as int);
            }
            if area > i64::MAX as i128 {
                Err(PuzzleError::Overflow)
            } else {
                assert(0 <= area) by {
                    lemma_area_positive(points@, true, area as int);
                }
                Ok(area as i64)
            }
        },
    }
}

proof fn lemma_not_none(points: Seq<IVec2>, inside: bool, area: int)
    requires
        is_largest(points, inside, area),
    ensures
        !none_eligible(points, inside),
{
}

proof fn lemma_area_positive(points: Seq<IVec2>, inside: bool, area: int)
    requires
        all_within_reach(points),
        is_largest(points, inside, area),
    ensures
        area > 0,
{
    let (i, j) = choose|i: int, j: int|
        0 <= i < j < points.len() && #[trigger] eligible(points, inside, i, j) && pair_area(points, i, j) == area;
    let rect = Rect::spec_new(points[i], points[j]);
    assert(within_reach(points[i]) && within_reach(points[j]));
    assert(rect.size.x * rect.size.y > 0) by (nonlinear_arith)
        requires
            rect.size.x >= 1,
            rect.size.y >= 1,
    ;
}

/// The solvers of both parts.
pub fn solution() -> (solution: Solution)
    ensures
        solution.part_a() is Some,
        solution.part_b() is Some,
{
    Solution::new().with_a(|input: &str| -> (r: Result<i64, String>) { shown(a(input)) }).with_b(
        |input: &str| -> (r: Result<i64, String>) { shown(b(input)) },
    )
}

} // verus!
