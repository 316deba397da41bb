//! Day 12: presents of given shapes, and the regions they are to fit in.
use vstd::prelude::*;
use crate::solution::Solution;
use crate::util::hash::{cells_items, cells_len, find_cells, marked_cells, numbered, Cells};
use crate::util::parse::{parse_signed, parse_signed_chars};
use crate::util::text::{
    copy_range, find_char, find_last_pair, find_pair, index_of, index_of_pair, last_index_of_pair, lines,
    split_at_pairs, split_lines, split_pairs, split_words, to_chars, views, words,
};
use crate::util::vector::{vec2, IVec2};
use crate::y2025::{collect, lemma_collect_fails, shown, PuzzleError};

verus! {

/// The quotient of `a` by `b`, rounded towards zero.
pub open spec fn spec_trunc_div(a: int, b: int) -> int {
    if a >= 0 {
        a / b
    } else {
        -((-a) / b)
    }
}

/// Divides `a` by `b` and rounds towards zero.
pub fn trunc_div(a: i64, b: i64) -> (r: i64)
    requires
        b > 0,
    ensures
        r == spec_trunc_div(a as int, b as int),
{
    a / b
}

/// A shape: the cells that its pieces fill, and the size of the rectangle
/// that holds them.
pub struct Shape {
    pub pieces: Cells,
    pub size: IVec2,
}

/// A region: its size, and how many presents of each shape are to fit.
pub struct Region {
    pub size: IVec2,
    pub shape_counts: Vec<i64>,
}

/// What counts of a shape: how many pieces it has, and how wide and high
/// the rectangle around them is.
pub struct ShapeModel {
    pub pieces: int,
    pub width: int,
    pub height: int,
}

/// What counts of a region: its width, its height, and the number of
/// presents of each shape.
pub struct RegionModel {
    pub width: int,
    pub height: int,
    pub counts: Seq<int>,
}

/// Whether the rectangle of `width` by `height` is the least, from the
/// corner of the first column and the first row, that holds `cells`.
pub open spec fn bounds(cells: Set<(i64, i64)>, width: int, height: int) -> bool {
    &&& forall|p: (i64, i64)| #[trigger] cells.contains(p) ==> p.0 < width && p.1 < height
    &&& width == 0 || exists|p: (i64, i64)| #[trigger] cells.contains(p) && p.0 + 1 == width
    &&& height == 0 || exists|p: (i64, i64)| #[trigger] cells.contains(p) && p.1 + 1 == height
    &&& width >= 0 && height >= 0
}

impl Shape {
    /// What counts of this shape.
    pub open spec fn model(&self) -> ShapeModel {
        ShapeModel { pieces: self.pieces@.len() as int, width: self.size.x as int, height: self.size.y as int }
    }

    /// Whether this is the shape that `rows` draw with `#`.
    pub open spec fn drawn_by(&self, rows: Seq<Seq<char>>) -> bool {
        &&& self.pieces@ == marked_cells(rows, '#')
        &&& self.pieces@.finite()
        &&& bounds(self.pieces@, self.size.x as int, self.size.y as int)
    }
}

impl Region {
    /// What counts of this region.
    pub open spec fn model(&self) -> RegionModel {
        RegionModel {
            width: self.size.x as int,
            height: self.size.y as int,
            counts: self.shape_counts@.map_values(|count: i64| count as int),
        }
    }
}

/// Reads the shape that `rows` draw.
pub fn parse_shape(rows: &Vec<Vec<char>>) -> (r: Option<Shape>)
    ensures
        match r {
            Some(shape) => numbered(views(rows@)) && shape.drawn_by(views(rows@)),
            None => !numbered(views(rows@)),
        },
{
    let pieces = match find_cells(rows, '#') {
        Some(pieces) => pieces,
        None => {
            return None;
        },
    };
    let items = cells_items(&pieces);
    let ghost all = views(rows@);
    let mut width: i64 = 0;
    let mut height: i64 = 0;
    let mut i: usize = 0;
    while i < items.len()
        invariant
            i <= items@.len(),
            numbered(all),
            items@.to_set() == pieces@,
            pieces@ == marked_cells(all, '#'),
            forall|j: int| 0 <= j < i ==> (#[trigger] items@[j]).0 < width && items@[j].1 < height,
            width == 0 || exists|j: int| 0 <= j < i && (#[trigger] items@[j]).0 + 1 == width,
            height == 0 || exists|j: int| 0 <= j < i && (#[trigger] items@[j]).1 + 1 == height,
            0 <= width,
            0 <= height,
        decreases items.len() - i,
    {
        let piece = items[i];
        assert(items@.to_set().contains(piece));
        assert(pieces@.contains(piece));
        assert(all[piece.1 as int].len() < i64::MAX);
        let ghost old_width = width;
        let ghost old_height = height;
        if piece.0 + 1 > width {
            width = piece.0 + 1;
        }
        if piece.1 + 1 > height {
            height = piece.1 + 1;
        }
        proof {
            if width != 0 {
                if width == old_width {
                    let j = choose|j: int| 0 <= j < i && (#[trigger] items@[j]).0 + 1 == old_width;
                    assert(0 <= j < i + 1 && items@[j].0 + 1 == width);
                } else {
                    assert(items@[i as int].0 + 1 == width);
                }
            }
            if height != 0 {
                if height == old_height {
                    let j = choose|j: int| 0 <= j < i && (#[trigger] items@[j]).1 + 1 == old_height;
                    assert(0 <= j < i + 1 && items@[j].1 + 1 == height);
                } else {
                    assert(items@[i as int].1 + 1 == height);
                }
            }
        }
        i += 1;
    }
    proof {
        assert forall|p: (i64, i64)| #[trigger] pieces@.contains(p) implies p.0 < width && p.1 < height by {
            assert(items@.to_set().contains(p));
            let j = choose|j: int| 0 <= j < items@.len() && items@[j] == p;
            assert(items@[j].0 < width);
        }
        if width != 0 {
            let j = choose|j: int| 0 <= j < items@.len() && (#[trigger] items@[j]).0 + 1 == width;
            assert(items@.to_set().contains(items@[j]));
            assert(pieces@.contains(items@[j]) && items@[j].0 + 1 == width);
        }
        if height != 0 {
            let j = choose|j: int| 0 <= j < items@.len() && (#[trigger] items@[j]).1 + 1 == height;
            assert(items@.to_set().contains(items@[j]));
            assert(pieces@.contains(items@[j]) && items@[j].1 + 1 == height);
        }
    }
    Some(Shape { pieces, size: vec2(width, height) })
}

/// The rows that draw a shape in `part`: what follows its first line, as
/// lines. A part of one line draws nothing.
pub open spec fn shape_rows(part: Seq<char>) -> Option<Seq<Seq<char>>> {
    let at = index_of(part, '\n');
    if at >= part.len() {
        None
    } else {
        Some(lines(part.skip(at + 1)))
    }
}

/// The numbers that the words of a text write.
pub open spec fn spec_counts(names: Seq<Seq<char>>, upto: int) -> Option<Seq<int>>
    decreases upto,
{
    if upto <= 0 {
        Some(Seq::empty())
    } else {
        match (spec_counts(names, upto - 1), parse_signed(names[upto - 1], i64::MIN as int, i64::MAX as int)) {
            (Some(before), Some(count)) => Some(before.push(count)),
            _ => None,
        }
    }
}

proof fn lemma_counts_fail(names: Seq<Seq<char>>, n: int, upto: int)
    requires
        0 <= n <= upto,
        spec_counts(names, n) is None,
    ensures
        spec_counts(names, upto) is None,
    decreases upto - n,
{
    if n < upto {
        lemma_counts_fail(names, n, upto - 1);
    }
}

/// The region that `line` describes: its width and height with an `x`
/// between, then a colon and a blank, then the number of presents of each
/// shape.
pub open spec fn spec_parse_region(line: Seq<char>) -> Result<RegionModel, PuzzleError> {
    let at = index_of_pair(line, ':', ' ');
    if at >= line.len() {
        Err(PuzzleError::InvalidInput)
    } else {
        let size = line.take(at);
        let cross = index_of(size, 'x');
        if cross >= size.len() {
            Err(PuzzleError::InvalidInput)
        } else {
            let names = words(line.skip(at + 2));
            match (
                parse_signed(size.take(cross), i64::MIN as int, i64::MAX as int),
                parse_signed(size.skip(cross + 1), i64::MIN as int, i64::MAX as int),
                spec_counts(names, names.len() as int),
            ) {
                (Some(width), Some(height), Some(counts)) => Ok(RegionModel { width, height, counts }),
                _ => Err(PuzzleError::InvalidNumber),
            }
        }
    }
}

/// Reads the region that `line` describes.
pub fn parse_region(line: &Vec<char>) -> (r: Result<Region, PuzzleError>)
    ensures
        match r {
            Ok(region) => spec_parse_region(line@) == Ok::<RegionModel, PuzzleError>(region.model()),
            Err(error) => spec_parse_region(line@) == Err::<RegionModel, PuzzleError>(error),
        },
{
    let at = find_pair(line, 0, ':', ' ');
    assert(line@.skip(0) =~= line@);
    if at >= line.len() {
        return Err(PuzzleError::InvalidInput);
    }
    let size = copy_range(line, 0, at);
    assert(size@ =~= line@.take(at as int));
    let cross = find_char(&size, 'x');
    if cross >= size.len() {
        return Err(PuzzleError::InvalidInput);
    }
    let left = copy_range(&size, 0, cross);
    let right = copy_range(&size, cross + 1, size.len());
    assert(left@ =~= size@.take(cross as int));
    assert(right@ =~= size@.skip(cross + 1));
    let width = parse_signed_chars(&left, i64::MIN, i64::MAX);
    let height = parse_signed_chars(&right, i64::MIN, i64::MAX);
    let rest = copy_range(line, at + 2, line.len());
    assert(rest@ =~= line@.skip(at + 2));
    let names = split_words(&rest);
    let ghost texts = words(line@.skip(at + 2));
    let mut counts: Vec<i64> = Vec::new();
    let mut failed = false;
    let mut k: usize = 0;
    assert(counts@.map_values(|count: i64| count as int) =~= Seq::<int>::empty());
    while k < names.len() && !failed
        invariant
            k <= names@.len(),
            views(names@) == texts,
            !failed ==> spec_counts(texts, k as int) == Some(counts@.map_values(|count: i64| count as int)),
            failed ==> spec_counts(texts, texts.len() as int) is None,
        decreases names.len() - k + (if failed {
            0int
        } else {
            1int
        }),
    {
        assert(views(names@)[k as int] == names@[k as int]@);
        let ghost before = counts@;
        match parse_signed_chars(&names[k], i64::MIN, i64::MAX) {
            Some(count) => {
                counts.push(count);
                assert(counts@.map_values(|count: i64| count as int) =~= before.map_values(
                    |count: i64| count as int,
                ).push(count as int));
                k += 1;
            },
            None => {
                proof {
                    assert(spec_counts(texts, k + 1) is None);
                    lemma_counts_fail(texts, k + 1, texts.len() as int);
                }
                failed = true;
            },
        }
    }
    match (width, height) {
        (Some(width), Some(height)) => if failed {
            Err(PuzzleError::InvalidNumber)
        } else {
            Ok(Region { size: vec2(width, height), shape_counts: counts })
        },
        _ => Err(PuzzleError::InvalidNumber),
    }
}

/// [`spec_parse_region`] as a value.
pub open spec fn region_reader() -> spec_fn(Seq<char>) -> Result<RegionModel, PuzzleError> {
    |line: Seq<char>| spec_parse_region(line)
}

/// The models of `regions`.
pub open spec fn region_models(regions: Seq<Region>) -> Seq<RegionModel> {
    regions.map_values(|region: Region| region.model())
}

/// The models of `shapes`.
pub open spec fn shape_models(shapes: Seq<Shape>) -> Seq<ShapeModel> {
    shapes.map_values(|shape: Shape| shape.model())
}

/// Reads the regions that the lines of `text` describe.
fn parse_regions(text: &Vec<char>) -> (r: Result<Vec<Region>, PuzzleError>)
    ensures
        match r {
            Ok(regions) => collect(lines(text@), region_reader()) == Ok::<Seq<RegionModel>, PuzzleError>(
                region_models(regions@),
            ),
            Err(error) => collect(lines(text@), region_reader()) == Err::<Seq<RegionModel>, PuzzleError>(error),
        },
{
    let rows = split_lines(text);
    let ghost all = lines(text@);
    let ghost read = region_reader();
    let mut regions: Vec<Region> = Vec::new();
    let mut i: usize = 0;
    assert(all.take(0) =~= Seq::<Seq<char>>::empty());
    assert(region_models(regions@) =~= Seq::<RegionModel>::empty());
    while i < rows.len()
        invariant
            i <= rows@.len(),
            views(rows@) == all,
            all == lines(text@),
            read == region_reader(),
            collect(all.take(i as int), read) == Ok::<Seq<RegionModel>, PuzzleError>(region_models(regions@)),
        decreases rows.len() - i,
    {
        proof {
            assert(all.take(i + 1).drop_last() =~= all.take(i as int));
            assert(all.take(i + 1).last() == rows@[i as int]@);
        }
        let ghost before = regions@;
        match parse_region(&rows[i]) {
            Ok(region) => {
                regions.push(region);
                assert(region_models(regions@) =~= region_models(before).push(region.model()));
            },
            Err(error) => {
                proof {
                    lemma_collect_fails(all, read, i + 1);
                }
                return Err(error);
            },
        }
        i += 1;
    }
    assert(all.take(i as int) =~= all);
    Ok(regions)
}

/// Whether `shapes` are the shapes that `parts` draw, part by part.
pub open spec fn drawn(shapes: Seq<Shape>, parts: Seq<Seq<char>>) -> bool {
    &&& shapes.len() == parts.len()
    &&& forall|i: int|
        0 <= i < parts.len() ==> shape_rows(#[trigger] parts[i]) is Some && shapes[i].drawn_by(
            shape_rows(parts[i])->0,
        )
}

/// The rows that draw a shape in `part`, or why they draw none: a part of
/// one line is no drawing, and rows beyond what 64-bit numbers count are
/// too many.
pub open spec fn spec_part(part: Seq<char>) -> Result<Seq<Seq<char>>, PuzzleError> {
    match shape_rows(part) {
        None => Err(PuzzleError::InvalidInput),
        Some(rows) => if numbered(rows) {
            Ok(rows)
        } else {
            Err(PuzzleError::Overflow)
        },
    }
}

/// [`spec_part`] as a value.
pub open spec fn part_reader() -> spec_fn(Seq<char>) -> Result<Seq<Seq<char>>, PuzzleError> {
    |part: Seq<char>| spec_part(part)
}

/// The drawings of all `parts`, or what is wrong with the first that is no
/// drawing.
pub open spec fn spec_parts(parts: Seq<Seq<char>>) -> Result<Seq<Seq<Seq<char>>>, PuzzleError> {
    collect(parts, part_reader())
}

/// Reads the shapes that the parts of `text` draw. The parts are set off
/// by empty lines; the first line of each part is passed over.
pub fn parse_shapes(text: &Vec<char>) -> (r: Result<Vec<Shape>, PuzzleError>)
    ensures
        match r {
            Ok(shapes) => spec_parts(split_at_pairs(text@, '\n', '\n')) is Ok && drawn(
                shapes@,
                split_at_pairs(text@, '\n', '\n'),
            ),
            Err(error) => spec_parts(split_at_pairs(text@, '\n', '\n')) == Err::<Seq<Seq<Seq<char>>>, PuzzleError>(
                error,
            ),
        },
{
    let parts = split_pairs(text, '\n', '\n');
    let ghost all = split_at_pairs(text@, '\n', '\n');
    let ghost read = part_reader();
    let mut shapes: Vec<Shape> = Vec::new();
    let mut i: usize = 0;
    assert(all.take(0) =~= Seq::<Seq<char>>::empty());
    while i < parts.len()
        invariant
            i <= parts@.len(),
            views(parts@) == all,
            all == split_at_pairs(text@, '\n', '\n'),
            read == part_reader(),
            collect(all.take(i as int), read) is Ok,
            shapes@.len() == i,
            forall|j: int|
                0 <= j < i ==> shape_rows(#[trigger] all[j]) is Some && shapes@[j].drawn_by(shape_rows(all[j])->0),
        decreases parts.len() - i,
    {
        let part = &parts[i];
        assert(all[i as int] == part@);
        proof {
            assert(all.take(i + 1).drop_last() =~= all.take(i as int));
            assert(all.take(i + 1).last() == part@);
        }
        let at = find_char(part, '\n');
        if at >= part.len() {
            proof {
                assert(shape_rows(all[i as int]) is None);
                lemma_collect_fails(all, read, i + 1);
            }
            return Err(PuzzleError::InvalidInput);
        }
        let drawing = copy_range(part, at + 1, part.len());
        assert(drawing@ =~= part@.skip(at + 1));
        let rows = split_lines(&drawing);
        let shape = match parse_shape(&rows) {
            Some(shape) => shape,
            None => {
                proof {
                    lemma_collect_fails(all, read, i + 1);
                }
                return Err(PuzzleError::Overflow);
            },
        };
        shapes.push(shape);
        i += 1;
    }
    assert(all.take(i as int) =~= all);
    Ok(shapes)
}

/// Whether `r` is what `input` holds: the shapes that the parts before
/// its last empty line draw, with the regions that the lines after it
/// describe; or what is wrong with it: that it has no empty line, else what
/// is wrong with the first part that is no drawing, else with the first
/// line that describes no region.
pub open spec fn reads(input: Seq<char>, r: Result<(Seq<Shape>, Seq<RegionModel>), PuzzleError>) -> bool {
    let at = last_index_of_pair(input, '\n', '\n');
    let parts = split_at_pairs(input.take(at), '\n', '\n');
    let described = collect(lines(input.skip(at + 2)), region_reader());
    if at < 0 {
        r == Err::<(Seq<Shape>, Seq<RegionModel>), PuzzleError>(PuzzleError::InvalidInput)
    } else {
        match spec_parts(parts) {
            Err(error) => r == Err::<(Seq<Shape>, Seq<RegionModel>), PuzzleError>(error),
            Ok(_) => match described {
                Err(error) => r == Err::<(Seq<Shape>, Seq<RegionModel>), PuzzleError>(error),
                Ok(regions) => r matches Ok(read) && drawn(read.0, parts) && read.1 == regions,
            },
        }
    }
}

/// Reads the shapes and the regions of `input`: the shapes come first, the
/// regions after the last empty line.
pub fn parse(input: &str) -> (r: Result<(Vec<Shape>, Vec<Region>), PuzzleError>)
    ensures
        match r {
            Ok((shapes, regions)) => reads(input@, Ok((shapes@, region_models(regions@)))),
            Err(error) => reads(input@, Err(error)),
        },
{
    let text = to_chars(input);
    let at = match find_last_pair(&text, '\n', '\n') {
        Some(at) => at,
        None => {
            return Err(PuzzleError::InvalidInput);
        },
    };
    let shapes_text = copy_range(&text, 0, at);
    let regions_text = copy_range(&text, at + 2, text.len());
    assert(shapes_text@ =~= input@.take(at as int));
    assert(regions_text@ =~= input@.skip(at + 2));
    let shapes = match parse_shapes(&shapes_text) {
        Ok(shapes) => shapes,
        Err(error) => {
            return Err(error);
        },
    };
    let regions = match parse_regions(&regions_text) {
        Ok(regions) => regions,
        Err(error) => {
            return Err(error);
        },
    };
    Ok((shapes, regions))
}

/// The sum of the first `upto` of `counts`.
pub open spec fn count_sum(counts: Seq<int>, upto: int) -> int
    decreases upto,
{
    if upto <= 0 {
        0
    } else {
        count_sum(counts, upto - 1) + counts[upto - 1]
    }
}

/// Whether a region has room for its presents even where each takes a
/// rectangle of `width` by `height`, side by side: the number of such
/// rectangles that fit is more than the number of presents.
pub open spec fn spec_upper_fit(width: int, height: int, region: RegionModel) -> bool {
    spec_trunc_div(region.width, width) * spec_trunc_div(region.height, height) > count_sum(
        region.counts,
        region.counts.len() as int,
    )
}

/// The smaller of two numbers.
pub open spec fn lesser(a: int, b: int) -> int {
    if a < b {
        a
    } else {
        b
    }
}

/// The room that the first `upto` kinds of presents take: for each kind
/// the number of presents times the room of one, which is the number of
/// its pieces where `exact` is set, else the area of the rectangle around
/// them.
pub open spec fn room(shapes: Seq<ShapeModel>, counts: Seq<int>, exact: bool, upto: int) -> int
    decreases upto,
{
    if upto <= 0 {
        0
    } else {
        room(shapes, counts, exact, upto - 1) + (if exact {
            shapes[upto - 1].pieces
        } else {
            shapes[upto - 1].width * shapes[upto - 1].height
        }) * counts[upto - 1]
    }
}

/// Whether the cells of a region are as many as the presents take, by the
/// rectangles around the shapes and by their pieces.
pub open spec fn spec_piece_fit(shapes: Seq<ShapeModel>, region: RegionModel) -> (bool, bool) {
    let kinds = lesser(shapes.len() as int, region.counts.len() as int);
    (
        region.width * region.height >= room(shapes, region.counts, false, kinds),
        region.width * region.height >= room(shapes, region.counts, true, kinds),
    )
}

/// Whether `v` is a 128-bit number.
pub open spec fn in_reach(v: int) -> bool {
    i128::MIN <= v <= i128::MAX
}

/// Whether the room that the first `upto` kinds of presents take can be
/// worked out with 128-bit numbers, both by rectangles and by pieces: the
/// room of each kind and each sum on the way is such a number.
pub open spec fn room_in_reach(shapes: Seq<ShapeModel>, counts: Seq<int>, upto: int) -> bool
    decreases upto,
{
    upto <= 0 || {
        &&& room_in_reach(shapes, counts, upto - 1)
        &&& in_reach(shapes[upto - 1].width * shapes[upto - 1].height * counts[upto - 1])
        &&& in_reach(shapes[upto - 1].pieces * counts[upto - 1])
        &&& in_reach(room(shapes, counts, false, upto))
        &&& in_reach(room(shapes, counts, true, upto))
    }
}

/// Whether the room that the presents of `region` take can be worked out
/// with 128-bit numbers.
pub open spec fn weighable(shapes: Seq<ShapeModel>, region: RegionModel) -> bool {
    room_in_reach(shapes, region.counts, lesser(shapes.len() as int, region.counts.len() as int))
}

/// Room that is out of reach for some kinds stays so for more kinds.
proof fn lemma_out_of_reach(shapes: Seq<ShapeModel>, counts: Seq<int>, n: int, upto: int)
    requires
        n <= upto,
        !room_in_reach(shapes, counts, n),
    ensures
        !room_in_reach(shapes, counts, upto),
    decreases upto - n,
{
    if n < upto {
        lemma_out_of_reach(shapes, counts, n, upto - 1);
    }
}

/// A sum of 64-bit numbers that is a 128-bit number.
fn sum_counts(counts: &Vec<i64>) -> (r: i128)
    requires
        counts@.len() < 0x1_0000_0000_0000_0000,
    ensures
        r == count_sum(counts@.map_values(|count: i64| count as int), counts@.len() as int),
{
    let ghost all = counts@.map_values(|count: i64| count as int);
    let mut total: i128 = 0;
    let mut i: usize = 0;
    while i < counts.len()
        invariant
            i <= counts@.len(),
            counts@.len() < 0x1_0000_0000_0000_0000,
            all == counts@.map_values(|count: i64| count as int),
            total == count_sum(all, i as int),
            -0x8000_0000_0000_0000 * i <= total <= 0x8000_0000_0000_0000 * i,
        decreases counts.len() - i,
    {
        assert(all[i as int] == counts@[i as int]);
        total = total + counts[i] as i128;
        i += 1;
    }
    total
}

/// Tells whether `region` has room for its presents where each takes a
/// rectangle of the size `size`.
pub fn can_fit_upper_shape_bound(size: IVec2, region: &Region) -> (fits: bool)
    requires
        size.x > 0,
        size.y > 0,
        region.shape_counts@.len() < 0x1_0000_0000_0000_0000,
    ensures
        fits == spec_upper_fit(size.x as int, size.y as int, region.model()),
{
    let across = trunc_div(region.size.x, size.x);
    let down = trunc_div(region.size.y, size.y);
    let shape_count = sum_counts(&region.shape_counts);
    assert(-0x8000_0000_0000_0000 * 0x8000_0000_0000_0000 <= across * down <= 0x8000_0000_0000_0000
        * 0x8000_0000_0000_0000) by (nonlinear_arith)
        requires
            -0x8000_0000_0000_0000 <= across <= 0x8000_0000_0000_0000,
            -0x8000_0000_0000_0000 <= down <= 0x8000_0000_0000_0000,
    ;
    let capacity = across as i128 * down as i128;
    capacity > shape_count
}

/// Tells whether the cells of `region` are as many as its presents take,
/// by the rectangles around the shapes and by their pieces. Nothing is
/// told where the numbers are too large to work with.
pub fn can_fit_piece_count(shapes: &Vec<Shape>, region: &Region) -> (r: Option<(bool, bool)>)
    ensures
        r == (if weighable(shape_models(shapes@), region.model()) {
            Some(spec_piece_fit(shape_models(shapes@), region.model()))
        } else {
            None
        }),
{
    assert(-0x8000_0000_0000_0000 * 0x8000_0000_0000_0000 <= region.size.x * region.size.y
        <= 0x8000_0000_0000_0000 * 0x8000_0000_0000_0000) by (nonlinear_arith)
        requires
            -0x8000_0000_0000_0000 <= region.size.x <= 0x8000_0000_0000_0000,
            -0x8000_0000_0000_0000 <= region.size.y <= 0x8000_0000_0000_0000,
    ;
    let capacity = region.size.x as i128 * region.size.y as i128;
    let kinds = if shapes.len() < region.shape_counts.len() {
        shapes.len()
    } else {
        region.shape_counts.len()
    };
    let ghost models = shape_models(shapes@);
    let ghost counts = region.model().counts;
    let mut total_upper: i128 = 0;
    let mut total_exact: i128 = 0;
    let mut k: usize = 0;
    while k < kinds
        invariant
            k <= kinds,
            kinds <= shapes@.len(),
            kinds <= region.shape_counts@.len(),
            models == shape_models(shapes@),
            counts == region.model().counts,
            total_upper == room(models, counts, false, k as int),
            total_exact == room(models, counts, true, k as int),
            room_in_reach(models, counts, k as int),
            kinds == lesser(models.len() as int, counts.len() as int),
        decreases kinds - k,
    {
        let shape = &shapes[k];
        let count = region.shape_counts[k];
        assert(models[k as int] == shape.model());
        assert(counts[k as int] == count);
        proof {
            if !room_in_reach(models, counts, k + 1) {
                lemma_out_of_reach(models, counts, k + 1, kinds as int);
            }
        }
        assert(-0x8000_0000_0000_0000 * 0x8000_0000_0000_0000 <= shape.size.x * shape.size.y
            <= 0x8000_0000_0000_0000 * 0x8000_0000_0000_0000) by (nonlinear_arith)
            requires
                -0x8000_0000_0000_0000 <= shape.size.x <= 0x8000_0000_0000_0000,
                -0x8000_0000_0000_0000 <= shape.size.y <= 0x8000_0000_0000_0000,
        ;
        let upper = shape.size.x as i128 * shape.size.y as i128;
        let exact = cells_len(&shape.pieces) as i128;
        let more_upper = match upper.checked_mul(count as i128) {
            Some(more) => more,
            None => {
                return None;
            },
        };
        let more_exact = match exact.checked_mul(count as i128) {
            Some(more) => more,
            None => {
                return None;
            },
        };
        total_upper = match total_upper.checked_add(more_upper) {
            Some(total) => total,
            None => {
                return None;
            },
        };
        total_exact = match total_exact.checked_add(more_exact) {
            Some(total) => total,
            None => {
                return None;
            },
        };
        k += 1;
    }
    Some((capacity >= total_upper, capacity >= total_exact))
}

/// The size of the least rectangle that holds each of the first `upto`
/// shapes.
pub open spec fn largest_size(shapes: Seq<ShapeModel>, upto: int) -> (int, int)
    decreases upto,
{
    if upto <= 0 {
        (0, 0)
    } else {
        let before = largest_size(shapes, upto - 1);
        (
            if shapes[upto - 1].width > before.0 {
                shapes[upto - 1].width
            } else {
                before.0
            },
            if shapes[upto - 1].height > before.1 {
                shapes[upto - 1].height
            } else {
                before.1
            },
        )
    }
}

/// Whether `region` has room for its presents: plainly, by rectangles side
/// by side, or else by the count of cells, where both ways of counting
/// must agree and the numbers must be in reach.
pub open spec fn region_fits(shapes: Seq<ShapeModel>, region: RegionModel) -> Result<bool, PuzzleError> {
    let (width, height) = largest_size(shapes, shapes.len() as int);
    if width <= 0 || height <= 0 {
        Err(PuzzleError::InvalidInput)
    } else if spec_upper_fit(width, height, region) {
        Ok(true)
    } else {
        let (upper, exact) = spec_piece_fit(shapes, region);
        if !weighable(shapes, region) {
            Err(PuzzleError::Overflow)
        } else if upper != exact {
            Err(PuzzleError::UnexpectedState { upper, exact })
        } else {
            Ok(upper)
        }
    }
}

/// How many of the first `upto` regions have room for their presents.
pub open spec fn count_fits(shapes: Seq<ShapeModel>, regions: Seq<RegionModel>, upto: int) -> Result<
    nat,
    PuzzleError,
>
    decreases upto,
{
    if upto <= 0 {
        Ok(0)
    } else {
        match count_fits(shapes, regions, upto - 1) {
            Err(error) => Err(error),
            Ok(count) => match region_fits(shapes, regions[upto - 1]) {
                Err(error) => Err(error),
                Ok(fits) => Ok(
                    if fits {
                        count + 1
                    } else {
                        count
                    },
                ),
            },
        }
    }
}

proof fn lemma_count_fits_fails(shapes: Seq<ShapeModel>, regions: Seq<RegionModel>, n: int, upto: int)
    requires
        0 <= n <= upto,
        count_fits(shapes, regions, n) is Err,
    ensures
        count_fits(shapes, regions, upto) == count_fits(shapes, regions, n),
    decreases upto - n,
{
    if n < upto {
        lemma_count_fits_fails(shapes, regions, n, upto - 1);
    }
}

/// What counting the regions with room gives for what was read of an
/// input: the count, or the first error on the way.
pub open spec fn answer(read: Result<(Seq<Shape>, Seq<RegionModel>), PuzzleError>) -> Result<u64, PuzzleError> {
    match read {
        Err(error) => Err(error),
        Ok((shapes, regions)) => match count_fits(shape_models(shapes), regions, regions.len() as int) {
            Err(error) => Err(error),
            Ok(count) => Ok(count as u64),
        },
    }
}

/// Counts the regions of `input` that have room for their presents: the
/// answer is what [`count_fits`] says of the shapes and regions that
/// `input` holds, and an input that cannot be read is refused as
/// [`reads`] says.
pub fn a(input: &str) -> (r: Result<u64, PuzzleError>)
    ensures
        exists|read: Result<(Seq<Shape>, Seq<RegionModel>), PuzzleError>| #[trigger]
            reads(input@, read) && r == answer(read),
{
    let (shapes, regions) = match parse(input) {
        Ok(parsed) => parsed,
        Err(error) => {
            assert(reads(input@, Err(error)) && answer(Err(error)) == Err::<u64, PuzzleError>(error));
            return Err(error);
        },
    };
    let ghost read = Ok::<(Seq<Shape>, Seq<RegionModel>), PuzzleError>((shapes@, region_models(regions@)));
    assert(reads(input@, read));
    let ghost models = shape_models(shapes@);
    let ghost places = region_models(regions@);
    let mut width: i64 = 0;
    let mut height: i64 = 0;
    let mut i: usize = 0;
    while i < shapes.len()
        invariant
            i <= shapes@.len(),
            models == shape_models(shapes@),
            (width as int, height as int) == largest_size(models, i as int),
        decreases shapes.len() - i,
    {
        let size = shapes[i].size;
        assert(models[i as int] == shapes@[i as int].model());
        if size.x > width {
            width = size.x;
        }
        if size.y > height {
            height = size.y;
        }
        i += 1;
    }
    let mut count: u64 = 0;
    let mut k: usize = 0;
    while k < regions.len()
        invariant
            k <= regions@.len(),
            count <= k,
            models == shape_models(shapes@),
            places == region_models(regions@),
            (width as int, height as int) == largest_size(models, models.len() as int),
            count_fits(models, places, k as int) == Ok::<nat, PuzzleError>(count as nat),
            read == Ok::<(Seq<Shape>, Seq<RegionModel>), PuzzleError>((shapes@, places)),
            reads(input@, read),
        decreases regions.len() - k,
    {
        let region = &regions[k];
        assert(places[k as int] == region.model());
        proof {
            if region_fits(models, places[k as int]) is Err {
                lemma_count_fits_fails(models, places, k + 1, places.len() as int);
            }
        }
        if width <= 0 || height <= 0 {
            return Err(PuzzleError::InvalidInput);
        }
        if can_fit_upper_shape_bound(vec2(width, height), region) {
            count += 1;
        } else {
            let (upper, exact) = match can_fit_piece_count(&shapes, region) {
                Some(fits) => fits,
                None => {
                    return Err(PuzzleError::Overflow);
                },
            };
            if upper != exact {
                return Err(PuzzleError::UnexpectedState { upper, exact });
            }
            if upper {
                count += 1;
            }
        }
        k += 1;
    }
    proof {
        assert(count_fits(shape_models(shapes@), places, places.len() as int) == Ok::<nat, PuzzleError>(
            count as nat,
        ));
    }
    Ok(count)
}

/// The solver of the one part.
pub fn solution() -> (solution: Solution)
    ensures
        solution.part_a() is Some,
        solution.part_b() is None,
{
    Solution::new().with_a(|input: &str| -> (r: Result<u64, String>) { shown(a(input)) })
}

} // verus!
