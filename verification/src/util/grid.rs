//! A dense two-dimensional grid, read from text and shown as text.
use vstd::prelude::*;
use std::str::FromStr;
use crate::util::char::{FromChar, StyledChar, ToStyledChar};
use crate::util::output::Output;
use crate::util::style::{Style, StyleDiff, StyleTracker};
use crate::util::text::{
    concat, joined, joined_from, lemma_concat_prefix, lemma_concat_rectangle, lemma_lines_bounds, lines,
    push_char, split_lines, to_chars, views,
};

verus! {

/// Why a buffer cannot be laid out as a grid of a given width and height.
#[derive(Debug, Clone, Copy, PartialEq, Eq, Structural)]
pub enum ShapeError {
    /// The buffer holds more elements than the grid has cells.
    IncompatibleShape,
    /// The buffer holds fewer elements than the grid has cells.
    OutOfBounds,
    /// The grid has more cells than any buffer can hold.
    Overflow,
}

/// The number of cells that bounds a grid's buffer: the product of the two
/// sides, where an empty side counts as one.
pub open spec fn extent(width: nat, height: nat) -> nat {
    (if width == 0 {
        1
    } else {
        width
    }) * (if height == 0 {
        1
    } else {
        height
    })
}

/// What laying out `len` elements as a grid of `width` by `height` gives:
/// nothing to object to, or the reason why it cannot be done.
pub open spec fn shape_check(width: nat, height: nat, len: nat) -> Option<ShapeError> {
    if extent(width, height) > isize::MAX {
        Some(ShapeError::Overflow)
    } else if width * height > len {
        Some(ShapeError::OutOfBounds)
    } else if width * height != len {
        Some(ShapeError::IncompatibleShape)
    } else {
        None
    }
}

/// A grid of `width` by `height` cells in one contiguous buffer. The buffer
/// holds the cells row after row, or, once the grid has been transposed an
/// odd number of times, column after column.
pub struct Grid<T> {
    cells: Vec<T>,
    cols: usize,
    rows: usize,
    by_columns: bool,
}

pub proof fn lemma_row_offset(x: int, y: int, width: int, height: int)
    requires
        0 <= x < width,
        0 <= y < height,
    ensures
        0 <= y * width + x < width * height,
        0 <= y * width <= y * width + x,
        width * height == height * width,
{
    assert(y * width + width <= height * width) by (nonlinear_arith)
        requires
            0 <= y < height,
            0 <= width,
    ;
    assert(0 <= y * width) by (nonlinear_arith)
        requires
            0 <= y,
            0 <= width,
    ;
    assert(height * width == width * height) by (nonlinear_arith);
}

fn cell_count(width: u32, height: u32) -> (size: usize)
    requires
        extent(width as nat, height as nat) <= isize::MAX,
    ensures
        size == width * height,
{
    assert(width * height <= extent(width as nat, height as nat)) by (nonlinear_arith)
        requires
            extent(width as nat, height as nat) == (if width == 0 {
                1
            } else {
                width as int
            }) * (if height == 0 {
                1
            } else {
                height as int
            }),
    ;
    width as usize * height as usize
}

impl<T> Grid<T> {
    /// The buffer has exactly one element for each cell, and both sides fit
    /// the 32-bit coordinates that cells are addressed by.
    #[verifier::type_invariant]
    pub closed spec fn wf(&self) -> bool {
        &&& self.cols * self.rows == self.cells@.len()
        &&& self.cols <= u32::MAX
        &&& self.rows <= u32::MAX
    }

    /// The number of columns.
    pub closed spec fn spec_width(&self) -> nat {
        self.cols as nat
    }

    /// The number of rows.
    pub closed spec fn spec_height(&self) -> nat {
        self.rows as nat
    }

    /// The cells in the order the buffer holds them.
    pub closed spec fn buffer(&self) -> Seq<T> {
        self.cells@
    }

    /// Whether the buffer holds the cells row after row.
    pub closed spec fn row_major(&self) -> bool {
        !self.by_columns
    }

    /// Whether the grid has a cell in column `x` of row `y`.
    pub open spec fn contains(&self, x: int, y: int) -> bool {
        0 <= x < self.spec_width() && 0 <= y < self.spec_height()
    }

    /// Where the buffer holds the cell in column `x` of row `y`.
    pub open spec fn offset(&self, x: int, y: int) -> int {
        if self.row_major() {
            y * self.spec_width() + x
        } else {
            x * self.spec_height() + y
        }
    }

    /// The cell in column `x` of row `y`.
    pub open spec fn at(&self, x: int, y: int) -> T {
        self.buffer()[self.offset(x, y)]
    }

    /// Every cell has a place of its own in the buffer.
    pub proof fn lemma_offset(&self, x: int, y: int)
        requires
            self.wf(),
            self.contains(x, y),
        ensures
            0 <= self.offset(x, y) < self.buffer().len(),
            self.spec_width() * self.spec_height() == self.buffer().len(),
    {
        lemma_row_offset(x, y, self.spec_width() as int, self.spec_height() as int);
        lemma_row_offset(y, x, self.spec_height() as int, self.spec_width() as int);
    }

    /// Lays out `v` as a grid of `width` by `height`, row after row. Fails
    /// when `v` has not exactly one element for each cell.
    pub fn from_vec(width: u32, height: u32, v: Vec<T>) -> (r: Result<Grid<T>, ShapeError>)
        ensures
            match r {
                Ok(grid) => {
                    &&& shape_check(width as nat, height as nat, v@.len()) is None
                    &&& grid.wf()
                    &&& grid.spec_width() == width
                    &&& grid.spec_height() == height
                    &&& grid.row_major()
                    &&& grid.buffer() == v@
                },
                Err(error) => shape_check(width as nat, height as nat, v@.len()) == Some(error),
            },
    {
        let w: usize = if width == 0 {
            1
        } else {
            width as usize
        };
        let h: usize = if height == 0 {
            1
        } else {
            height as usize
        };
        let size_nonzero = match w.checked_mul(h) {
            Some(size) => size,
            None => {
                return Err(ShapeError::Overflow);
            },
        };
        if size_nonzero > isize::MAX as usize {
            return Err(ShapeError::Overflow);
        }
        assert(width as usize * height as usize <= size_nonzero) by (nonlinear_arith)
            requires
                size_nonzero == w * h,
                width <= w,
                height <= h,
        ;
        let size: usize = width as usize * height as usize;
        if size > v.len() {
            return Err(ShapeError::OutOfBounds);
        }
        if size != v.len() {
            return Err(ShapeError::IncompatibleShape);
        }
        Ok(Grid { cells: v, cols: width as usize, rows: height as usize, by_columns: false })
    }

    /// A grid of `width` by `height` cells, each the default of its type.
    pub fn new(width: u32, height: u32) -> (grid: Grid<T>) where T: Default
        requires
            extent(width as nat, height as nat) <= isize::MAX,
        ensures
            grid.wf(),
            grid.spec_width() == width,
            grid.spec_height() == height,
            grid.row_major(),
            forall|i: int|
                0 <= i < grid.buffer().len() ==> call_ensures(T::default, (), #[trigger] grid.buffer()[i]),
    {
        let size = cell_count(width, height);
        let mut cells: Vec<T> = Vec::with_capacity(size);
        let mut i: usize = 0;
        while i < size
            invariant
                i <= size,
                cells@.len() == i,
                forall|j: int| 0 <= j < i ==> call_ensures(T::default, (), #[trigger] cells@[j]),
            decreases size - i,
        {
            cells.push(T::default());
            i += 1;
        }
        Grid { cells, cols: width as usize, rows: height as usize, by_columns: false }
    }

    /// A grid of `width` by `height` cells, each made by `f` from its row
    /// and its column, in that order.
    pub fn from_fn<F>(width: u32, height: u32, f: F) -> (grid: Grid<T>) where F: Fn(u32, u32) -> T
        requires
            extent(width as nat, height as nat) <= isize::MAX,
            forall|row: u32, column: u32| row < height && column < width ==> call_requires(f, (row, column)),
        ensures
            grid.wf(),
            grid.spec_width() == width,
            grid.spec_height() == height,
            grid.row_major(),
            forall|x: u32, y: u32|
                x < width && y < height ==> call_ensures(f, (y, x), #[trigger] grid.at(x as int, y as int)),
    {
        let size = cell_count(width, height);
        let mut cells: Vec<T> = Vec::with_capacity(size);
        let mut y: u32 = 0;
        while y < height
            invariant
                y <= height,
                size == width * height,
                cells@.len() == y * width,
                forall|row: u32, column: u32| row < height && column < width ==> call_requires(f, (row, column)),
                forall|x: u32, row: u32|
                    x < width && row < y ==> call_ensures(f, (row, x), #[trigger] cells@[row * width + x]),
            decreases height - y,
        {
            let mut x: u32 = 0;
            while x < width
                invariant
                    x <= width,
                    y < height,
                    size == width * height,
                    cells@.len() == y * width + x,
                    forall|row: u32, column: u32| row < height && column < width ==> call_requires(f, (row, column)),
                    forall|column: u32, row: u32|
                        column < width && row < y ==> call_ensures(
                            f,
                            (row, column),
                            #[trigger] cells@[row * width + column],
                        ),
                    forall|column: u32|
                        column < x ==> call_ensures(f, (y, column), #[trigger] cells@[y * width + column]),
                decreases width - x,
            {
                let ghost before = cells@;
                cells.push(f(y, x));
                proof {
                    assert forall|column: u32, row: u32| column < width && row < y implies call_ensures(
                        f,
                        (row, column),
                        #[trigger] cells@[row * width + column],
                    ) by {
                        lemma_row_offset(column as int, row as int, width as int, y as int);
                        assert(cells@[row * width + column] == before[row * width + column]);
                    }
                }
                x += 1;
            }
            proof {
                assert((y + 1) * width == y * width + width) by (nonlinear_arith);
                assert forall|x: u32, row: u32| x < width && row < y + 1 implies call_ensures(
                    f,
                    (row, x),
                    #[trigger] cells@[row * width + x],
                ) by {
                }
            }
            y += 1;
        }
        assert(height * width == width * height) by (nonlinear_arith);
        let grid = Grid { cells, cols: width as usize, rows: height as usize, by_columns: false };
        assert forall|x: u32, y: u32| x < width && y < height implies call_ensures(
            f,
            (y, x),
            #[trigger] grid.at(x as int, y as int),
        ) by {
            assert(grid.at(x as int, y as int) == cells@[y * width + x]);
        }
        grid
    }

    /// A grid of `width` by `height` cells, each a clone of `elem`.
    pub fn from_elem(width: u32, height: u32, elem: T) -> (grid: Grid<T>) where T: Clone
        requires
            extent(width as nat, height as nat) <= isize::MAX,
        ensures
            grid.wf(),
            grid.spec_width() == width,
            grid.spec_height() == height,
            grid.row_major(),
            forall|i: int| 0 <= i < grid.buffer().len() ==> cloned(elem, #[trigger] grid.buffer()[i]),
    {
        let size = cell_count(width, height);
        let mut cells: Vec<T> = Vec::with_capacity(size);
        let mut i: usize = 0;
        while i < size
            invariant
                i <= size,
                cells@.len() == i,
                forall|j: int| 0 <= j < i ==> cloned(elem, #[trigger] cells@[j]),
            decreases size - i,
        {
            cells.push(elem.clone());
            i += 1;
        }
        Grid { cells, cols: width as usize, rows: height as usize, by_columns: false }
    }

    /// The number of columns.
    pub fn width(&self) -> (w: u32)
        ensures
            w == self.spec_width(),
    {
        proof {
            use_type_invariant(self);
        }
        self.cols as u32
    }

    /// The number of rows.
    pub fn height(&self) -> (h: u32)
        ensures
            h == self.spec_height(),
    {
        proof {
            use_type_invariant(self);
        }
        self.rows as u32
    }

    fn index_of(&self, x: u32, y: u32) -> (i: usize)
        requires
            self.contains(x as int, y as int),
        ensures
            i == self.offset(x as int, y as int),
            i < self.buffer().len(),
    {
        proof {
            use_type_invariant(self);
            lemma_row_offset(x as int, y as int, self.cols as int, self.rows as int);
            lemma_row_offset(y as int, x as int, self.rows as int, self.cols as int);
            assert(self.contains(x as int, y as int));
            assert(0 <= x < self.cols && 0 <= y < self.rows);
        }
        let column: usize = x as usize;
        let row: usize = y as usize;
        if self.by_columns {
            assert(0 <= column * self.rows <= column * self.rows + row < self.cells.len());
            column * self.rows + row
        } else {
            assert(0 <= row * self.cols <= row * self.cols + column < self.cells.len());
            row * self.cols + column
        }
    }

    /// The cell in column `x` of row `y`, if the grid has one there.
    pub fn get(&self, x: u32, y: u32) -> (r: Option<&T>)
        ensures
            r == if self.contains(x as int, y as int) {
                Some(&self.at(x as int, y as int))
            } else {
                None
            },
    {
        if (x as usize) < self.cols && (y as usize) < self.rows {
            let i = self.index_of(x, y);
            Some(&self.cells[i])
        } else {
            None
        }
    }

    /// The cell in column `x` of row `y`, to be changed in place, if the grid
    /// has one there.
    pub fn get_mut(&mut self, x: u32, y: u32) -> (r: Option<&mut T>)
        ensures
            old(self).contains(x as int, y as int) <==> r is Some,
            match r {
                Some(cell) => {
                    &&& *cell == old(self).at(x as int, y as int)
                    &&& final(self).buffer() == old(self).buffer().update(
                        old(self).offset(x as int, y as int),
                        *final(cell),
                    )
                },
                None => final(self).buffer() == old(self).buffer(),
            },
            final(self).wf(),
            final(self).spec_width() == old(self).spec_width(),
            final(self).spec_height() == old(self).spec_height(),
            final(self).row_major() == old(self).row_major(),
    {
        proof {
            use_type_invariant(&*self);
        }
        if (x as usize) < self.cols && (y as usize) < self.rows {
            let i = self.index_of(x, y);
            Some(&mut self.cells[i])
        } else {
            None
        }
    }

    /// Puts `value` in column `x` of row `y` and returns what was there. A
    /// grid without such a cell is left as it is, and `value` is dropped.
    pub fn set(&mut self, x: u32, y: u32, value: T) -> (r: Option<T>)
        ensures
            final(self).wf(),
            final(self).spec_width() == old(self).spec_width(),
            final(self).spec_height() == old(self).spec_height(),
            final(self).row_major() == old(self).row_major(),
            old(self).contains(x as int, y as int) ==> r == Some(old(self).at(x as int, y as int))
                && final(self).buffer() == old(self).buffer().update(
                old(self).offset(x as int, y as int),
                value,
            ),
            !old(self).contains(x as int, y as int) ==> r is None,
            !old(self).contains(x as int, y as int) ==> final(self).buffer() == old(self).buffer(),
    {
        proof {
            use_type_invariant(&*self);
        }
        if (x as usize) < self.cols && (y as usize) < self.rows {
            let i = self.index_of(x, y);
            let mut value = value;
            std::mem::swap(&mut self.cells[i], &mut value);
            Some(value)
        } else {
            None
        }
    }

    /// The element that the buffer holds at `index`, if it is that long.
    pub fn get_at(&self, index: usize) -> (r: Option<&T>)
        ensures
            r == if index < self.buffer().len() {
                Some(&self.buffer()[index as int])
            } else {
                None
            },
    {
        if index < self.cells.len() {
            Some(&self.cells[index])
        } else {
            None
        }
    }

    /// The element that the buffer holds at `index`, to be changed in place,
    /// if the buffer is that long.
    pub fn get_at_mut(&mut self, index: usize) -> (r: Option<&mut T>)
        ensures
            index < old(self).buffer().len() <==> r is Some,
            match r {
                Some(cell) => {
                    &&& *cell == old(self).buffer()[index as int]
                    &&& final(self).buffer() == old(self).buffer().update(index as int, *final(cell))
                },
                None => final(self).buffer() == old(self).buffer(),
            },
            final(self).wf(),
            final(self).spec_width() == old(self).spec_width(),
            final(self).spec_height() == old(self).spec_height(),
            final(self).row_major() == old(self).row_major(),
    {
        proof {
            use_type_invariant(&*self);
        }
        if index < self.cells.len() {
            Some(&mut self.cells[index])
        } else {
            None
        }
    }

    /// Puts `value` where the buffer holds its element `index` and returns
    /// what was there. A shorter buffer is left as it is, and `value` is
    /// dropped.
    pub fn set_at_mut(&mut self, index: usize, value: T) -> (r: Option<T>)
        ensures
            final(self).wf(),
            final(self).spec_width() == old(self).spec_width(),
            final(self).spec_height() == old(self).spec_height(),
            final(self).row_major() == old(self).row_major(),
            index < old(self).buffer().len() ==> r == Some(old(self).buffer()[index as int]),
            index < old(self).buffer().len() ==> final(self).buffer() == old(self).buffer().update(
                index as int,
                value,
            ),
            index >= old(self).buffer().len() ==> r is None,
            index >= old(self).buffer().len() ==> final(self).buffer() == old(self).buffer(),
    {
        proof {
            use_type_invariant(&*self);
        }
        if index < self.cells.len() {
            let mut value = value;
            std::mem::swap(&mut self.cells[index], &mut value);
            Some(value)
        } else {
            None
        }
    }

    /// The cells of row `y`, from the first column to the last.
    pub fn row(&self, y: u32) -> (cells: Vec<&T>)
        requires
            y < self.spec_height(),
        ensures
            cells@.len() == self.spec_width(),
            forall|x: int| 0 <= x < self.spec_width() ==> *(#[trigger] cells@[x]) == self.at(x, y as int),
    {
        let width = self.width();
        let mut cells: Vec<&T> = Vec::new();
        let mut x: u32 = 0;
        while x < width
            invariant
                x <= width,
                width == self.spec_width(),
                y < self.spec_height(),
                cells@.len() == x,
                forall|j: int| 0 <= j < x ==> *(#[trigger] cells@[j]) == self.at(j, y as int),
            decreases width - x,
        {
            match self.get(x, y) {
                Some(cell) => {
                    cells.push(cell);
                },
                None => {
                    assert(false);
                },
            }
            x += 1;
        }
        cells
    }

    /// The cells of column `x`, from the first row to the last.
    pub fn column(&self, x: u32) -> (cells: Vec<&T>)
        requires
            x < self.spec_width(),
        ensures
            cells@.len() == self.spec_height(),
            forall|y: int| 0 <= y < self.spec_height() ==> *(#[trigger] cells@[y]) == self.at(x as int, y),
    {
        let height = self.height();
        let mut cells: Vec<&T> = Vec::new();
        let mut y: u32 = 0;
        while y < height
            invariant
                y <= height,
                height == self.spec_height(),
                x < self.spec_width(),
                cells@.len() == y,
                forall|j: int| 0 <= j < y ==> *(#[trigger] cells@[j]) == self.at(x as int, j),
            decreases height - y,
        {
            match self.get(x, y) {
                Some(cell) => {
                    cells.push(cell);
                },
                None => {
                    assert(false);
                },
            }
            y += 1;
        }
        cells
    }

    /// The rows, from the first to the last, each from its first column to
    /// its last.
    pub fn rows(&self) -> (rows: Vec<Vec<&T>>)
        ensures
            rows@.len() == self.spec_height(),
            forall|y: int| 0 <= y < self.spec_height() ==> (#[trigger] rows@[y])@.len() == self.spec_width(),
            forall|x: int, y: int|
                self.contains(x, y) ==> *(#[trigger] rows@[y]@[x]) == self.at(x, y),
    {
        let height = self.height();
        let mut rows: Vec<Vec<&T>> = Vec::new();
        let mut y: u32 = 0;
        while y < height
            invariant
                y <= height,
                height == self.spec_height(),
                rows@.len() == y,
                forall|j: int| 0 <= j < y ==> (#[trigger] rows@[j])@.len() == self.spec_width(),
                forall|x: int, j: int|
                    0 <= x < self.spec_width() && 0 <= j < y ==> *(#[trigger] rows@[j]@[x]) == self.at(x, j),
            decreases height - y,
        {
            let row = self.row(y);
            rows.push(row);
            y += 1;
        }
        rows
    }

    /// The columns, from the first to the last, each from its first row to
    /// its last.
    pub fn columns(&self) -> (columns: Vec<Vec<&T>>)
        ensures
            columns@.len() == self.spec_width(),
            forall|x: int|
                0 <= x < self.spec_width() ==> (#[trigger] columns@[x])@.len() == self.spec_height(),
            forall|x: int, y: int|
                self.contains(x, y) ==> *(#[trigger] columns@[x]@[y]) == self.at(x, y),
    {
        let width = self.width();
        let mut columns: Vec<Vec<&T>> = Vec::new();
        let mut x: u32 = 0;
        while x < width
            invariant
                x <= width,
                width == self.spec_width(),
                columns@.len() == x,
                forall|j: int| 0 <= j < x ==> (#[trigger] columns@[j])@.len() == self.spec_height(),
                forall|j: int, y: int|
                    0 <= j < x && 0 <= y < self.spec_height() ==> *(#[trigger] columns@[j]@[y]) == self.at(
                        j,
                        y,
                    ),
            decreases width - x,
        {
            let column = self.column(x);
            columns.push(column);
            x += 1;
        }
        columns
    }

    /// Exchanges rows and columns without moving any element: what was in
    /// column `x` of row `y` is in column `y` of row `x` afterwards.
    pub fn transpose(&mut self)
        ensures
            final(self).wf(),
            final(self).spec_width() == old(self).spec_height(),
            final(self).spec_height() == old(self).spec_width(),
            final(self).buffer() == old(self).buffer(),
            final(self).row_major() == !old(self).row_major(),
            forall|x: int, y: int| final(self).at(x, y) == old(self).at(y, x),
    {
        proof {
            use_type_invariant(&*self);
        }
        assert(self.rows * self.cols == self.cols * self.rows) by (nonlinear_arith);
        std::mem::swap(&mut self.cols, &mut self.rows);
        self.by_columns = !self.by_columns;
    }
}

/// Why a text is not a grid.
pub enum ParseGridError<E> {
    /// The characters do not fill a rectangle.
    Shape(ShapeError),
    /// The character in column `position.0` of line `position.1`, both
    /// counted from zero, stands for no element.
    Element { position: (u32, u32), error: E },
}

impl<E> From<ShapeError> for ParseGridError<E> {
    fn from(error: ShapeError) -> (r: ParseGridError<E>) {
        ParseGridError::Shape(error)
    }
}

impl<E> vstd::std_specs::convert::FromSpecImpl<ShapeError> for ParseGridError<E> {
    open spec fn obeys_from_spec() -> bool {
        true
    }

    open spec fn from_spec(error: ShapeError) -> ParseGridError<E> {
        ParseGridError::Shape(error)
    }
}

/// The width a text's lines ask for: the length of the first.
pub open spec fn first_len(rows: Seq<Seq<char>>) -> nat {
    if rows.len() == 0 {
        0
    } else {
        rows[0].len()
    }
}

impl<T: FromChar> Grid<T> {
    /// Whether `r` is what reading `s` gives: the grid of its characters;
    /// or the first character, in reading order, that stands for no
    /// element, with its place; or, where every character stands for one,
    /// why the lines make no rectangle.
    pub open spec fn reads(s: Seq<char>, r: Result<Grid<T>, ParseGridError<T::Err>>) -> bool {
        let rows = lines(s);
        let flat = concat(rows);
        match r {
            Ok(grid) => {
                &&& forall|i: int| 0 <= i < flat.len() ==> (#[trigger] T::parsed(flat[i])) is Ok
                &&& shape_check(first_len(rows), rows.len(), flat.len()) is None
                &&& grid.wf()
                &&& grid.spec_width() == first_len(rows)
                &&& grid.spec_height() == rows.len()
                &&& grid.row_major()
                &&& grid.buffer().len() == flat.len()
                &&& forall|i: int|
                    0 <= i < flat.len() ==> #[trigger] T::parsed(flat[i]) == Ok::<T, T::Err>(
                        grid.buffer()[i],
                    )
            },
            Err(ParseGridError::Shape(error)) => {
                &&& forall|i: int| 0 <= i < flat.len() ==> (#[trigger] T::parsed(flat[i])) is Ok
                &&& shape_check(first_len(rows), rows.len(), flat.len()) == Some(error)
            },
            Err(ParseGridError::Element { position, error }) => {
                let at = concat(rows.take(position.1 as int)).len() + position.0;
                &&& position.1 < rows.len()
                &&& position.0 < rows[position.1 as int].len()
                &&& at < flat.len()
                &&& flat[at] == rows[position.1 as int][position.0 as int]
                &&& T::parsed(flat[at]) == Err::<T, T::Err>(error)
                &&& forall|i: int| 0 <= i < at ==> (#[trigger] T::parsed(flat[i])) is Ok
            },
        }
    }

    /// Reads a grid from `s`: one row for each line, one cell for each
    /// character. The first line gives the width. The first character, in
    /// reading order, that stands for no element is reported with its
    /// place; where there is none, the characters must fill the rectangle.
    pub fn parse(s: &str) -> (r: Result<Grid<T>, ParseGridError<T::Err>>)
        requires
            s@.len() <= u32::MAX,
        ensures
            Grid::<T>::reads(s@, r),
    {
        let chars = to_chars(s);
        let rows = split_lines(&chars);
        let ghost texts = lines(s@);
        let ghost flat = concat(texts);
        proof {
            lemma_lines_bounds(s@);
            assert(views(rows@) == texts);
        }
        assert(rows@.len() == texts.len());
        let mut v: Vec<T> = Vec::new();
        let mut y: usize = 0;
        assert(texts.take(0) =~= Seq::<Seq<char>>::empty());
        while y < rows.len()
            invariant
                y <= rows.len(),
                views(rows@) == texts,
                texts == lines(s@),
                flat == concat(texts),
                rows@.len() == texts.len(),
                texts.len() <= u32::MAX,
                forall|i: int| 0 <= i < texts.len() ==> (#[trigger] texts[i]).len() <= u32::MAX,
                v@.len() == concat(texts.take(y as int)).len(),
                v@.len() <= flat.len(),
                forall|i: int| 0 <= i < v@.len() ==> #[trigger] T::parsed(flat[i]) == Ok::<T, T::Err>(v@[i]),
            decreases rows.len() - y,
        {
            let row = &rows[y];
            let ghost start = v@.len();
            proof {
                assert(row@ == texts[y as int]);
                lemma_concat_prefix(texts, y as int);
                lemma_concat_prefix(texts, y + 1);
            }
            let mut x: usize = 0;
            while x < row.len()
                invariant
                    x <= row.len(),
                    y < rows.len(),
                    row@ == texts[y as int],
                    row@.len() <= u32::MAX,
                    texts.len() <= u32::MAX,
                    rows@.len() == texts.len(),
                    texts == lines(s@),
                    flat == concat(texts),
                    start == concat(texts.take(y as int)).len(),
                    concat(texts.take(y + 1)) == concat(texts.take(y as int)) + row@,
                    concat(texts.take(y + 1)).len() <= flat.len(),
                    flat.take(concat(texts.take(y + 1)).len() as int) == concat(texts.take(y + 1)),
                    v@.len() == start + x,
                    forall|i: int| 0 <= i < v@.len() ==> #[trigger] T::parsed(flat[i]) == Ok::<T, T::Err>(v@[i]),
                decreases row.len() - x,
            {
                let ch = row[x];
                proof {
                    let upto = concat(texts.take(y + 1));
                    assert(flat[start + x] == flat.take(upto.len() as int)[start + x]);
                    assert(upto[start + x] == row@[x as int]);
                }
                match T::from_char(ch) {
                    Ok(elem) => {
                        v.push(elem);
                    },
                    Err(error) => {
                        return Err(ParseGridError::Element { position: (x as u32, y as u32), error });
                    },
                }
                x += 1;
            }
            y += 1;
        }
        proof {
            assert(texts.take(y as int) =~= texts);
        }
        let width: usize = if rows.len() > 0 {
            rows[0].len()
        } else {
            0
        };
        assert(width == first_len(texts)) by {
            if rows@.len() > 0 {
                assert(rows@[0]@ == texts[0]);
            }
        }
        match Grid::from_vec(width as u32, rows.len() as u32, v) {
            Ok(grid) => Ok(grid),
            Err(error) => Err(ParseGridError::Shape(error)),
        }
    }
}

impl<T: FromChar> FromStr for Grid<T> {
    type Err = ParseGridError<T::Err>;

    /// Reads a grid as [`Grid::parse`] does; a text too long for 32-bit
    /// coordinates is refused as too large a shape.
    fn from_str(s: &str) -> (r: Result<Grid<T>, ParseGridError<T::Err>>)
        ensures
            s@.len() > u32::MAX ==> r == Err::<Grid<T>, ParseGridError<T::Err>>(
                ParseGridError::Shape(ShapeError::Overflow),
            ),
            s@.len() <= u32::MAX ==> Grid::<T>::reads(s@, r),
    {
        if s.unicode_len() > u32::MAX as usize {
            Err(ParseGridError::Shape(ShapeError::Overflow))
        } else {
            Grid::parse(s)
        }
    }
}

/// What is written for one row of styled characters by a tracker in state
/// `tracker`: before each character the way from the style before it to its
/// own, and after the last the way back to the clear style.
pub open spec fn cells_text(cells: Seq<StyledChar>, tracker: StyleTracker) -> Seq<char>
    decreases cells.len(),
{
    if cells.len() == 0 {
        tracker.clear_diff().escape()
    } else {
        tracker.style_diff(cells[0].style).escape() + seq![cells[0].ch] + cells_text(
            cells.skip(1),
            tracker.after_style(cells[0].style),
        )
    }
}

impl<T: ToStyledChar> Grid<T> {
    /// Row `y` as the styled characters its cells are shown as.
    pub open spec fn styled_row(&self, y: int) -> Seq<StyledChar> {
        Seq::new(self.spec_width(), |x: int| self.at(x, y).styled())
    }

    /// What is written for the rows from `y` on: each row as
    /// [`cells_text`] gives it for a tracker in the clear style, with a line
    /// feed before every row but the first of the grid.
    pub open spec fn rows_text(&self, y: int, enabled: bool) -> Seq<char>
        decreases self.spec_height() - y,
    {
        if y < 0 || y >= self.spec_height() {
            Seq::empty()
        } else {
            (if y == 0 {
                Seq::empty()
            } else {
                seq!['\n']
            }) + cells_text(self.styled_row(y), StyleTracker::new(enabled)) + self.rows_text(y + 1, enabled)
        }
    }

    /// What the grid is shown as: its rows from top to bottom.
    pub open spec fn text_with(&self, enabled: bool) -> Seq<char> {
        self.rows_text(0, enabled)
    }

    /// Renders the grid row by row. With `enabled` unset no escape sequence
    /// is written, whatever the styles of the cells.
    pub fn render_with(&self, enabled: bool) -> (s: String)
        ensures
            s@ == self.text_with(enabled),
    {
        let mut out = String::new();
        let mut tracker = StyleTracker::new(enabled);
        let width = self.width();
        let height = self.height();
        let mut y: u32 = 0;
        assert(out@ + self.rows_text(0, enabled) =~= self.text_with(enabled));
        while y < height
            invariant
                y <= height,
                width == self.spec_width(),
                height == self.spec_height(),
                tracker == StyleTracker::new(enabled),
                out@ + self.rows_text(y as int, enabled) == self.text_with(enabled),
            decreases height - y,
        {
            let ghost before = out@;
            let ghost row = self.styled_row(y as int);
            if y != 0 {
                push_char(&mut out, '\n');
            }
            let ghost start = out@;
            let mut x: u32 = 0;
            proof {
                tracker.lemma_new(enabled);
            }
            assert(row.skip(0) =~= row);
            assert(out@ + cells_text(row.skip(0), tracker) =~= start + cells_text(row, StyleTracker::new(enabled)));
            while x < width
                invariant
                    x <= width,
                    y < height,
                    width == self.spec_width(),
                    height == self.spec_height(),
                    row == self.styled_row(y as int),
                    tracker.enabled() == enabled,
                    !enabled ==> tracker == StyleTracker::new(enabled),
                    out@ + cells_text(row.skip(x as int), tracker) == start + cells_text(
                        row,
                        StyleTracker::new(enabled),
                    ),
                decreases width - x,
            {
                let ghost rest = row.skip(x as int);
                let ghost entry = tracker;
                let ghost written = out@;
                let sch = match self.get(x, y) {
                    Some(cell) => cell.to_styled_char(),
                    None => {
                        assert(false);
                        StyledChar { ch: ' ', style: Style::clear() }
                    },
                };
                assert(sch == rest[0]);
                let diff = tracker.style(sch.style);
                diff.write_escape(&mut out);
                push_char(&mut out, sch.ch);
                proof {
                    entry.lemma_steps(sch.style);
                    assert(rest.skip(1) =~= row.skip(x + 1));
                    assert(out@ + cells_text(row.skip(x + 1), tracker) =~= written + cells_text(rest, entry));
                }
                x += 1;
            }
            let ghost last = tracker;
            let ghost written = out@;
            let clear = tracker.clear();
            clear.write_escape(&mut out);
            proof {
                last.lemma_steps(Style::clear());
                tracker.lemma_new(enabled);
                assert(row.skip(x as int) =~= Seq::<StyledChar>::empty());
                assert(out@ == start + cells_text(row, StyleTracker::new(enabled)));
                assert(out@ + self.rows_text(y + 1, enabled) =~= before + self.rows_text(y as int, enabled));
            }
            y += 1;
        }
        assert(out@ + self.rows_text(y as int, enabled) =~= out@);
        out
    }
}

impl<T: ToStyledChar> Output for Grid<T> {
    open spec fn text(&self) -> Seq<char> {
        self.text_with(true)
    }

    open spec fn multiline(&self) -> bool {
        true
    }

    fn render(&self) -> (s: String) {
        self.render_with(true)
    }

    fn is_multiline(&self) -> (b: bool) {
        true
    }
}

/// The characters of `cells` without their styles.
pub open spec fn plain(cells: Seq<StyledChar>) -> Seq<char> {
    cells.map_values(|cell: StyledChar| cell.ch)
}

/// A row in which every character has the clear style is written as its
/// characters and nothing else, by a tracker that holds the clear style.
pub proof fn lemma_clear_cells(cells: Seq<StyledChar>, tracker: StyleTracker)
    requires
        forall|i: int| 0 <= i < cells.len() ==> (#[trigger] cells[i]).style == Style::clear(),
        tracker.current() == Style::clear(),
    ensures
        cells_text(cells, tracker) == plain(cells),
    decreases cells.len(),
{
    tracker.lemma_steps(Style::clear());
    if cells.len() == 0 {
        assert(cells_text(cells, tracker) =~= plain(cells));
    } else {
        let rest = cells.skip(1);
        assert(cells[0].style == Style::clear());
        lemma_clear_cells(rest, tracker.after_style(Style::clear()));
        assert(tracker.style_diff(Style::clear()) == StyleDiff::Noop);
        assert(cells_text(cells, tracker) =~= plain(cells));
    }
}

/// Whether `grid` is the grid that the text `s` is read as when every
/// character stands for itself.
pub open spec fn reads_as(s: Seq<char>, grid: Grid<char>) -> bool {
    &&& grid.wf()
    &&& grid.spec_width() == first_len(lines(s))
    &&& grid.spec_height() == lines(s).len()
    &&& grid.row_major()
    &&& grid.buffer() == concat(lines(s))
}

/// Whether every line of `s` is as long as its first.
pub open spec fn rectangular(s: Seq<char>) -> bool {
    forall|i: int| 0 <= i < lines(s).len() ==> (#[trigger] lines(s)[i]).len() == first_len(lines(s))
}

/// A grid of characters read from a text whose lines are all of one length
/// is shown as those lines, one under the other, whether escape sequences
/// are enabled or not.
pub proof fn lemma_shown_as_read(s: Seq<char>, grid: Grid<char>, enabled: bool)
    requires
        reads_as(s, grid),
        rectangular(s),
    ensures
        grid.text_with(enabled) == joined(lines(s)),
{
    lemma_rows_as_read(s, grid, enabled, 0);
}

proof fn lemma_rows_as_read(s: Seq<char>, grid: Grid<char>, enabled: bool, y: int)
    requires
        reads_as(s, grid),
        rectangular(s),
        0 <= y <= lines(s).len(),
    ensures
        grid.rows_text(y, enabled) == joined_from(lines(s), y),
    decreases lines(s).len() - y,
{
    let rows = lines(s);
    if y < rows.len() {
        lemma_rows_as_read(s, grid, enabled, y + 1);
        let width = first_len(rows) as int;
        let row = grid.styled_row(y);
        let tracker = StyleTracker::new(enabled);
        tracker.lemma_new(enabled);
        lemma_clear_cells(row, tracker);
        assert(plain(row) =~= rows[y]) by {
            assert(rows[y].len() == width);
            assert forall|x: int| 0 <= x < width implies plain(row)[x] == rows[y][x] by {
                lemma_concat_rectangle(rows, width, x, y);
            }
        }
    }
}

/// Reading a text as a grid of characters and showing the grid gives the
/// text back, character for character, where the text is made of lines of
/// one length with a single line feed between each two and none at the end.
pub proof fn lemma_round_trip(s: Seq<char>, grid: Grid<char>, enabled: bool)
    requires
        reads_as(s, grid),
        rectangular(s),
        s == joined(lines(s)),
    ensures
        grid.text_with(enabled) == s,
{
    lemma_shown_as_read(s, grid, enabled);
}

} // verus!
