//! Grids of bits shown as braille patterns, eight cells to a glyph.
use vstd::prelude::*;
use crate::util::grid::Grid;
use crate::util::output::Output;
use crate::util::text::{char_from_u32, joined, joined_from, push_char};

verus! {

/// An element that shows as one bit.
pub trait AsBit {
    /// Whether the bit is set.
    spec fn bit(&self) -> bool;

    fn as_bit(&self) -> (b: bool)
        ensures
            b == self.bit(),
    ;
}

impl AsBit for bool {
    open spec fn bit(&self) -> bool {
        *self
    }

    fn as_bit(&self) -> (b: bool) {
        *self
    }
}

/// A grid that is shown as braille patterns.
pub struct Bitmap<T>(pub Grid<T>);

/// A borrowed grid, shown as braille patterns.
pub struct BitmapDisplay<'g, T>(pub &'g Grid<T>);

/// How many glyphs wide a grid of `width` columns is shown: two columns to
/// a glyph, rounded up.
pub open spec fn spec_braille_width(width: nat) -> nat {
    (width + 1) / 2
}

/// How many glyphs high a grid of `height` rows is shown: four rows to a
/// glyph, rounded up.
pub open spec fn spec_braille_height(height: nat) -> nat {
    (height + 3) / 4
}

/// The number of glyphs that show `width` columns.
#[verifier::when_used_as_spec(spec_braille_width_u32)]
pub fn braille_width(width: u32) -> (glyphs: u32)
    ensures
        glyphs == spec_braille_width(width as nat),
        glyphs <= 0x8000_0000,
{
    let rem = width % 2;
    let width = width / 2;
    if rem != 0 {
        width + 1
    } else {
        width
    }
}

pub open spec fn spec_braille_width_u32(width: u32) -> u32 {
    spec_braille_width(width as nat) as u32
}

/// The number of glyphs that show `height` rows.
#[verifier::when_used_as_spec(spec_braille_height_u32)]
pub fn braille_height(height: u32) -> (glyphs: u32)
    ensures
        glyphs == spec_braille_height(height as nat),
        glyphs <= 0x4000_0000,
{
    let rem = height % 4;
    let height = height / 4;
    if rem != 0 {
        height + 1
    } else {
        height
    }
}

pub open spec fn spec_braille_height_u32(height: u32) -> u32 {
    spec_braille_height(height as nat) as u32
}

/// One for a set bit, zero for an unset one.
pub open spec fn weight(bit: bool) -> nat {
    if bit {
        1
    } else {
        0
    }
}

/// `bit` moved `shift` places up.
pub fn bb(bit: bool, shift: u32) -> (r: u32)
    requires
        shift < 32,
    ensures
        r == (if bit {
            1u32 << shift
        } else {
            0u32
        }),
{
    if bit {
        1u32 << shift
    } else {
        0u32
    }
}

/// The code point of the braille pattern with the given dots. The first
/// digit of a dot's name is its row from the top, the second its column.
/// The dots count, from the lowest bit up: the upper three of the left
/// column, the upper three of the right column, then the bottom left and the
/// bottom right.
pub open spec fn braille_code(
    d00: bool,
    d01: bool,
    d10: bool,
    d11: bool,
    d20: bool,
    d21: bool,
    d30: bool,
    d31: bool,
) -> nat {
    0x2800 + weight(d00) + 2 * weight(d10) + 4 * weight(d20) + 8 * weight(d01) + 16 * weight(d11) + 32
        * weight(d21) + 64 * weight(d30) + 128 * weight(d31)
}

/// Bits that lie in places of their own add up to what they are joined to.
proof fn lemma_dots(b0: u32, b1: u32, b2: u32, b3: u32, b4: u32, b5: u32, b6: u32, b7: u32)
    by (bit_vector)
    requires
        b0 == 0 || b0 == 1,
        b1 == 0 || b1 == 2,
        b2 == 0 || b2 == 4,
        b3 == 0 || b3 == 8,
        b4 == 0 || b4 == 16,
        b5 == 0 || b5 == 32,
        b6 == 0 || b6 == 64,
        b7 == 0 || b7 == 128,
    ensures
        0x2800u32 | (b0 | b1 | b2 | b3 | b4 | b5 | b6 | b7) == 0x2800 + b0 + b1 + b2 + b3 + b4 + b5 + b6 + b7,
{
}

/// A bit moved up is the weight of the bit times the power of two of its
/// place.
fn dot_bit(bit: bool, shift: u32) -> (r: u32)
    requires
        shift < 8,
    ensures
        shift == 0 ==> r == weight(bit),
        shift == 1 ==> r == 2 * weight(bit),
        shift == 2 ==> r == 4 * weight(bit),
        shift == 3 ==> r == 8 * weight(bit),
        shift == 4 ==> r == 16 * weight(bit),
        shift == 5 ==> r == 32 * weight(bit),
        shift == 6 ==> r == 64 * weight(bit),
        shift == 7 ==> r == 128 * weight(bit),
{
    assert(1u32 << 0u32 == 1) by (bit_vector);
    assert(1u32 << 1u32 == 2) by (bit_vector);
    assert(1u32 << 2u32 == 4) by (bit_vector);
    assert(1u32 << 3u32 == 8) by (bit_vector);
    assert(1u32 << 4u32 == 16) by (bit_vector);
    assert(1u32 << 5u32 == 32) by (bit_vector);
    assert(1u32 << 6u32 == 64) by (bit_vector);
    assert(1u32 << 7u32 == 128) by (bit_vector);
    bb(bit, shift)
}

/// The braille pattern with the given dots.
pub fn braille_char(
    d00: bool,
    d01: bool,
    d10: bool,
    d11: bool,
    d20: bool,
    d21: bool,
    d30: bool,
    d31: bool,
) -> (c: char)
    ensures
        c as u32 == braille_code(d00, d01, d10, d11, d20, d21, d30, d31),
{
    let b0 = dot_bit(d00, 0);
    let b1 = dot_bit(d10, 1);
    let b2 = dot_bit(d20, 2);
    let b3 = dot_bit(d01, 3);
    let b4 = dot_bit(d11, 4);
    let b5 = dot_bit(d21, 5);
    let b6 = dot_bit(d30, 6);
    let b7 = dot_bit(d31, 7);
    let dots_bits = b0 | b1 | b2 | b3 | b4 | b5 | b6 | b7;
    let codepoint = 0x2800u32 | dots_bits;
    proof {
        lemma_dots(b0, b1, b2, b3, b4, b5, b6, b7);
    }
    assert(codepoint == braille_code(d00, d01, d10, d11, d20, d21, d30, d31));
    match char_from_u32(codepoint) {
        Some(c) => c,
        None => {
            assert(false);
            ' '
        },
    }
}

/// The pattern of no dots is U+2800, that of all eight is U+28FF.
pub proof fn lemma_braille_range()
    ensures
        braille_code(false, false, false, false, false, false, false, false) == 0x2800,
        braille_code(true, true, true, true, true, true, true, true) == 0x28FF,
        forall|d00: bool, d01: bool, d10: bool, d11: bool, d20: bool, d21: bool, d30: bool, d31: bool|
            0x2800 <= #[trigger] braille_code(d00, d01, d10, d11, d20, d21, d30, d31) <= 0x28FF,
{
}

/// Whether `grid` has a set bit in column `x` of row `y`. Outside the grid
/// no bit is set.
pub open spec fn dot<T: AsBit>(grid: &Grid<T>, x: int, y: int) -> bool {
    grid.contains(x, y) && grid.at(x, y).bit()
}

/// The code point of the glyph in column `gx` of row `gy` of glyphs: the
/// pattern of the two by four cells it covers.
pub open spec fn glyph_code<T: AsBit>(grid: &Grid<T>, gx: int, gy: int) -> nat {
    braille_code(
        dot(grid, 2 * gx, 4 * gy),
        dot(grid, 2 * gx + 1, 4 * gy),
        dot(grid, 2 * gx, 4 * gy + 1),
        dot(grid, 2 * gx + 1, 4 * gy + 1),
        dot(grid, 2 * gx, 4 * gy + 2),
        dot(grid, 2 * gx + 1, 4 * gy + 2),
        dot(grid, 2 * gx, 4 * gy + 3),
        dot(grid, 2 * gx + 1, 4 * gy + 3),
    )
}

/// Row `gy` of glyphs.
pub open spec fn glyph_row<T: AsBit>(grid: &Grid<T>, gy: int) -> Seq<char> {
    Seq::new(spec_braille_width(grid.spec_width()), |gx: int| glyph_code(grid, gx, gy) as char)
}

/// The rows of glyphs, from top to bottom.
pub open spec fn glyph_rows<T: AsBit>(grid: &Grid<T>) -> Seq<Seq<char>> {
    Seq::new(spec_braille_height(grid.spec_height()), |gy: int| glyph_row(grid, gy))
}

/// What `grid` is shown as: its rows of glyphs with a line feed between each
/// two.
pub open spec fn braille_text<T: AsBit>(grid: &Grid<T>) -> Seq<char> {
    joined(glyph_rows(grid))
}

impl<T: AsBit> BitmapDisplay<'_, T> {
    /// Whether the grid has a set bit in column `x` of row `y`.
    pub fn bit(&self, x: u32, y: u32) -> (b: bool)
        ensures
            b == dot(self.0, x as int, y as int),
    {
        match self.0.get(x, y) {
            Some(cell) => cell.as_bit(),
            None => false,
        }
    }

    /// The glyph in column `x` of row `y` of glyphs.
    pub fn braille(&self, x: u32, y: u32) -> (c: char)
        requires
            2 * x + 1 <= u32::MAX,
            4 * y + 3 <= u32::MAX,
        ensures
            c as u32 == glyph_code(self.0, x as int, y as int),
            c == glyph_code(self.0, x as int, y as int) as char,
    {
        let x0 = x * 2;
        let x1 = x0 + 1;
        let y0 = y * 4;
        let y1 = y0 + 1;
        let y2 = y0 + 2;
        let y3 = y0 + 3;
        braille_char(
            self.bit(x0, y0),
            self.bit(x1, y0),
            self.bit(x0, y1),
            self.bit(x1, y1),
            self.bit(x0, y2),
            self.bit(x1, y2),
            self.bit(x0, y3),
            self.bit(x1, y3),
        )
    }

    /// Renders the grid as rows of braille patterns.
    pub fn render(&self) -> (s: String)
        ensures
            s@ == braille_text(self.0),
    {
        let width = braille_width(self.0.width());
        let height = braille_height(self.0.height());
        let ghost rows = glyph_rows(self.0);
        let mut out = String::new();
        let mut y: u32 = 0;
        assert(out@ + joined_from(rows, 0) =~= joined(rows));
        while y < height
            invariant
                y <= height,
                width == spec_braille_width(self.0.spec_width()),
                height == spec_braille_height(self.0.spec_height()),
                width <= 0x8000_0000,
                height <= 0x4000_0000,
                rows == glyph_rows(self.0),
                out@ + joined_from(rows, y as int) == joined(rows),
            decreases height - y,
        {
            let ghost before = out@;
            if y != 0 {
                push_char(&mut out, '\n');
            }
            let ghost start = out@;
            let mut x: u32 = 0;
            assert(out@ =~= start + rows[y as int].take(0));
            while x < width
                invariant
                    x <= width,
                    y < height,
                    width == spec_braille_width(self.0.spec_width()),
                    height == spec_braille_height(self.0.spec_height()),
                    width <= 0x8000_0000,
                    height <= 0x4000_0000,
                    rows == glyph_rows(self.0),
                    out@ == start + rows[y as int].take(x as int),
                decreases width - x,
            {
                let ch = self.braille(x, y);
                push_char(&mut out, ch);
                assert(rows[y as int].take(x as int).push(ch) =~= rows[y as int].take(x + 1));
                assert(out@ =~= start + rows[y as int].take(x + 1));
                x += 1;
            }
            proof {
                assert(rows[y as int].take(x as int) =~= rows[y as int]);
                assert(out@ + joined_from(rows, y + 1) =~= before + joined_from(rows, y as int));
            }
            y += 1;
        }
        assert(out@ + joined_from(rows, y as int) =~= out@);
        out
    }
}

impl<T: AsBit> Output for Bitmap<T> {
    open spec fn text(&self) -> Seq<char> {
        braille_text(&self.0)
    }

    open spec fn multiline(&self) -> bool {
        true
    }

    fn render(&self) -> (s: String) {
        BitmapDisplay(&self.0).render()
    }

    fn is_multiline(&self) -> (b: bool) {
        true
    }
}

} // verus!
