use advent::util::bitmap::{braille_char, braille_height, braille_width, Bitmap, BitmapDisplay};
use advent::util::char::StyledChar;
use advent::util::grid::{Grid, ParseGridError, ShapeError};
use advent::util::output::Output;
use advent::util::style::{Color, Style};

#[test]
fn braille_of_no_dots_and_of_all_dots() {
    assert_eq!(braille_char(false, false, false, false, false, false, false, false), '\u{2800}');
    assert_eq!(braille_char(true, true, true, true, true, true, true, true), '\u{28FF}');
}

#[test]
fn braille_dot_numbering() {
    assert_eq!(braille_char(true, false, false, false, false, false, false, false), '\u{2801}');
    assert_eq!(braille_char(false, true, false, false, false, false, false, false), '\u{2808}');
    assert_eq!(braille_char(false, false, true, false, false, false, false, false), '\u{2802}');
    assert_eq!(braille_char(false, false, false, true, false, false, false, false), '\u{2810}');
    assert_eq!(braille_char(false, false, false, false, true, false, false, false), '\u{2804}');
    assert_eq!(braille_char(false, false, false, false, false, true, false, false), '\u{2820}');
    assert_eq!(braille_char(false, false, false, false, false, false, true, false), '\u{2840}');
    assert_eq!(braille_char(false, false, false, false, false, false, false, true), '\u{2880}');
}

#[test]
fn braille_sizes_round_up() {
    assert_eq!(braille_width(0), 0);
    assert_eq!(braille_width(1), 1);
    assert_eq!(braille_width(2), 1);
    assert_eq!(braille_width(3), 2);
    assert_eq!(braille_height(4), 1);
    assert_eq!(braille_height(5), 2);
    assert_eq!(braille_width(u32::MAX), 0x8000_0000);
    assert_eq!(braille_height(u32::MAX), 0x4000_0000);
}

#[test]
fn bitmap_blocks_render_to_single_glyphs() {
    let empty = Grid::from_elem(2, 4, false);
    assert_eq!(BitmapDisplay(&empty).render(), "\u{2800}");
    let full = Grid::from_elem(2, 4, true);
    assert_eq!(BitmapDisplay(&full).render(), "\u{28FF}");
    assert!(Bitmap(full).is_multiline());
}

#[test]
fn bitmap_cells_outside_read_as_unset() {
    let grid = Grid::from_elem(3, 5, true);
    let text = Bitmap(grid).render();
    assert_eq!(text, "\u{28FF}\u{2847}\n\u{2809}\u{2801}");
}

#[test]
fn grid_round_trip() {
    let text = "abc\ndef";
    let grid: Grid<char> = text.parse().ok().unwrap();
    assert_eq!(grid.width(), 3);
    assert_eq!(grid.height(), 2);
    assert_eq!(grid.get(1, 1), Some(&'e'));
    assert_eq!(grid.get(3, 0), None);
    assert_eq!(grid.render_with(false), text);
    assert_eq!(grid.render(), text);
    assert!(grid.is_multiline());
}

#[test]
fn grid_parse_ignores_final_line_ending() {
    let grid: Grid<char> = Grid::parse("ab\r\ncd\n").ok().unwrap();
    assert_eq!(grid.width(), 2);
    assert_eq!(grid.height(), 2);
    assert_eq!(grid.render(), "ab\ncd");
}

#[test]
fn ragged_text_is_a_shape_error() {
    let short: Result<Grid<char>, _> = Grid::parse("abc\nde");
    assert!(matches!(short, Err(ParseGridError::Shape(ShapeError::OutOfBounds))));
    let long: Result<Grid<char>, _> = Grid::parse("ab\ncde");
    assert!(matches!(long, Err(ParseGridError::Shape(ShapeError::IncompatibleShape))));
}

#[test]
fn from_vec_checks_the_shape() {
    assert!(Grid::from_vec(2, 2, vec![1, 2, 3, 4]).is_ok());
    assert_eq!(Grid::from_vec(2, 2, vec![1, 2, 3]).err(), Some(ShapeError::OutOfBounds));
    assert_eq!(Grid::from_vec(2, 2, vec![1, 2, 3, 4, 5]).err(), Some(ShapeError::IncompatibleShape));
    assert!(Grid::<u8>::from_vec(0, 5, vec![]).is_ok());
}

#[test]
fn set_and_transpose() {
    let mut grid = Grid::from_vec(3, 2, vec![1, 2, 3, 4, 5, 6]).ok().unwrap();
    assert_eq!(grid.get(2, 0), Some(&3));
    assert_eq!(grid.set(2, 0, 9), Some(3));
    assert_eq!(grid.set(3, 0, 9), None);
    assert_eq!(grid.get_at(2), Some(&9));
    grid.transpose();
    assert_eq!(grid.width(), 2);
    assert_eq!(grid.height(), 3);
    assert_eq!(grid.get(0, 2), Some(&9));
    assert_eq!(grid.get(1, 0), Some(&4));
    assert_eq!(grid.get_at(3), Some(&4));
    assert_eq!(grid.set_at_mut(3, 7), Some(4));
    assert_eq!(grid.get(1, 0), Some(&7));
    if let Some(cell) = grid.get_mut(1, 2) {
        *cell = 0;
    }
    assert_eq!(grid.get_at(5), Some(&0));
    let rows = grid.rows();
    assert_eq!(rows, vec![vec![&1, &7], vec![&2, &5], vec![&9, &0]]);
    let columns = grid.columns();
    assert_eq!(columns, vec![vec![&1, &2, &9], vec![&7, &5, &0]]);
}

#[test]
fn from_fn_gives_row_then_column() {
    let grid = Grid::from_fn(3, 2, |row, column| row * 10 + column);
    assert_eq!(grid.get(2, 1), Some(&12));
    assert_eq!(grid.get(0, 1), Some(&10));
    let zeros: Grid<u8> = Grid::new(2, 2);
    assert_eq!(zeros.get(1, 1), Some(&0));
}

#[test]
fn styled_grid_writes_only_changes() {
    let red = Style::fg(Color::Red);
    let cells = vec![
        StyledChar { ch: 'a', style: red },
        StyledChar { ch: 'b', style: red },
        StyledChar { ch: 'c', style: Style::clear() },
        StyledChar { ch: 'd', style: red },
    ];
    let grid = Grid::from_vec(2, 2, cells).ok().unwrap();
    assert_eq!(grid.render(), "\x1b[31mab\x1b[0m\nc\x1b[31md\x1b[0m");
    assert_eq!(grid.render_with(false), "ab\ncd");
}
