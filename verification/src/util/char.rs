//! Characters as grid elements: read from text, shown with a style.
use vstd::prelude::*;
use std::convert::Infallible;
use crate::util::style::Style;

verus! {

/// A character and the style it is shown in.
#[derive(Debug, Clone, Copy, PartialEq, Eq, Structural)]
pub struct StyledChar {
    pub ch: char,
    pub style: Style,
}

impl From<char> for StyledChar {
    fn from(value: char) -> (s: StyledChar) {
        StyledChar { ch: value, style: Style::clear() }
    }
}

impl vstd::std_specs::convert::FromSpecImpl<char> for StyledChar {
    open spec fn obeys_from_spec() -> bool {
        true
    }

    open spec fn from_spec(value: char) -> StyledChar {
        StyledChar { ch: value, style: Style::clear() }
    }
}

/// An element that is shown as one styled character.
pub trait ToStyledChar {
    /// The character and style this element is shown as.
    spec fn styled(&self) -> StyledChar;

    fn to_styled_char(&self) -> (s: StyledChar)
        ensures
            s == self.styled(),
    ;
}

impl ToStyledChar for char {
    open spec fn styled(&self) -> StyledChar {
        StyledChar { ch: *self, style: Style::clear() }
    }

    fn to_styled_char(&self) -> (s: StyledChar) {
        StyledChar::from(*self)
    }
}

impl ToStyledChar for StyledChar {
    open spec fn styled(&self) -> StyledChar {
        *self
    }

    fn to_styled_char(&self) -> (s: StyledChar) {
        *self
    }
}

/// An element that is read from one character of text.
pub trait FromChar: Sized {
    /// Why a character may be refused.
    type Err;

    /// The element that `ch` stands for, or why it stands for none.
    spec fn parsed(ch: char) -> Result<Self, Self::Err>;

    fn from_char(ch: char) -> (r: Result<Self, Self::Err>)
        ensures
            r == Self::parsed(ch),
    ;
}

impl FromChar for char {
    type Err = Infallible;

    open spec fn parsed(ch: char) -> Result<char, Infallible> {
        Ok(ch)
    }

    fn from_char(ch: char) -> (r: Result<char, Infallible>) {
        Ok(ch)
    }
}

} // verus!
