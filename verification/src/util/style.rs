//! Terminal colours, and the escape sequences that move a terminal from one
//! style to the next with nothing repeated.
use vstd::prelude::*;
use crate::util::output::Output;
use crate::util::text::{decimal, push_char, push_decimal, push_text};

verus! {

/// A terminal colour: the terminal's default, one of the sixteen named
/// colours, or three free components.
#[derive(Debug, Clone, Copy, PartialEq, Eq, Structural)]
pub enum Color {
    Default,
    Black,
    Red,
    Green,
    Yellow,
    Blue,
    Magenta,
    Cyan,
    White,
    BrightBlack,
    BrightRed,
    BrightGreen,
    BrightYellow,
    BrightBlue,
    BrightMagenta,
    BrightCyan,
    BrightWhite,
    Rgb { r: u8, g: u8, b: u8 },
}

impl Default for Color {
    fn default() -> (c: Color)
        ensures
            c == Color::Default,
    {
        Color::Default
    }
}

impl Color {
    /// The SGR parameters that select this colour for the foreground.
    pub open spec fn fg_code(self) -> Seq<char> {
        match self {
            Color::Default => "39"@,
            Color::Black => "30"@,
            Color::Red => "31"@,
            Color::Green => "32"@,
            Color::Yellow => "33"@,
            Color::Blue => "34"@,
            Color::Magenta => "35"@,
            Color::Cyan => "36"@,
            Color::White => "37"@,
            Color::BrightBlack => "90"@,
            Color::BrightRed => "91"@,
            Color::BrightGreen => "92"@,
            Color::BrightYellow => "93"@,
            Color::BrightBlue => "94"@,
            Color::BrightMagenta => "95"@,
            Color::BrightCyan => "96"@,
            Color::BrightWhite => "97"@,
            Color::Rgb { r, g, b } => "38;5;"@ + components(r, g, b),
        }
    }

    /// The SGR parameters that select this colour for the background.
    pub open spec fn bg_code(self) -> Seq<char> {
        match self {
            Color::Default => "49"@,
            Color::Black => "40"@,
            Color::Red => "41"@,
            Color::Green => "42"@,
            Color::Yellow => "43"@,
            Color::Blue => "44"@,
            Color::Magenta => "45"@,
            Color::Cyan => "46"@,
            Color::White => "47"@,
            Color::BrightBlack => "100"@,
            Color::BrightRed => "101"@,
            Color::BrightGreen => "102"@,
            Color::BrightYellow => "103"@,
            Color::BrightBlue => "104"@,
            Color::BrightMagenta => "105"@,
            Color::BrightCyan => "106"@,
            Color::BrightWhite => "107"@,
            Color::Rgb { r, g, b } => "48;5;"@ + components(r, g, b),
        }
    }

    /// Appends the foreground parameters of this colour to `out`.
    pub fn write_fg(&self, out: &mut String)
        ensures
            final(out)@ == old(out)@ + self.fg_code(),
    {
        match self {
            Color::Default => push_text(out, "39"),
            Color::Black => push_text(out, "30"),
            Color::Red => push_text(out, "31"),
            Color::Green => push_text(out, "32"),
            Color::Yellow => push_text(out, "33"),
            Color::Blue => push_text(out, "34"),
            Color::Magenta => push_text(out, "35"),
            Color::Cyan => push_text(out, "36"),
            Color::White => push_text(out, "37"),
            Color::BrightBlack => push_text(out, "90"),
            Color::BrightRed => push_text(out, "91"),
            Color::BrightGreen => push_text(out, "92"),
            Color::BrightYellow => push_text(out, "93"),
            Color::BrightBlue => push_text(out, "94"),
            Color::BrightMagenta => push_text(out, "95"),
            Color::BrightCyan => push_text(out, "96"),
            Color::BrightWhite => push_text(out, "97"),
            Color::Rgb { r, g, b } => {
                push_text(out, "38;5;");
                push_components(out, *r, *g, *b);
                assert(old(out)@ + "38;5;"@ + components(*r, *g, *b) =~= old(out)@ + ("38;5;"@
                    + components(*r, *g, *b)));
            },
        }
    }

    /// Appends the background parameters of this colour to `out`.
    pub fn write_bg(&self, out: &mut String)
        ensures
            final(out)@ == old(out)@ + self.bg_code(),
    {
        match self {
            Color::Default => push_text(out, "49"),
            Color::Black => push_text(out, "40"),
            Color::Red => push_text(out, "41"),
            Color::Green => push_text(out, "42"),
            Color::Yellow => push_text(out, "43"),
            Color::Blue => push_text(out, "44"),
            Color::Magenta => push_text(out, "45"),
            Color::Cyan => push_text(out, "46"),
            Color::White => push_text(out, "47"),
            Color::BrightBlack => push_text(out, "100"),
            Color::BrightRed => push_text(out, "101"),
            Color::BrightGreen => push_text(out, "102"),
            Color::BrightYellow => push_text(out, "103"),
            Color::BrightBlue => push_text(out, "104"),
            Color::BrightMagenta => push_text(out, "105"),
            Color::BrightCyan => push_text(out, "106"),
            Color::BrightWhite => push_text(out, "107"),
            Color::Rgb { r, g, b } => {
                push_text(out, "48;5;");
                push_components(out, *r, *g, *b);
                assert(old(out)@ + "48;5;"@ + components(*r, *g, *b) =~= old(out)@ + ("48;5;"@
                    + components(*r, *g, *b)));
            },
        }
    }
}

/// A foreground and a background colour.
#[derive(Debug, Clone, Copy, PartialEq, Eq, Structural)]
pub struct Style {
    pub fg: Color,
    pub bg: Color,
}

impl Default for Style {
    fn default() -> (s: Style)
        ensures
            s == Style::clear(),
    {
        Style { fg: Color::Default, bg: Color::Default }
    }
}

impl Style {
    /// The style with the given foreground and background.
    #[verifier::when_used_as_spec(spec_new)]
    pub fn new(fg: Color, bg: Color) -> (s: Style)
        ensures
            s == Style::spec_new(fg, bg),
    {
        Style { fg, bg }
    }

    pub open spec fn spec_new(fg: Color, bg: Color) -> Style {
        Style { fg, bg }
    }

    /// The canonical clear style: default foreground on default background.
    #[verifier::when_used_as_spec(spec_clear)]
    pub fn clear() -> (s: Style)
        ensures
            s == Style::spec_clear(),
    {
        Style { fg: Color::Default, bg: Color::Default }
    }

    pub open spec fn spec_clear() -> Style {
        Style { fg: Color::Default, bg: Color::Default }
    }

    /// `color` on the default background.
    pub fn fg(color: Color) -> (s: Style)
        ensures
            s == Style::new(color, Color::Default),
    {
        Style::new(color, Color::Default)
    }

    /// The default foreground on `color`.
    pub fn bg(color: Color) -> (s: Style)
        ensures
            s == Style::new(Color::Default, color),
    {
        Style::new(Color::Default, color)
    }

    /// This style with its foreground replaced by `color`.
    pub fn with_fg(self, color: Color) -> (s: Style)
        ensures
            s == Style::new(color, self.bg),
    {
        Style { fg: color, bg: self.bg }
    }

    /// This style with its background replaced by `color`.
    pub fn with_bg(self, color: Color) -> (s: Style)
        ensures
            s == Style::new(self.fg, color),
    {
        Style { fg: self.fg, bg: color }
    }

    /// The least update that takes a terminal showing `prev` to this style:
    /// nothing when they are equal, a reset when this style is the clear
    /// one, and otherwise exactly the components that differ.
    pub open spec fn spec_diff(self, prev: Style) -> StyleDiff {
        if self == prev {
            StyleDiff::Noop
        } else if self == Style::clear() {
            StyleDiff::Clear
        } else if self.fg != prev.fg && self.bg != prev.bg {
            StyleDiff::Both { fg: self.fg, bg: self.bg }
        } else if self.fg != prev.fg {
            StyleDiff::Foreground(self.fg)
        } else {
            StyleDiff::Background(self.bg)
        }
    }

    /// Computes the update that takes a terminal showing `prev` to this style.
    pub fn diff(&self, prev: &Style) -> (d: StyleDiff)
        ensures
            d == self.spec_diff(*prev),
    {
        if *self == *prev {
            StyleDiff::Noop
        } else if *self == Style::clear() {
            StyleDiff::Clear
        } else {
            let fg = if self.fg != prev.fg {
                Some(self.fg)
            } else {
                None
            };
            let bg = if self.bg != prev.bg {
                Some(self.bg)
            } else {
                None
            };
            StyleDiff::new(fg, bg)
        }
    }
}

/// An update to a terminal's style.
#[derive(Debug, Clone, Copy, PartialEq, Eq, Structural)]
pub enum StyleDiff {
    /// Nothing changes; nothing is written.
    Noop,
    /// Everything goes back to the terminal's defaults.
    Clear,
    Foreground(Color),
    Background(Color),
    Both { fg: Color, bg: Color },
}

impl StyleDiff {
    /// The update that sets the components given and leaves the others.
    pub open spec fn spec_new(fg: Option<Color>, bg: Option<Color>) -> StyleDiff {
        match (fg, bg) {
            (Some(fg), Some(bg)) => StyleDiff::Both { fg, bg },
            (Some(fg), None) => StyleDiff::Foreground(fg),
            (None, Some(bg)) => StyleDiff::Background(bg),
            (None, None) => StyleDiff::Noop,
        }
    }

    /// The update that sets the components given and leaves the others.
    pub fn new(fg: Option<Color>, bg: Option<Color>) -> (d: StyleDiff)
        ensures
            d == StyleDiff::spec_new(fg, bg),
    {
        match (fg, bg) {
            (Some(fg), Some(bg)) => StyleDiff::Both { fg, bg },
            (Some(fg), None) => StyleDiff::Foreground(fg),
            (None, Some(bg)) => StyleDiff::Background(bg),
            (None, None) => StyleDiff::Noop,
        }
    }

    /// The SGR parameters of this update, joined by semicolons.
    pub open spec fn codes(self) -> Seq<char> {
        match self {
            StyleDiff::Noop => Seq::empty(),
            StyleDiff::Clear => seq!['0'],
            StyleDiff::Foreground(fg) => fg.fg_code(),
            StyleDiff::Background(bg) => bg.bg_code(),
            StyleDiff::Both { fg, bg } => fg.fg_code() + seq![';'] + bg.bg_code(),
        }
    }

    /// What a terminal is sent for this update: nothing at all for
    /// [`StyleDiff::Noop`], else `ESC [`, the parameters, and `m`.
    pub open spec fn escape(self) -> Seq<char> {
        if self == StyleDiff::Noop {
            Seq::empty()
        } else {
            seq!['\x1b', '['] + self.codes() + seq!['m']
        }
    }

    /// Appends the parameters of this update to `out`.
    pub fn write(&self, out: &mut String)
        ensures
            final(out)@ == old(out)@ + self.codes(),
    {
        match self {
            StyleDiff::Noop => {
                assert(out@ =~= old(out)@ + self.codes());
            },
            StyleDiff::Clear => {
                push_char(out, '0');
                assert(out@ =~= old(out)@ + self.codes());
            },
            StyleDiff::Foreground(fg) => fg.write_fg(out),
            StyleDiff::Background(bg) => bg.write_bg(out),
            StyleDiff::Both { fg, bg } => {
                fg.write_fg(out);
                push_char(out, ';');
                bg.write_bg(out);
                assert(out@ =~= old(out)@ + self.codes());
            },
        }
    }

    /// Appends the escape sequence of this update to `out`.
    pub fn write_escape(&self, out: &mut String)
        ensures
            final(out)@ == old(out)@ + self.escape(),
    {
        match self {
            StyleDiff::Noop => {
                assert(out@ =~= old(out)@ + self.escape());
            },
            _ => {
                push_char(out, '\x1b');
                push_char(out, '[');
                self.write(out);
                push_char(out, 'm');
                assert(out@ =~= old(out)@ + self.escape());
            },
        }
    }

    /// The escape sequence of this update.
    pub fn render(&self) -> (s: String)
        ensures
            s@ == self.escape(),
    {
        let mut s = String::new();
        self.write_escape(&mut s);
        assert(Seq::<char>::empty() + self.escape() =~= self.escape());
        s
    }
}

/// Remembers the style a terminal was last put in, so that a render pass
/// writes only what changes. A disabled tracker never writes anything.
pub struct StyleTracker {
    enabled: bool,
    style: Style,
}

impl Default for StyleTracker {
    fn default() -> (t: StyleTracker)
        ensures
            t.enabled(),
            t.current() == Style::clear(),
    {
        StyleTracker::new(true)
    }
}

impl StyleTracker {
    /// Whether this tracker writes escape sequences at all.
    pub closed spec fn enabled(&self) -> bool {
        self.enabled
    }

    /// The style the terminal was last put in.
    pub closed spec fn current(&self) -> Style {
        self.style
    }

    /// The tracker for a terminal in the clear style.
    pub closed spec fn spec_new(enabled: bool) -> StyleTracker {
        StyleTracker { enabled, style: Style::clear() }
    }

    /// A tracker is what it is by whether it is enabled and the style it
    /// holds.
    pub proof fn lemma_new(self, enabled: bool)
        ensures
            StyleTracker::spec_new(enabled).enabled() == enabled,
            StyleTracker::spec_new(enabled).current() == Style::clear(),
            self.current() == Style::clear() ==> self == StyleTracker::spec_new(self.enabled()),
    {
    }

    /// A tracker for a terminal in the clear style.
    #[verifier::when_used_as_spec(spec_new)]
    pub fn new(enabled: bool) -> (t: StyleTracker)
        ensures
            t == StyleTracker::spec_new(enabled),
            t.enabled() == enabled,
            t.current() == Style::clear(),
    {
        StyleTracker { enabled, style: Style::clear() }
    }

    /// What [`StyleTracker::style`] returns for `style`.
    pub open spec fn style_diff(&self, style: Style) -> StyleDiff {
        if self.enabled() {
            style.spec_diff(self.current())
        } else {
            StyleDiff::Noop
        }
    }

    /// The tracker that [`StyleTracker::style`] leaves behind for `style`.
    pub closed spec fn after_style(self, style: Style) -> StyleTracker {
        if self.enabled {
            StyleTracker { enabled: true, style }
        } else {
            self
        }
    }

    /// What [`StyleTracker::clear`] returns.
    pub open spec fn clear_diff(&self) -> StyleDiff {
        if self.enabled() && self.current() != Style::clear() {
            StyleDiff::Clear
        } else {
            StyleDiff::Noop
        }
    }

    /// The tracker that [`StyleTracker::clear`] leaves behind.
    pub closed spec fn after_clear(self) -> StyleTracker {
        if self.enabled {
            StyleTracker { enabled: true, style: Style::clear() }
        } else {
            self
        }
    }

    /// A step keeps a tracker enabled or disabled; an enabled tracker ends in
    /// the style asked for, a disabled one where it was.
    pub proof fn lemma_steps(self, style: Style)
        ensures
            self.after_style(style).enabled() == self.enabled(),
            self.after_style(style).current() == if self.enabled() {
                style
            } else {
                self.current()
            },
            self.after_clear().enabled() == self.enabled(),
            self.after_clear().current() == if self.enabled() {
                Style::clear()
            } else {
                self.current()
            },
            self.after_clear() == self.after_style(Style::clear()),
            !self.enabled() ==> self.after_style(style) == self,
    {
    }

    /// Moves to `style` and returns what must be written to get there. A
    /// disabled tracker returns [`StyleDiff::Noop`] and stays as it is.
    pub fn style(&mut self, style: Style) -> (d: StyleDiff)
        ensures
            d == old(self).style_diff(style),
            *final(self) == old(self).after_style(style),
    {
        if !self.enabled {
            return StyleDiff::Noop;
        }
        let diff = style.diff(&self.style);
        self.style = style;
        diff
    }

    /// Moves back to the clear style and returns what must be written to get
    /// there: a reset, or nothing when the tracker is disabled or already
    /// clear.
    pub fn clear(&mut self) -> (d: StyleDiff)
        ensures
            d == old(self).clear_diff(),
            *final(self) == old(self).after_clear(),
    {
        if !self.enabled || self.style == Style::clear() {
            StyleDiff::Noop
        } else {
            self.style = Style::clear();
            StyleDiff::Clear
        }
    }
}

/// A style differs in nothing from itself.
pub proof fn lemma_diff_same(style: Style)
    ensures
        style.spec_diff(style) == StyleDiff::Noop,
{
}

/// A tracker asked for the same style twice in a row writes nothing the
/// second time.
pub proof fn lemma_style_twice(tracker: StyleTracker, style: Style)
    ensures
        tracker.after_style(style).style_diff(style) == StyleDiff::Noop,
{
    tracker.lemma_steps(style);
}

/// From any other style, the way to the clear style is a reset, whichever
/// components differ.
pub proof fn lemma_diff_to_clear(prev: Style)
    requires
        prev != Style::clear(),
    ensures
        Style::clear().spec_diff(prev) == StyleDiff::Clear,
{
}

/// An update never names a component that stays as it was.
pub proof fn lemma_diff_minimal(style: Style, prev: Style)
    ensures
        style.fg == prev.fg ==> !(style.spec_diff(prev) is Foreground) && !(style.spec_diff(
            prev,
        ) is Both),
        style.bg == prev.bg ==> !(style.spec_diff(prev) is Background) && !(style.spec_diff(
            prev,
        ) is Both),
{
}

/// A value shown in a style of its own, with the terminal put back in the
/// clear style after it.
pub struct Styled<T: Output> {
    value: T,
    style: Style,
}

impl<T: Output> Styled<T> {
    /// The value shown.
    pub closed spec fn value(&self) -> T {
        self.value
    }

    /// The style it is shown in.
    pub closed spec fn style(&self) -> Style {
        self.style
    }

    /// What is written for this value: the way from the clear style to its
    /// own, its text, and the way back.
    pub open spec fn text(&self) -> Seq<char> {
        self.style().spec_diff(Style::clear()).escape() + self.value().text() + Style::clear().spec_diff(
            self.style(),
        ).escape()
    }

    /// The same value with the foreground of its style replaced by `color`.
    pub fn with_fg(self, color: Color) -> (s: Styled<T>)
        ensures
            s.value() == self.value(),
            s.style() == Style::new(color, self.style().bg),
    {
        Styled { value: self.value, style: self.style.with_fg(color) }
    }

    /// The same value with the background of its style replaced by `color`.
    pub fn with_bg(self, color: Color) -> (s: Styled<T>)
        ensures
            s.value() == self.value(),
            s.style() == Style::new(self.style().fg, color),
    {
        Styled { value: self.value, style: self.style.with_bg(color) }
    }

    /// Renders the value between the escape sequences of its style.
    pub fn render(&self) -> (s: String)
        ensures
            s@ == self.text(),
    {
        let mut s = String::new();
        let on = self.style.diff(&Style::clear());
        let off = Style::clear().diff(&self.style);
        on.write_escape(&mut s);
        let v = self.value.render();
        push_text(&mut s, v.as_str());
        off.write_escape(&mut s);
        assert(s@ =~= self.text());
        s
    }
}

/// Puts any value that can be shown into a style.
pub trait ToStyled: Output + Sized {
    /// This value in the clear style.
    fn wrap(&self) -> (s: Styled<&Self>)
        ensures
            s.value() == self,
            s.style() == Style::clear(),
    {
        Styled { value: self, style: Style::clear() }
    }

    /// This value in `color` on the default background.
    fn with_fg(&self, color: Color) -> (s: Styled<&Self>)
        ensures
            s.value() == self,
            s.style() == Style::new(color, Color::Default),
    {
        self.wrap().with_fg(color)
    }

    /// This value in the default foreground on `color`.
    fn with_bg(&self, color: Color) -> (s: Styled<&Self>)
        ensures
            s.value() == self,
            s.style() == Style::new(Color::Default, color),
    {
        self.wrap().with_bg(color)
    }
}

impl<T: Output> ToStyled for T {
}

/// Three colour components as decimal numerals joined by semicolons.
pub open spec fn components(r: u8, g: u8, b: u8) -> Seq<char> {
    decimal(r as nat) + seq![';'] + decimal(g as nat) + seq![';'] + decimal(b as nat)
}

fn push_components(out: &mut String, r: u8, g: u8, b: u8)
    ensures
        final(out)@ == old(out)@ + components(r, g, b),
{
    push_decimal(out, r as u128);
    push_char(out, ';');
    push_decimal(out, g as u128);
    push_char(out, ';');
    push_decimal(out, b as u128);
    assert(out@ =~= old(out)@ + components(r, g, b));
}

} // verus!
