use advent::util::style::{Color, Style, StyleDiff, StyleTracker};

#[test]
fn diff_of_equal_styles_is_noop() {
    let style = Style::new(Color::Red, Color::Blue);
    assert_eq!(style.diff(&style), StyleDiff::Noop);
}

#[test]
fn diff_renders_ansi_escape() {
    let style = Style::new(Color::Red, Color::Default);
    let diff = style.diff(&Style::clear());
    assert_eq!(diff, StyleDiff::Foreground(Color::Red));
    assert_eq!(diff.render(), "\x1b[31m");
}

#[test]
fn tracker_emits_once() {
    let mut tracker = StyleTracker::new(true);
    let style = Style::fg(Color::Green);
    assert_eq!(tracker.style(style), StyleDiff::Foreground(Color::Green));
    assert_eq!(tracker.style(style), StyleDiff::Noop);
}
