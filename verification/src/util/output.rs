//! What a solver's result must offer to be shown: its text, and whether
//! that text spans several lines.
use vstd::prelude::*;
use vstd::std_specs::iter::IteratorSpec;
use std::borrow::Cow;
use crate::util::text::{decimal, push_decimal, push_signed_decimal, signed_decimal};

verus! {

/// A value that can be shown as the result of a solver.
pub trait Output {
    /// The text this value is shown as.
    spec fn text(&self) -> Seq<char>;

    /// Whether the text is to be laid out on lines of its own.
    spec fn multiline(&self) -> bool;

    /// Renders this value to text.
    fn render(&self) -> (s: String)
        ensures
            s@ == self.text(),
    ;

    /// Whether the rendering is to be laid out on lines of its own rather
    /// than after the label, on the same line.
    fn is_multiline(&self) -> (b: bool)
        ensures
            b == self.multiline(),
    ;
}

/// Whether `s` holds a line feed or a carriage return.
pub open spec fn has_line_break(s: Seq<char>) -> bool {
    s.contains('\n') || s.contains('\r')
}

/// Tells whether `s` holds a line feed or a carriage return.
pub fn contains_line_break(s: &str) -> (b: bool)
    ensures
        b == has_line_break(s@),
{
    let ghost mut seen: Seq<char> = Seq::empty();
    let mut it = s.chars();
    loop
        invariant_except_break
            it.obeys_prophetic_iter_laws(),
            it.decrease() is Some,
            seen + it.remaining() == s@,
            !has_line_break(seen),
        ensures
            has_line_break(s@),
        decreases it.decrease()->0,
    {
        match it.next() {
            Some(c) => {
                proof {
                    assert(seen.push(c) + it.remaining() =~= s@);
                }
                if c == '\n' || c == '\r' {
                    assert(s@[seen.len() as int] == c);
                    break ;
                }
                proof {
                    let next = seen.push(c);
                    assert forall|j: int| 0 <= j < next.len() implies next[j] != '\n' && next[j]
                        != '\r' by {
                        if j < seen.len() {
                            assert(seen.contains(seen[j]));
                        }
                    }
                    seen = next;
                }
            },
            None => {
                assert(seen + it.remaining() =~= seen);
                return false;
            },
        }
    }
    true
}

fn decimal_string(n: u128) -> (s: String)
    ensures
        s@ == decimal(n as nat),
{
    let mut s = String::new();
    push_decimal(&mut s, n);
    assert(Seq::<char>::empty() + decimal(n as nat) =~= decimal(n as nat));
    s
}

fn signed_decimal_string(i: i128) -> (s: String)
    ensures
        s@ == signed_decimal(i as int),
{
    let mut s = String::new();
    push_signed_decimal(&mut s, i);
    assert(Seq::<char>::empty() + signed_decimal(i as int) =~= signed_decimal(i as int));
    s
}

impl Output for u8 {
    open spec fn text(&self) -> Seq<char> {
        decimal(*self as nat)
    }

    open spec fn multiline(&self) -> bool {
        false
    }

    fn render(&self) -> (s: String) {
        decimal_string(*self as u128)
    }

    fn is_multiline(&self) -> (b: bool) {
        false
    }
}

impl Output for u16 {
    open spec fn text(&self) -> Seq<char> {
        decimal(*self as nat)
    }

    open spec fn multiline(&self) -> bool {
        false
    }

    fn render(&self) -> (s: String) {
        decimal_string(*self as u128)
    }

    fn is_multiline(&self) -> (b: bool) {
        false
    }
}

impl Output for u32 {
    open spec fn text(&self) -> Seq<char> {
        decimal(*self as nat)
    }

    open spec fn multiline(&self) -> bool {
        false
    }

    fn render(&self) -> (s: String) {
        decimal_string(*self as u128)
    }

    fn is_multiline(&self) -> (b: bool) {
        false
    }
}

impl Output for u64 {
    open spec fn text(&self) -> Seq<char> {
        decimal(*self as nat)
    }

    open spec fn multiline(&self) -> bool {
        false
    }

    fn render(&self) -> (s: String) {
        decimal_string(*self as u128)
    }

    fn is_multiline(&self) -> (b: bool) {
        false
    }
}

impl Output for u128 {
    open spec fn text(&self) -> Seq<char> {
        decimal(*self as nat)
    }

    open spec fn multiline(&self) -> bool {
        false
    }

    fn render(&self) -> (s: String) {
        decimal_string(*self as u128)
    }

    fn is_multiline(&self) -> (b: bool) {
        false
    }
}

impl Output for i8 {
    open spec fn text(&self) -> Seq<char> {
        signed_decimal(*self as int)
    }

    open spec fn multiline(&self) -> bool {
        false
    }

    fn render(&self) -> (s: String) {
        signed_decimal_string(*self as i128)
    }

    fn is_multiline(&self) -> (b: bool) {
        false
    }
}

impl Output for i16 {
    open spec fn text(&self) -> Seq<char> {
        signed_decimal(*self as int)
    }

    open spec fn multiline(&self) -> bool {
        false
    }

    fn render(&self) -> (s: String) {
        signed_decimal_string(*self as i128)
    }

    fn is_multiline(&self) -> (b: bool) {
        false
    }
}

impl Output for i32 {
    open spec fn text(&self) -> Seq<char> {
        signed_decimal(*self as int)
    }

    open spec fn multiline(&self) -> bool {
        false
    }

    fn render(&self) -> (s: String) {
        signed_decimal_string(*self as i128)
    }

    fn is_multiline(&self) -> (b: bool) {
        false
    }
}

impl Output for i64 {
    open spec fn text(&self) -> Seq<char> {
        signed_decimal(*self as int)
    }

    open spec fn multiline(&self) -> bool {
        false
    }

    fn render(&self) -> (s: String) {
        signed_decimal_string(*self as i128)
    }

    fn is_multiline(&self) -> (b: bool) {
        false
    }
}

impl Output for i128 {
    open spec fn text(&self) -> Seq<char> {
        signed_decimal(*self as int)
    }

    open spec fn multiline(&self) -> bool {
        false
    }

    fn render(&self) -> (s: String) {
        signed_decimal_string(*self as i128)
    }

    fn is_multiline(&self) -> (b: bool) {
        false
    }
}

impl Output for usize {
    open spec fn text(&self) -> Seq<char> {
        decimal(*self as nat)
    }

    open spec fn multiline(&self) -> bool {
        false
    }

    fn render(&self) -> (s: String) {
        decimal_string(*self as u128)
    }

    fn is_multiline(&self) -> (b: bool) {
        false
    }
}

impl Output for isize {
    open spec fn text(&self) -> Seq<char> {
        signed_decimal(*self as int)
    }

    open spec fn multiline(&self) -> bool {
        false
    }

    fn render(&self) -> (s: String) {
        signed_decimal_string(*self as i128)
    }

    fn is_multiline(&self) -> (b: bool) {
        false
    }
}

impl Output for String {
    open spec fn text(&self) -> Seq<char> {
        self@
    }

    open spec fn multiline(&self) -> bool {
        has_line_break(self@)
    }

    fn render(&self) -> (s: String) {
        self.clone()
    }

    fn is_multiline(&self) -> (b: bool) {
        contains_line_break(self.as_str())
    }
}

impl<T: Output> Output for &T {
    open spec fn text(&self) -> Seq<char> {
        (**self).text()
    }

    open spec fn multiline(&self) -> bool {
        (**self).multiline()
    }

    fn render(&self) -> (s: String) {
        (**self).render()
    }

    fn is_multiline(&self) -> (b: bool) {
        (**self).is_multiline()
    }
}

impl Output for &str {
    open spec fn text(&self) -> Seq<char> {
        self@
    }

    open spec fn multiline(&self) -> bool {
        has_line_break(self@)
    }

    fn render(&self) -> (s: String) {
        str::to_owned(*self)
    }

    fn is_multiline(&self) -> (b: bool) {
        contains_line_break(self)
    }
}

impl Output for Cow<'_, str> {
    open spec fn text(&self) -> Seq<char> {
        self@
    }

    open spec fn multiline(&self) -> bool {
        has_line_break(self@)
    }

    fn render(&self) -> (s: String) {
        match self {
            Cow::Borrowed(borrowed) => str::to_owned(*borrowed),
            Cow::Owned(owned) => owned.clone(),
        }
    }

    fn is_multiline(&self) -> (b: bool) {
        match self {
            Cow::Borrowed(borrowed) => contains_line_break(borrowed),
            Cow::Owned(owned) => contains_line_break(owned.as_str()),
        }
    }
}

} // verus!
