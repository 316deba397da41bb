//! Building and reading text one character at a time.
use vstd::prelude::*;
use vstd::std_specs::iter::IteratorSpec;

verus! {

/// Appends `c` to `s`. This is `String::push`, which vstd leaves unspecified:
/// the string afterwards is the string before followed by `c`.
#[verifier::external_body]
pub(crate) fn push_char(s: &mut String, c: char)
    ensures
        final(s)@ == old(s)@.push(c),
{
    s.push(c)
}

/// Whether `code` is a Unicode scalar value: a code point that is no
/// surrogate.
pub open spec fn is_scalar(code: u32) -> bool {
    code <= 0xD7FF || 0xE000 <= code <= 0x10FFFF
}

/// The character with the scalar value `code`. This is `char::from_u32`,
/// which vstd leaves unspecified: it gives the character of that value, and
/// refuses only what is no scalar value.
#[verifier::external_body]
pub(crate) fn char_from_u32(code: u32) -> (r: Option<char>)
    ensures
        match r {
            Some(c) => c as u32 == code,
            None => !is_scalar(code),
        },
{
    char::from_u32(code)
}

/// The characters of `s`, in order.
pub fn to_chars(s: &str) -> (v: Vec<char>)
    ensures
        v@ == s@,
{
    let mut v: Vec<char> = Vec::new();
    let mut it = s.chars();
    loop
        invariant
            it.obeys_prophetic_iter_laws(),
            it.decrease() is Some,
            v@ + it.remaining() == s@,
        ensures
            v@ == s@,
        decreases it.decrease()->0,
    {
        match it.next() {
            Some(c) => {
                v.push(c);
            },
            None => {
                assert(v@ + it.remaining() =~= v@);
                break ;
            },
        }
    }
    v
}

/// The character that writes the decimal digit `d`.
pub open spec fn digit(d: nat) -> char {
    if d == 0 {
        '0'
    } else if d == 1 {
        '1'
    } else if d == 2 {
        '2'
    } else if d == 3 {
        '3'
    } else if d == 4 {
        '4'
    } else if d == 5 {
        '5'
    } else if d == 6 {
        '6'
    } else if d == 7 {
        '7'
    } else if d == 8 {
        '8'
    } else {
        '9'
    }
}

/// The decimal numeral of `n`: no sign, no leading zero, `"0"` for zero.
pub open spec fn decimal(n: nat) -> Seq<char>
    decreases n,
{
    if n < 10 {
        seq![digit(n)]
    } else {
        decimal(n / 10).push(digit(n % 10))
    }
}

/// The decimal numeral of `i`, with a leading `-` when it is negative.
pub open spec fn signed_decimal(i: int) -> Seq<char> {
    if i < 0 {
        seq!['-'] + decimal((-i) as nat)
    } else {
        decimal(i as nat)
    }
}

fn digit_char(d: u8) -> (c: char)
    requires
        d < 10,
    ensures
        c == digit(d as nat),
{
    match d {
        0 => '0',
        1 => '1',
        2 => '2',
        3 => '3',
        4 => '4',
        5 => '5',
        6 => '6',
        7 => '7',
        8 => '8',
        _ => '9',
    }
}

/// Appends the decimal numeral of `n` to `s`.
pub fn push_decimal(s: &mut String, n: u128)
    ensures
        final(s)@ == old(s)@ + decimal(n as nat),
    decreases n,
{
    if n >= 10 {
        push_decimal(s, n / 10);
    }
    let d: u8 = (n % 10) as u8;
    push_char(s, digit_char(d));
    proof {
        if n < 10 {
            assert(old(s)@.push(digit(n as nat)) =~= old(s)@ + decimal(n as nat));
        } else {
            assert((old(s)@ + decimal((n / 10) as nat)).push(digit((n % 10) as nat)) =~= old(s)@
                + decimal(n as nat));
        }
    }
}

/// Appends the decimal numeral of `i` to `s`, with `-` in front of a negative one.
pub fn push_signed_decimal(s: &mut String, i: i128)
    ensures
        final(s)@ == old(s)@ + signed_decimal(i as int),
{
    if i < 0 {
        push_char(s, '-');
        let magnitude: u128 = if i == i128::MIN {
            (i128::MAX as u128) + 1
        } else {
            (-i) as u128
        };
        push_decimal(s, magnitude);
        assert(old(s)@.push('-') + decimal(magnitude as nat) =~= old(s)@ + signed_decimal(i as int));
    } else {
        push_decimal(s, i as u128);
    }
}

/// Appends the text of `t` to `s`.
pub fn push_text(s: &mut String, t: &str)
    ensures
        final(s)@ == old(s)@ + t@,
{
    s.append(t);
}

/// Appends every character of `t` to `s`, in order.
pub fn push_chars(s: &mut String, t: &Vec<char>)
    ensures
        final(s)@ == old(s)@ + t@,
{
    let mut i: usize = 0;
    while i < t.len()
        invariant
            i <= t.len(),
            s@ == old(s)@ + t@.take(i as int),
        decreases t.len() - i,
    {
        push_char(s, t[i]);
        assert(t@.take(i as int).push(t@[i as int]) =~= t@.take(i + 1));
        assert((old(s)@ + t@.take(i as int)).push(t@[i as int]) =~= old(s)@ + t@.take(i + 1));
        i += 1;
    }
    assert(t@.take(t.len() as int) =~= t@);
}

/// A string that holds the characters of `t`.
pub fn from_chars(t: &Vec<char>) -> (s: String)
    ensures
        s@ == t@,
{
    let mut s = String::new();
    push_chars(&mut s, t);
    assert(Seq::<char>::empty() + t@ =~= t@);
    s
}

/// Where the first line of `s` ends: the index of its first line feed, or
/// `s.len()` when it holds none.
pub open spec fn line_end(s: Seq<char>) -> int
    decreases s.len(),
{
    if s.len() == 0 || s[0] == '\n' {
        0
    } else {
        1 + line_end(s.skip(1))
    }
}

/// `line` without the carriage return it may end in.
pub open spec fn strip_cr(line: Seq<char>) -> Seq<char> {
    if line.len() > 0 && line.last() == '\r' {
        line.drop_last()
    } else {
        line
    }
}

/// The lines of `s`. A line ends at a line feed, which is left out together
/// with a carriage return just before it. The last line needs no line feed,
/// and a text that ends in one has no empty line after it.
pub open spec fn lines(s: Seq<char>) -> Seq<Seq<char>>
    decreases s.len(),
{
    if s.len() == 0 {
        Seq::empty()
    } else {
        let end = line_end(s);
        if 0 <= end < s.len() {
            seq![strip_cr(s.take(end))] + lines(s.skip(end + 1))
        } else {
            seq![s]
        }
    }
}

/// A scan that meets no line feed before `end`, and stops at one or at the
/// end of the text, has found where the first line ends.
pub proof fn lemma_line_end(s: Seq<char>, end: int)
    requires
        0 <= end <= s.len(),
        forall|j: int| 0 <= j < end ==> s[j] != '\n',
        end < s.len() ==> s[end] == '\n',
    ensures
        line_end(s) == end,
    decreases end,
{
    if end > 0 {
        let rest = s.skip(1);
        assert forall|j: int| 0 <= j < end - 1 implies rest[j] != '\n' by {
            assert(rest[j] == s[j + 1]);
        }
        lemma_line_end(rest, end - 1);
    }
}

/// The views of the lines held in `rows`.
pub open spec fn views(rows: Seq<Vec<char>>) -> Seq<Seq<char>> {
    rows.map_values(|row: Vec<char>| row@)
}

/// A copy of the characters of `text` from `from` up to `to`.
pub fn copy_range(text: &Vec<char>, from: usize, to: usize) -> (v: Vec<char>)
    requires
        from <= to <= text.len(),
    ensures
        v@ == text@.subrange(from as int, to as int),
{
    let mut v: Vec<char> = Vec::new();
    let mut i: usize = from;
    while i < to
        invariant
            from <= i <= to <= text.len(),
            v@ == text@.subrange(from as int, i as int),
        decreases to - i,
    {
        v.push(text[i]);
        assert(text@.subrange(from as int, i as int).push(text@[i as int]) =~= text@.subrange(
            from as int,
            i + 1,
        ));
        i += 1;
    }
    v
}

/// Splits `text` into its lines.
pub fn split_lines(text: &Vec<char>) -> (out: Vec<Vec<char>>)
    ensures
        views(out@) == lines(text@),
{
    let mut out: Vec<Vec<char>> = Vec::new();
    let mut pos: usize = 0;
    assert(text@.skip(0) =~= text@);
    assert(views(out@) + lines(text@) =~= lines(text@));
    while pos < text.len()
        invariant
            pos <= text.len(),
            views(out@) + lines(text@.skip(pos as int)) == lines(text@),
        decreases text.len() - pos,
    {
        let ghost rest = text@.skip(pos as int);
        let ghost before = out@;
        let mut end: usize = pos;
        while end < text.len() && text[end] != '\n'
            invariant
                pos <= end <= text.len(),
                forall|j: int| pos <= j < end ==> text@[j] != '\n',
            decreases text.len() - end,
        {
            end += 1;
        }
        proof {
            assert forall|j: int| 0 <= j < end - pos implies rest[j] != '\n' by {
                assert(rest[j] == text@[pos + j]);
            }
            lemma_line_end(rest, end - pos);
        }
        if end < text.len() {
            let stop: usize = if end > pos && text[end - 1] == '\r' {
                (end - 1) as usize
            } else {
                end
            };
            let line = copy_range(text, pos, stop);
            proof {
                let whole = rest.take(end - pos);
                assert(whole =~= text@.subrange(pos as int, end as int));
                assert(line@ =~= strip_cr(whole));
                assert(rest.skip(end - pos + 1) =~= text@.skip(end + 1));
            }
            out.push(line);
            proof {
                assert(views(out@) =~= views(before) + seq![line@]);
                assert(views(out@) + lines(text@.skip(end + 1)) =~= views(before) + lines(rest));
            }
            pos = end + 1;
        } else {
            let line = copy_range(text, pos, end);
            proof {
                assert(line@ =~= rest);
                assert(lines(rest) =~= seq![rest]);
            }
            out.push(line);
            proof {
                assert(views(out@) =~= views(before) + seq![line@]);
                assert(text@.skip(end as int) =~= Seq::<char>::empty());
                assert(views(out@) + lines(text@.skip(end as int)) =~= views(before) + lines(rest));
            }
            pos = end;
        }
    }
    proof {
        assert(text@.skip(pos as int) =~= Seq::<char>::empty());
        assert(views(out@) + lines(text@.skip(pos as int)) =~= views(out@));
    }
    out
}

/// The characters of `rows` one row after the other, with nothing between.
pub open spec fn concat(rows: Seq<Seq<char>>) -> Seq<char>
    decreases rows.len(),
{
    if rows.len() == 0 {
        Seq::empty()
    } else {
        concat(rows.drop_last()) + rows.last()
    }
}

/// The first `n` rows, concatenated, are how the concatenation of all rows
/// begins, and row `n` follows them.
pub proof fn lemma_concat_prefix(rows: Seq<Seq<char>>, n: int)
    requires
        0 <= n <= rows.len(),
    ensures
        concat(rows.take(n)).len() <= concat(rows).len(),
        concat(rows).take(concat(rows.take(n)).len() as int) == concat(rows.take(n)),
        n < rows.len() ==> concat(rows.take(n + 1)) == concat(rows.take(n)) + rows[n],
    decreases rows.len() - n,
{
    if n < rows.len() {
        let next = rows.take(n + 1);
        assert(next.drop_last() =~= rows.take(n));
        assert(next.last() == rows[n]);
        lemma_concat_prefix(rows, n + 1);
        let whole = concat(rows);
        let shorter = concat(rows.take(n));
        assert(whole.take(concat(next).len() as int) == shorter + rows[n]);
        assert(whole.take(shorter.len() as int) =~= shorter);
    } else {
        assert(rows.take(n) =~= rows);
        assert(concat(rows).take(concat(rows).len() as int) =~= concat(rows));
    }
}

/// A text has no more lines than characters, and no line longer than itself.
pub proof fn lemma_lines_bounds(s: Seq<char>)
    ensures
        lines(s).len() <= s.len(),
        forall|i: int| 0 <= i < lines(s).len() ==> (#[trigger] lines(s)[i]).len() <= s.len(),
    decreases s.len(),
{
    if s.len() > 0 {
        let end = line_end(s);
        if 0 <= end < s.len() {
            let rest = s.skip(end + 1);
            lemma_lines_bounds(rest);
            let first = strip_cr(s.take(end));
            assert forall|i: int| 0 <= i < lines(s).len() implies (#[trigger] lines(s)[i]).len()
                <= s.len() by {
                if i > 0 {
                    assert(lines(s)[i] == lines(rest)[i - 1]);
                }
            }
        }
    }
}

/// The rows from `from` on, each on a line of its own: a line feed stands
/// before every row but the first of all.
pub open spec fn joined_from(rows: Seq<Seq<char>>, from: int) -> Seq<char>
    decreases rows.len() - from,
{
    if from < 0 || from >= rows.len() {
        Seq::empty()
    } else {
        (if from == 0 {
            Seq::empty()
        } else {
            seq!['\n']
        }) + rows[from] + joined_from(rows, from + 1)
    }
}

/// The rows with a line feed between each two, and none at the end.
pub open spec fn joined(rows: Seq<Seq<char>>) -> Seq<char> {
    joined_from(rows, 0)
}

/// Where all rows are `width` long, the first `y` of them hold `y * width`
/// characters.
pub proof fn lemma_concat_len(rows: Seq<Seq<char>>, width: int, y: int)
    requires
        forall|i: int| 0 <= i < rows.len() ==> (#[trigger] rows[i]).len() == width,
        0 <= y <= rows.len(),
    ensures
        concat(rows.take(y)).len() == y * width,
    decreases y,
{
    if y > 0 {
        lemma_concat_len(rows, width, y - 1);
        lemma_concat_prefix(rows, y - 1);
        assert(rows[y - 1].len() == width);
        assert(y * width == (y - 1) * width + width) by (nonlinear_arith);
    } else {
        assert(rows.take(0) =~= Seq::<Seq<char>>::empty());
    }
}

/// Where all rows are `width` long, the concatenation holds row `y` from
/// `y * width` on.
pub proof fn lemma_concat_rectangle(rows: Seq<Seq<char>>, width: int, x: int, y: int)
    requires
        forall|i: int| 0 <= i < rows.len() ==> (#[trigger] rows[i]).len() == width,
        0 <= y < rows.len(),
        0 <= x < width,
    ensures
        y * width + x < concat(rows).len(),
        concat(rows)[y * width + x] == rows[y][x],
{
    lemma_concat_len(rows, width, y);
    lemma_concat_prefix(rows, y);
    lemma_concat_prefix(rows, y + 1);
    assert(rows[y].len() == width);
    let before = concat(rows.take(y));
    let upto = concat(rows.take(y + 1));
    assert(upto == before + rows[y]);
    assert(upto[y * width + x] == rows[y][x]);
    assert(concat(rows).take(upto.len() as int)[y * width + x] == concat(rows)[y * width + x]);
}

/// Tells whether `a` and `b` hold the same characters.
pub fn same_text(a: &str, b: &str) -> (same: bool)
    ensures
        same == (a@ == b@),
{
    let left = to_chars(a);
    let right = to_chars(b);
    if left.len() != right.len() {
        return false;
    }
    let mut i: usize = 0;
    while i < left.len()
        invariant
            i <= left@.len(),
            left@.len() == right@.len(),
            left@ == a@,
            right@ == b@,
            forall|j: int| 0 <= j < i ==> left@[j] == right@[j],
        decreases left.len() - i,
    {
        if left[i] != right[i] {
            return false;
        }
        i += 1;
    }
    assert(left@ =~= right@);
    true
}

/// The index of the first `c` in `s`, or `s.len()` where it holds none.
pub open spec fn index_of(s: Seq<char>, c: char) -> int
    decreases s.len(),
{
    if s.len() == 0 || s[0] == c {
        0
    } else {
        1 + index_of(s.skip(1), c)
    }
}

/// A scan that meets no `c` before `at`, and stops at one or at the end of
/// the text, has found the first `c`.
pub proof fn lemma_index_of(s: Seq<char>, c: char, at: int)
    requires
        0 <= at <= s.len(),
        forall|j: int| 0 <= j < at ==> s[j] != c,
        at < s.len() ==> s[at] == c,
    ensures
        index_of(s, c) == at,
    decreases at,
{
    if at > 0 {
        let rest = s.skip(1);
        assert forall|j: int| 0 <= j < at - 1 implies rest[j] != c by {
            assert(rest[j] == s[j + 1]);
        }
        lemma_index_of(rest, c, at - 1);
    }
}

/// Finds the first `c` in `text`.
pub fn find_char(text: &Vec<char>, c: char) -> (at: usize)
    ensures
        at == index_of(text@, c),
        at <= text@.len(),
        at < text@.len() ==> text@[at as int] == c,
        forall|j: int| 0 <= j < at ==> text@[j] != c,
{
    let mut at: usize = 0;
    while at < text.len() && text[at] != c
        invariant
            at <= text@.len(),
            forall|j: int| 0 <= j < at ==> text@[j] != c,
        decreases text.len() - at,
    {
        at += 1;
    }
    proof {
        lemma_index_of(text@, c, at as int);
    }
    at
}

/// Whether `c` is ASCII white space: a blank, a tab, a line feed, a form
/// feed or a carriage return.
pub open spec fn is_space(c: char) -> bool {
    c == ' ' || c == '\t' || c == '\n' || c == '\x0C' || c == '\r'
}

/// How many characters come before the first white space of `s`.
pub open spec fn word_len(s: Seq<char>) -> int
    decreases s.len(),
{
    if s.len() == 0 || is_space(s[0]) {
        0
    } else {
        1 + word_len(s.skip(1))
    }
}

/// The words of `s`: its longest runs of characters that are no white
/// space, in order.
pub open spec fn words(s: Seq<char>) -> Seq<Seq<char>>
    decreases s.len(),
{
    if s.len() == 0 {
        Seq::empty()
    } else if is_space(s[0]) {
        words(s.skip(1))
    } else {
        let n = word_len(s);
        if 0 < n <= s.len() {
            seq![s.take(n)] + words(s.skip(n))
        } else {
            Seq::empty()
        }
    }
}

/// A scan that meets no white space before `n`, and stops at one or at the
/// end of the text, has found where the first word ends.
pub proof fn lemma_word_len(s: Seq<char>, n: int)
    requires
        0 <= n <= s.len(),
        forall|j: int| 0 <= j < n ==> !is_space(s[j]),
        n < s.len() ==> is_space(s[n]),
    ensures
        word_len(s) == n,
    decreases n,
{
    if n > 0 {
        let rest = s.skip(1);
        assert forall|j: int| 0 <= j < n - 1 implies !is_space(rest[j]) by {
            assert(rest[j] == s[j + 1]);
        }
        lemma_word_len(rest, n - 1);
    }
}

/// Tells whether `c` is ASCII white space.
pub fn is_space_char(c: char) -> (b: bool)
    ensures
        b == is_space(c),
{
    c == ' ' || c == '\t' || c == '\n' || c == '\x0C' || c == '\r'
}

/// Splits `text` into its words.
pub fn split_words(text: &Vec<char>) -> (out: Vec<Vec<char>>)
    ensures
        views(out@) == words(text@),
{
    let mut out: Vec<Vec<char>> = Vec::new();
    let mut pos: usize = 0;
    assert(text@.skip(0) =~= text@);
    assert(views(out@) + words(text@) =~= words(text@));
    while pos < text.len()
        invariant
            pos <= text.len(),
            views(out@) + words(text@.skip(pos as int)) == words(text@),
        decreases text.len() - pos,
    {
        let ghost rest = text@.skip(pos as int);
        let ghost before = out@;
        assert(rest[0] == text@[pos as int]);
        if is_space_char(text[pos]) {
            assert(rest.skip(1) =~= text@.skip(pos + 1));
            pos += 1;
        } else {
            let mut end: usize = pos + 1;
            while end < text.len() && !is_space_char(text[end])
                invariant
                    pos < end <= text.len(),
                    forall|j: int| pos <= j < end ==> !is_space(text@[j]),
                decreases text.len() - end,
            {
                end += 1;
            }
            proof {
                assert forall|j: int| 0 <= j < end - pos implies !is_space(rest[j]) by {
                    assert(rest[j] == text@[pos + j]);
                }
                if end < text@.len() {
                    assert(rest[end - pos] == text@[end as int]);
                }
                lemma_word_len(rest, end - pos);
            }
            let word = copy_range(text, pos, end);
            proof {
                assert(word@ =~= rest.take(end - pos));
                assert(rest.skip(end - pos) =~= text@.skip(end as int));
            }
            out.push(word);
            proof {
                assert(views(out@) =~= views(before) + seq![word@]);
                assert(views(out@) + words(text@.skip(end as int)) =~= views(before) + words(rest));
            }
            pos = end;
        }
    }
    proof {
        assert(text@.skip(pos as int) =~= Seq::<char>::empty());
        assert(views(out@) + words(text@.skip(pos as int)) =~= views(out@));
    }
    out
}

/// Whether `s` holds `a` at `at` and `b` right after it.
pub open spec fn pair_at(s: Seq<char>, at: int, a: char, b: char) -> bool {
    0 <= at && at + 1 < s.len() && s[at] == a && s[at + 1] == b
}

/// The index of the first `a` of `s` that `b` follows, or `s.len()` where
/// there is none.
pub open spec fn index_of_pair(s: Seq<char>, a: char, b: char) -> int
    decreases s.len(),
{
    if s.len() < 2 {
        s.len() as int
    } else if s[0] == a && s[1] == b {
        0
    } else {
        1 + index_of_pair(s.skip(1), a, b)
    }
}

/// A scan that meets no pair before `at`, and stops at one or at the end
/// of the text, has found the first pair.
pub proof fn lemma_index_of_pair(s: Seq<char>, a: char, b: char, at: int)
    requires
        0 <= at <= s.len(),
        forall|j: int| 0 <= j < at ==> !#[trigger] pair_at(s, j, a, b),
        at < s.len() ==> pair_at(s, at, a, b),
    ensures
        index_of_pair(s, a, b) == at,
    decreases s.len(),
{
    if s.len() < 2 {
        if at < s.len() {
            assert(pair_at(s, at, a, b));
        }
    } else if at == 0 {
        assert(pair_at(s, 0, a, b));
    } else {
        let rest = s.skip(1);
        assert(!pair_at(s, 0, a, b));
        assert forall|j: int| 0 <= j < at - 1 implies !#[trigger] pair_at(rest, j, a, b) by {
            assert(!pair_at(s, j + 1, a, b));
        }
        if at < s.len() {
            assert(pair_at(s, at, a, b));
            assert(pair_at(rest, at - 1, a, b));
        }
        lemma_index_of_pair(rest, a, b, at - 1);
    }
}

/// Finds the first `a` of `text`, from `from` on, that `b` follows.
pub fn find_pair(text: &Vec<char>, from: usize, a: char, b: char) -> (at: usize)
    requires
        from <= text@.len(),
    ensures
        at - from == index_of_pair(text@.skip(from as int), a, b),
        from <= at <= text@.len(),
        at < text@.len() ==> pair_at(text@, at as int, a, b),
        forall|j: int| from <= j < at ==> !#[trigger] pair_at(text@, j, a, b),
{
    let ghost rest = text@.skip(from as int);
    let mut at: usize = from;
    while at < text.len() && !(text.len() - at > 1 && text[at] == a && text[at + 1] == b)
        invariant
            from <= at <= text@.len(),
            forall|j: int| from <= j < at ==> !#[trigger] pair_at(text@, j, a, b),
        decreases text.len() - at,
    {
        at += 1;
    }
    proof {
        assert forall|j: int| 0 <= j < at - from implies !#[trigger] pair_at(rest, j, a, b) by {
            assert(!pair_at(text@, from + j, a, b));
        }
        if at < text@.len() {
            assert(pair_at(rest, at - from, a, b));
        }
        lemma_index_of_pair(rest, a, b, at - from);
    }
    at
}

/// The index of the last `a` of `s` that `b` follows, or `-1` where there
/// is none.
pub open spec fn last_index_of_pair(s: Seq<char>, a: char, b: char) -> int
    decreases s.len(),
{
    if s.len() < 2 {
        -1
    } else if s[s.len() - 2] == a && s[s.len() - 1] == b {
        s.len() - 2
    } else {
        last_index_of_pair(s.drop_last(), a, b)
    }
}

/// A scan from the end that meets no pair after `at`, and stops at one or
/// before the start of the text, has found the last pair.
pub proof fn lemma_last_index_of_pair(s: Seq<char>, a: char, b: char, at: int)
    requires
        -1 <= at < s.len(),
        forall|j: int| at < j < s.len() ==> !#[trigger] pair_at(s, j, a, b),
        at >= 0 ==> pair_at(s, at, a, b),
    ensures
        last_index_of_pair(s, a, b) == at,
    decreases s.len(),
{
    if s.len() < 2 {
        if at >= 0 {
            assert(pair_at(s, at, a, b));
        }
    } else if s[s.len() - 2] == a && s[s.len() - 1] == b {
        assert(pair_at(s, s.len() - 2, a, b));
        if at >= 0 {
            assert(pair_at(s, at, a, b));
        }
    } else {
        let rest = s.drop_last();
        assert(!pair_at(s, s.len() - 2, a, b));
        assert forall|j: int| at < j < rest.len() implies !#[trigger] pair_at(rest, j, a, b) by {
            assert(!pair_at(s, j, a, b));
        }
        if at >= 0 {
            assert(pair_at(s, at, a, b));
            assert(pair_at(rest, at, a, b));
        }
        lemma_last_index_of_pair(rest, a, b, at);
    }
}

/// Finds the last `a` of `text` that `b` follows.
pub fn find_last_pair(text: &Vec<char>, a: char, b: char) -> (at: Option<usize>)
    ensures
        match at {
            Some(at) => at == last_index_of_pair(text@, a, b) && at + 2 <= text@.len(),
            None => last_index_of_pair(text@, a, b) == -1,
        },
{
    if text.len() < 2 {
        return None;
    }
    let mut at: usize = text.len() - 2;
    loop
        invariant
            at + 2 <= text.len(),
            forall|j: int| at < j < text@.len() ==> !#[trigger] pair_at(text@, j, a, b),
        decreases at,
    {
        if text[at] == a && text[at + 1] == b {
            proof {
                lemma_last_index_of_pair(text@, a, b, at as int);
            }
            return Some(at);
        }
        if at == 0 {
            proof {
                lemma_last_index_of_pair(text@, a, b, -1);
            }
            return None;
        }
        at -= 1;
    }
}

/// The parts of `s` between its pairs of `a` and `b`, the pairs taken from
/// left to right. A text without pair is one part.
pub open spec fn split_at_pairs(s: Seq<char>, a: char, b: char) -> Seq<Seq<char>>
    decreases s.len(),
{
    let at = index_of_pair(s, a, b);
    if 0 <= at && at + 2 <= s.len() {
        seq![s.take(at)] + split_at_pairs(s.skip(at + 2), a, b)
    } else {
        seq![s]
    }
}

/// Splits `text` at its pairs of `a` and `b`.
pub fn split_pairs(text: &Vec<char>, a: char, b: char) -> (out: Vec<Vec<char>>)
    ensures
        views(out@) == split_at_pairs(text@, a, b),
{
    let mut out: Vec<Vec<char>> = Vec::new();
    let mut pos: usize = 0;
    assert(text@.skip(0) =~= text@);
    assert(views(out@) + split_at_pairs(text@, a, b) =~= split_at_pairs(text@, a, b));
    loop
        invariant_except_break
            pos <= text@.len(),
            views(out@) + split_at_pairs(text@.skip(pos as int), a, b) == split_at_pairs(text@, a, b),
        ensures
            views(out@) == split_at_pairs(text@, a, b),
        decreases text.len() - pos,
    {
        let ghost rest = text@.skip(pos as int);
        let ghost before = out@;
        let at = find_pair(text, pos, a, b);
        if at < text.len() {
            let part = copy_range(text, pos, at);
            proof {
                assert(part@ =~= rest.take(at - pos));
                assert(rest.skip(at - pos + 2) =~= text@.skip(at + 2));
            }
            out.push(part);
            proof {
                assert(views(out@) =~= views(before) + seq![part@]);
                assert(views(out@) + split_at_pairs(text@.skip(at + 2), a, b) =~= views(before)
                    + split_at_pairs(rest, a, b));
            }
            pos = at + 2;
        } else {
            let part = copy_range(text, pos, text.len());
            proof {
                assert(part@ =~= rest);
                assert(split_at_pairs(rest, a, b) =~= seq![rest]);
            }
            out.push(part);
            proof {
                assert(views(out@) =~= views(before) + seq![part@]);
            }
            break ;
        }
    }
    out
}

/// The parts of `s` between its characters `c`. A text without `c` is one
/// part.
pub open spec fn split_at_char(s: Seq<char>, c: char) -> Seq<Seq<char>>
    decreases s.len(),
{
    let at = index_of(s, c);
    if 0 <= at < s.len() {
        seq![s.take(at)] + split_at_char(s.skip(at + 1), c)
    } else {
        seq![s]
    }
}

/// Splits `text` at its characters `c`.
pub fn split_chars(text: &Vec<char>, c: char) -> (out: Vec<Vec<char>>)
    ensures
        views(out@) == split_at_char(text@, c),
{
    let mut out: Vec<Vec<char>> = Vec::new();
    let mut pos: usize = 0;
    assert(text@.skip(0) =~= text@);
    assert(views(out@) + split_at_char(text@, c) =~= split_at_char(text@, c));
    loop
        invariant_except_break
            pos <= text@.len(),
            views(out@) + split_at_char(text@.skip(pos as int), c) == split_at_char(text@, c),
        ensures
            views(out@) == split_at_char(text@, c),
        decreases text.len() - pos,
    {
        let ghost rest = text@.skip(pos as int);
        let ghost before = out@;
        let mut at: usize = pos;
        while at < text.len() && text[at] != c
            invariant
                pos <= at <= text@.len(),
                forall|j: int| pos <= j < at ==> text@[j] != c,
            decreases text.len() - at,
        {
            at += 1;
        }
        proof {
            assert forall|j: int| 0 <= j < at - pos implies rest[j] != c by {
                assert(rest[j] == text@[pos + j]);
            }
            if at < text@.len() {
                assert(rest[at - pos] == text@[at as int]);
            }
            lemma_index_of(rest, c, at - pos);
        }
        let part = copy_range(text, pos, at);
        assert(part@ =~= rest.take(at - pos));
        out.push(part);
        assert(views(out@) =~= views(before) + seq![part@]);
        if at < text.len() {
            proof {
                assert(rest.skip(at - pos + 1) =~= text@.skip(at + 1));
                assert(views(out@) + split_at_char(text@.skip(at + 1), c) =~= views(before) + split_at_char(
                    rest,
                    c,
                ));
            }
            pos = at + 1;
        } else {
            proof {
                assert(rest.take(at - pos) =~= rest);
                assert(split_at_char(rest, c) =~= seq![rest]);
            }
            break ;
        }
    }
    out
}

/// `s` without the white space it begins with.
pub open spec fn trim_start(s: Seq<char>) -> Seq<char>
    decreases s.len(),
{
    if s.len() > 0 && is_space(s[0]) {
        trim_start(s.skip(1))
    } else {
        s
    }
}

/// `s` without the white space it ends with.
pub open spec fn trim_end(s: Seq<char>) -> Seq<char>
    decreases s.len(),
{
    if s.len() > 0 && is_space(s.last()) {
        trim_end(s.drop_last())
    } else {
        s
    }
}

/// `s` without the ASCII white space around it.
pub open spec fn trim(s: Seq<char>) -> Seq<char> {
    trim_end(trim_start(s))
}

/// `text` without the ASCII white space around it.
pub fn trimmed(text: &Vec<char>) -> (out: Vec<char>)
    ensures
        out@ == trim(text@),
{
    let mut from: usize = 0;
    assert(text@.skip(0) =~= text@);
    while from < text.len() && is_space_char(text[from])
        invariant
            from <= text@.len(),
            trim_start(text@.skip(from as int)) == trim_start(text@),
        decreases text.len() - from,
    {
        assert(text@.skip(from as int)[0] == text@[from as int]);
        assert(text@.skip(from as int).skip(1) =~= text@.skip(from + 1));
        from += 1;
    }
    let ghost started = text@.skip(from as int);
    proof {
        if from < text@.len() {
            assert(started[0] == text@[from as int]);
        }
        assert(trim_start(text@) == started);
    }
    let mut to: usize = text.len();
    assert(text@.subrange(from as int, to as int) =~= started);
    while to > from && is_space_char(text[to - 1])
        invariant
            from <= to <= text@.len(),
            trim_end(text@.subrange(from as int, to as int)) == trim_end(started),
        decreases to,
    {
        let ghost now = text@.subrange(from as int, to as int);
        assert(now.last() == text@[to - 1]);
        assert(now.drop_last() =~= text@.subrange(from as int, to - 1));
        to -= 1;
    }
    proof {
        let now = text@.subrange(from as int, to as int);
        if to > from {
            assert(now.last() == text@[to - 1]);
        }
        assert(trim_end(now) == now);
    }
    copy_range(text, from, to)
}

} // verus!
