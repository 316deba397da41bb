//! Reading decimal numerals.
use vstd::prelude::*;
use crate::util::text::to_chars;

verus! {

/// Whether `c` is one of the digits `0` to `9`.
pub open spec fn is_digit(c: char) -> bool {
    '0' <= c <= '9'
}

/// The number that the digit `c` stands for.
pub open spec fn digit_value(c: char) -> nat {
    (c as nat - '0' as nat) as nat
}

/// Whether `s` holds digits only.
pub open spec fn all_digits(s: Seq<char>) -> bool {
    forall|i: int| 0 <= i < s.len() ==> is_digit(#[trigger] s[i])
}

/// The number that the digits `s` write in base ten; zero for no digits.
pub open spec fn value_of(s: Seq<char>) -> nat
    decreases s.len(),
{
    if s.len() == 0 {
        0
    } else {
        value_of(s.drop_last()) * 10 + digit_value(s.last())
    }
}

/// `s` without the sign it may begin with.
pub open spec fn unsigned_part(s: Seq<char>, signs: Seq<char>) -> Seq<char> {
    if s.len() > 0 && signs.contains(s[0]) {
        s.skip(1)
    } else {
        s
    }
}

/// The number that `s` writes, where `s` is a numeral of a number up to
/// `max`: one digit or more, after a `+` or nothing.
pub open spec fn parse_unsigned(s: Seq<char>, max: nat) -> Option<nat> {
    let body = unsigned_part(s, seq!['+']);
    if body.len() > 0 && all_digits(body) && value_of(body) <= max {
        Some(value_of(body))
    } else {
        None
    }
}

/// The number that `s` writes, where `s` is a numeral of a number from
/// `min` to `max`: one digit or more, after a `+`, a `-` or nothing.
pub open spec fn parse_signed(s: Seq<char>, min: int, max: int) -> Option<int> {
    let body = unsigned_part(s, seq!['+', '-']);
    let value = if s.len() > 0 && s[0] == '-' {
        -(value_of(body) as int)
    } else {
        value_of(body) as int
    };
    if body.len() > 0 && all_digits(body) && min <= value <= max {
        Some(value)
    } else {
        None
    }
}

/// More digits never write a smaller number.
pub proof fn lemma_value_grows(s: Seq<char>, n: int)
    requires
        0 <= n <= s.len(),
    ensures
        value_of(s.take(n)) <= value_of(s),
    decreases s.len() - n,
{
    if n < s.len() {
        lemma_value_grows(s, n + 1);
        assert(s.take(n + 1).drop_last() =~= s.take(n));
    } else {
        assert(s.take(n) =~= s);
    }
}

/// The number that the digit `c` stands for, if it is one.
pub fn to_digit(c: char) -> (d: Option<u8>)
    ensures
        d is Some <==> is_digit(c),
        d matches Some(value) ==> value == digit_value(c) && value < 10,
{
    match c {
        '0' => Some(0),
        '1' => Some(1),
        '2' => Some(2),
        '3' => Some(3),
        '4' => Some(4),
        '5' => Some(5),
        '6' => Some(6),
        '7' => Some(7),
        '8' => Some(8),
        '9' => Some(9),
        _ => None,
    }
}

/// Reads the characters of `text` from `from` on as digits of a number up
/// to `max`.
pub fn parse_digits(text: &Vec<char>, from: usize, max: u128) -> (r: Option<u128>)
    requires
        from <= text.len(),
    ensures
        ({
            let body = text@.skip(from as int);
            r == (if body.len() > 0 && all_digits(body) && value_of(body) <= max {
                Some(value_of(body) as u128)
            } else {
                None
            })
        }),
{
    let ghost body = text@.skip(from as int);
    if from == text.len() {
        return None;
    }
    let mut value: u128 = 0;
    let mut i: usize = from;
    assert(body.take(0) =~= Seq::<char>::empty());
    while i < text.len()
        invariant
            from <= i <= text.len(),
            body == text@.skip(from as int),
            all_digits(body.take(i - from)),
            value == value_of(body.take(i - from)),
            value <= max,
        decreases text.len() - i,
    {
        let c = text[i];
        assert(body[i - from] == c);
        let ghost next = body.take(i - from + 1);
        assert(next.drop_last() =~= body.take(i - from));
        assert(next.last() == c);
        let digit = match to_digit(c) {
            Some(digit) => digit,
            None => {
                return None;
            },
        };
        if digit as u128 > max || value > (max - digit as u128) / 10 {
            proof {
                assert(value_of(next) == value * 10 + digit);
                assert(value * 10 + digit > max) by (nonlinear_arith)
                    requires
                        digit > max || value > (max - digit) / 10,
                        value >= 0,
                ;
                lemma_value_grows(body, i - from + 1);
            }
            return None;
        }
        assert(value * 10 + digit <= max) by (nonlinear_arith)
            requires
                value <= (max - digit) / 10,
                max - digit >= 0,
        ;
        value = value * 10 + digit as u128;
        proof {
            assert forall|j: int| 0 <= j < next.len() implies is_digit(#[trigger] next[j]) by {
                if j < i - from {
                    assert(body.take(i - from)[j] == next[j]);
                }
            }
        }
        i += 1;
    }
    assert(body.take(i - from) =~= body);
    Some(value)
}

/// Reads `text` as the numeral of a number up to `max`.
pub fn parse_unsigned_chars(text: &Vec<char>, max: u128) -> (r: Option<u128>)
    ensures
        parse_unsigned(text@, max as nat) == (match r {
            Some(value) => Some(value as nat),
            None => None,
        }),
{
    let from: usize = if text.len() > 0 && text[0] == '+' {
        1
    } else {
        0
    };
    proof {
        if text@.len() > 0 && text@[0] == '+' {
            assert(seq!['+'].contains('+')) by {
                assert(seq!['+'][0] == '+');
            }
        }
        assert(text@.skip(0) =~= text@);
    }
    parse_digits(text, from, max)
}

/// Reads `text` as the numeral of a number from `min` to `max`.
pub fn parse_signed_chars(text: &Vec<char>, min: i64, max: i64) -> (r: Option<i64>)
    requires
        min <= 0 <= max,
    ensures
        parse_signed(text@, min as int, max as int) == (match r {
            Some(value) => Some(value as int),
            None => None,
        }),
{
    let negative = text.len() > 0 && text[0] == '-';
    let from: usize = if text.len() > 0 && (text[0] == '+' || text[0] == '-') {
        1
    } else {
        0
    };
    proof {
        let signs = seq!['+', '-'];
        assert(signs[0] == '+' && signs[1] == '-');
        if text@.len() > 0 {
            assert(signs.contains(text@[0]) <==> (text@[0] == '+' || text@[0] == '-'));
        }
        assert(text@.skip(0) =~= text@);
    }
    let bound: u128 = if negative {
        (-(min as i128)) as u128
    } else {
        max as u128
    };
    match parse_digits(text, from, bound) {
        Some(value) => {
            if negative {
                Some((-(value as i128)) as i64)
            } else {
                Some(value as i64)
            }
        },
        None => None,
    }
}

/// Reads `s` as an unsigned 32-bit number.
pub fn parse_u32(s: &str) -> (r: Option<u32>)
    ensures
        parse_unsigned(s@, u32::MAX as nat) == (match r {
            Some(value) => Some(value as nat),
            None => None,
        }),
{
    let text = to_chars(s);
    match parse_unsigned_chars(&text, u32::MAX as u128) {
        Some(value) => Some(value as u32),
        None => None,
    }
}

/// Reads `s` as an unsigned 64-bit number.
pub fn parse_u64(s: &str) -> (r: Option<u64>)
    ensures
        parse_unsigned(s@, u64::MAX as nat) == (match r {
            Some(value) => Some(value as nat),
            None => None,
        }),
{
    let text = to_chars(s);
    match parse_unsigned_chars(&text, u64::MAX as u128) {
        Some(value) => Some(value as u64),
        None => None,
    }
}

/// Where the digits that begin at `pos` end: the index of the first
/// character from `pos` on that is no digit, or the length of `s`.
pub open spec fn digit_run(s: Seq<char>, pos: int) -> int
    decreases s.len() - pos,
{
    if 0 <= pos < s.len() && is_digit(s[pos]) {
        digit_run(s, pos + 1)
    } else {
        pos
    }
}

/// The number up to `max` that the digits from `pos` on write, as many as
/// there are, with the index after them. There must be one digit at least.
pub open spec fn read_number(s: Seq<char>, pos: int, max: nat) -> Option<(nat, int)> {
    let end = digit_run(s, pos);
    if pos < end && value_of(s.subrange(pos, end)) <= max {
        Some((value_of(s.subrange(pos, end)), end))
    } else {
        None
    }
}

/// The digits from `pos` on end at `end`, where only digits stand between
/// and none at `end`.
pub proof fn lemma_digit_run(s: Seq<char>, pos: int, end: int)
    requires
        0 <= pos <= end <= s.len(),
        forall|j: int| pos <= j < end ==> is_digit(#[trigger] s[j]),
        end < s.len() ==> !is_digit(s[end]),
    ensures
        digit_run(s, pos) == end,
    decreases end - pos,
{
    if pos < end {
        lemma_digit_run(s, pos + 1, end);
    }
}

/// Reads the number up to `max` that the digits of `text` from `pos` on
/// write.
pub fn read_digits(text: &Vec<char>, pos: usize, max: u128) -> (r: Option<(u128, usize)>)
    requires
        pos <= text@.len(),
    ensures
        match r {
            Some((value, end)) => read_number(text@, pos as int, max as nat) == Some((value as nat, end as int))
                && pos < end <= text@.len(),
            None => read_number(text@, pos as int, max as nat) is None,
        },
{
    let mut end: usize = pos;
    while end < text.len() && to_digit(text[end]).is_some()
        invariant
            pos <= end <= text@.len(),
            forall|j: int| pos <= j < end ==> is_digit(#[trigger] text@[j]),
        decreases text.len() - end,
    {
        end += 1;
    }
    proof {
        lemma_digit_run(text@, pos as int, end as int);
    }
    if end == pos {
        return None;
    }
    let digits = crate::util::text::copy_range(text, pos, end);
    assert(digits@.skip(0) =~= digits@);
    match parse_digits(&digits, 0, max) {
        Some(value) => Some((value, end)),
        None => {
            assert(all_digits(digits@));
            None
        },
    }
}

} // verus!
