//! Day 10: machines with lights, and buttons that toggle them.
use vstd::prelude::*;
use crate::solution::Solution;
use crate::util::parse::{read_digits, read_number};
use crate::util::text::{lines, split_lines, to_chars, views};
use crate::y2025::{shown, PuzzleError};

verus! {

/// A machine: the lights that are to be lit, as bits; for each button the
/// lights that it toggles, as bits; and the joltage asked of each counter.
#[derive(Debug)]
pub struct Machine {
    pub lights: u32,
    pub buttons: Vec<u32>,
    pub joltage: Vec<u32>,
}

/// Whether the bit `b` of `bits` is set.
pub open spec fn bit_set(bits: u32, b: u32) -> bool {
    (1u32 << b) & bits != 0
}

/// What the lights show when, of the first `upto` buttons, those are
/// pressed whose bit is set in `pattern`: a light is lit where an odd
/// number of the buttons pressed toggle it.
pub open spec fn pressed(buttons: Seq<u32>, pattern: u32, upto: int) -> u32
    decreases upto,
{
    if upto <= 0 {
        0
    } else if bit_set(pattern, (upto - 1) as u32) {
        pressed(buttons, pattern, upto - 1) ^ buttons[upto - 1]
    } else {
        pressed(buttons, pattern, upto - 1)
    }
}

/// How many of the first `upto` bits of `pattern` are set.
pub open spec fn ones(pattern: u32, upto: int) -> nat
    decreases upto,
{
    if upto <= 0 {
        0
    } else {
        ones(pattern, upto - 1) + (if bit_set(pattern, (upto - 1) as u32) {
            1nat
        } else {
            0nat
        })
    }
}

/// Whether pressing the buttons of `pattern` lights exactly the lights
/// asked for.
pub open spec fn lights_up(machine: &Machine, pattern: u32) -> bool {
    lights(machine.lights, machine.buttons@, pattern)
}

/// Whether pressing the buttons of `pattern`, of `buttons`, lights exactly
/// the lights `wanted`.
pub open spec fn lights(wanted: u32, buttons: Seq<u32>, pattern: u32) -> bool {
    pressed(buttons, pattern, buttons.len() as int) == wanted
}

/// The bits that are set in `bits`, in ascending order.
pub fn iter_ones(bits: u32) -> (set: Vec<u32>)
    ensures
        forall|k: int| 0 <= k < set@.len() ==> (#[trigger] set@[k]) < 32 && bit_set(bits, set@[k]),
        forall|b: u32| b < 32 && bit_set(bits, b) ==> #[trigger] set@.contains(b),
        forall|j: int, k: int| 0 <= j < k < set@.len() ==> (#[trigger] set@[j]) < (#[trigger] set@[k]),
{
    let mut set: Vec<u32> = Vec::new();
    let mut b: u32 = 0;
    while b < 32
        invariant
            b <= 32,
            forall|k: int| 0 <= k < set@.len() ==> (#[trigger] set@[k]) < b && bit_set(bits, set@[k]),
            forall|c: u32| c < b && bit_set(bits, c) ==> #[trigger] set@.contains(c),
            forall|j: int, k: int| 0 <= j < k < set@.len() ==> (#[trigger] set@[j]) < (#[trigger] set@[k]),
        decreases 32 - b,
    {
        let ghost before = set@;
        if (1u32 << b) & bits != 0 {
            set.push(b);
            proof {
                assert(set@[before.len() as int] == b);
                assert forall|c: u32| c < b + 1 && bit_set(bits, c) implies #[trigger] set@.contains(c) by {
                    if c < b {
                        assert(before.contains(c));
                        let k = choose|k: int| 0 <= k < before.len() && before[k] == c;
                        assert(set@[k] == c);
                    }
                }
            }
        }
        b += 1;
    }
    set
}

/// A pattern below two to the power of `n` has no bit set from `n` on.
proof fn lemma_low_bits(pattern: u32, n: u32, b: u32)
    by (bit_vector)
    requires
        n < 32,
        pattern < (1u32 << n),
        n <= b < 32,
    ensures
        (1u32 << b) & pattern == 0,
{
}

impl Machine {
    /// The machine with the lights, buttons and joltages given.
    pub fn new(lights: u32, buttons: Vec<u32>, joltage: Vec<u32>) -> (machine: Machine)
        ensures
            machine.lights == lights,
            machine.buttons == buttons,
            machine.joltage == joltage,
    {
        Machine { lights, buttons, joltage }
    }

    /// What pressing the buttons of `pattern` makes of the lights, and how
    /// many buttons that are.
    fn try_pattern(&self, pattern: u32) -> (r: (u32, u32))
        requires
            self.buttons@.len() <= 31,
            pattern < (1u32 << (self.buttons@.len() as u32)),
        ensures
            r.0 == pressed(self.buttons@, pattern, self.buttons@.len() as int),
            r.1 == ones(pattern, self.buttons@.len() as int),
            r.1 <= self.buttons@.len(),
    {
        let mut result: u32 = 0;
        let mut presses: u32 = 0;
        let mut b: u32 = 0;
        while (b as usize) < self.buttons.len()
            invariant
                b <= self.buttons@.len() <= 31,
                result == pressed(self.buttons@, pattern, b as int),
                presses == ones(pattern, b as int),
                presses <= b,
            decreases self.buttons@.len() - b,
        {
            if (1u32 << b) & pattern != 0 {
                result = result ^ self.buttons[b as usize];
                presses += 1;
            }
            b += 1;
        }
        (result, presses)
    }

    /// The fewest buttons that light exactly the lights asked for, with the
    /// least pattern of so many buttons that does it. Where no pattern does
    /// it, the result is the pattern of no button with the number of all
    /// patterns.
    pub fn solve_lights(&self) -> (r: (u32, u64))
        requires
            self.buttons@.len() <= 31,
        ensures
            ({
                let n = self.buttons@.len() as int;
                let limit = 1u32 << (n as u32);
                &&& forall|q: u32| q < limit && lights_up(self, q) ==> r.1 <= #[trigger] ones(q, n)
                &&& r.1 == limit ==> r.0 == 0 && forall|q: u32| q < limit ==> !#[trigger] lights_up(self, q)
                &&& r.1 != limit ==> r.0 < limit && lights_up(self, r.0) && r.1 == ones(r.0, n) && forall|q: u32|
                    q < r.0 && lights_up(self, q) ==> r.1 < #[trigger] ones(q, n)
            }),
    {
        let n = self.buttons.len() as u32;
        let limit: u32 = 1u32 << n;
        assert(n < limit) by (bit_vector)
            requires
                n <= 31,
                limit == 1u32 << n,
        ;
        let mut min: u32 = limit;
        let mut min_pattern: u32 = 0;
        let mut pattern: u32 = 0;
        while pattern < limit
            invariant
                pattern <= limit,
                n == self.buttons@.len(),
                n <= 31,
                n < limit,
                limit == 1u32 << n,
                min <= limit,
                forall|q: u32| q < pattern && lights_up(self, q) ==> min <= #[trigger] ones(q, n as int),
                min == limit ==> min_pattern == 0 && forall|q: u32|
                    q < pattern ==> !#[trigger] lights_up(self, q),
                min != limit ==> min_pattern < pattern && lights_up(self, min_pattern) && min == ones(
                    min_pattern,
                    n as int,
                ) && forall|q: u32| q < min_pattern && lights_up(self, q) ==> min < #[trigger] ones(q, n as int),
            decreases limit - pattern,
        {
            let (result, presses) = self.try_pattern(pattern);
            if result == self.lights && presses < min {
                min = presses;
                min_pattern = pattern;
            }
            pattern += 1;
        }
        (min_pattern, min as u64)
    }
}

/// The lights that the first `upto` of `chars` ask for: the light `i`
/// where a `#` stands at `i`. There are lights from 0 to 31 only.
pub open spec fn lights_of(chars: Seq<char>, upto: int) -> Option<u32>
    decreases upto,
{
    if upto <= 0 {
        Some(0)
    } else {
        match lights_of(chars, upto - 1) {
            None => None,
            Some(lights) => if chars[upto - 1] == '#' {
                if upto - 1 < 32 {
                    Some(lights | (1u32 << ((upto - 1) as u32)))
                } else {
                    None
                }
            } else {
                Some(lights)
            },
        }
    }
}

proof fn lemma_lights_fail(chars: Seq<char>, n: int, upto: int)
    requires
        0 <= n <= upto,
        lights_of(chars, n) is None,
    ensures
        lights_of(chars, upto) is None,
    decreases upto - n,
{
    if n < upto {
        lemma_lights_fail(chars, n, upto - 1);
    }
}

/// Reads the lights that `chars` ask for.
pub fn parse_lights(chars: &Vec<char>) -> (r: Option<u32>)
    ensures
        r == lights_of(chars@, chars@.len() as int),
{
    let mut lights: u32 = 0;
    let mut i: usize = 0;
    while i < chars.len()
        invariant
            i <= chars@.len(),
            lights_of(chars@, i as int) == Some(lights),
        decreases chars.len() - i,
    {
        if chars[i] == '#' {
            if i >= 32 {
                proof {
                    lemma_lights_fail(chars@, i + 1, chars@.len() as int);
                }
                return None;
            }
            lights = lights | (1u32 << (i as u32));
        }
        i += 1;
    }
    Some(lights)
}

/// The light that the number at `pos` names, as a bit, with the index
/// after the number.
pub open spec fn read_bit(s: Seq<char>, pos: int) -> Option<(u32, int)> {
    match read_number(s, pos, u32::MAX as nat) {
        Some((light, end)) => if light < 32 {
            Some((1u32 << (light as u32), end))
        } else {
            None
        },
        None => None,
    }
}

fn parse_bit(text: &Vec<char>, pos: usize) -> (r: Option<(u32, usize)>)
    requires
        pos <= text@.len(),
    ensures
        match r {
            Some((bit, end)) => read_bit(text@, pos as int) == Some((bit, end as int)) && pos < end
                <= text@.len(),
            None => read_bit(text@, pos as int) is None,
        },
{
    match read_digits(text, pos, u32::MAX as u128) {
        Some((light, end)) => if light < 32 {
            Some((1u32 << (light as u32), end))
        } else {
            None
        },
        None => None,
    }
}

/// The lights of a button from `pos` on, after the lights `bits` read
/// before: as long as a comma and a number follow, the light of that
/// number is joined. The result holds the index where that ends.
pub open spec fn button_rest(s: Seq<char>, pos: int, bits: u32) -> (u32, int)
    decreases s.len() - pos,
{
    if 0 <= pos < s.len() && s[pos] == ',' {
        match read_bit(s, pos + 1) {
            Some((bit, end)) => if pos < end <= s.len() {
                button_rest(s, end, bits | bit)
            } else {
                (bits, pos)
            },
            None => (bits, pos),
        }
    } else {
        (bits, pos)
    }
}

/// The lights of the button written at `pos`: numbers with commas between.
pub open spec fn read_button(s: Seq<char>, pos: int) -> Option<(u32, int)> {
    match read_bit(s, pos) {
        Some((bit, end)) => Some(button_rest(s, end, bit)),
        None => None,
    }
}

/// Reads the lights of the button written at `pos`.
pub fn parse_button(text: &Vec<char>, pos: usize) -> (r: Option<(u32, usize)>)
    requires
        pos <= text@.len(),
    ensures
        match r {
            Some((bits, end)) => read_button(text@, pos as int) == Some((bits, end as int)) && pos < end
                <= text@.len(),
            None => read_button(text@, pos as int) is None,
        },
{
    let (first, start) = match parse_bit(text, pos) {
        Some(read) => read,
        None => {
            return None;
        },
    };
    let mut bits = first;
    let mut at = start;
    loop
        invariant_except_break
            pos < at <= text@.len(),
            button_rest(text@, at as int, bits) == button_rest(text@, start as int, first),
        ensures
            pos < at <= text@.len(),
            (bits, at as int) == button_rest(text@, start as int, first),
        decreases text@.len() - at,
    {
        if at < text.len() && text[at] == ',' {
            match parse_bit(text, at + 1) {
                Some((bit, end)) => {
                    bits = bits | bit;
                    at = end;
                },
                None => {
                    break ;
                },
            }
        } else {
            break ;
        }
    }
    Some((bits, at))
}

/// The button written in brackets at `pos`, with a blank after the
/// closing bracket.
pub open spec fn read_group(s: Seq<char>, pos: int) -> Option<(u32, int)> {
    if 0 <= pos < s.len() && s[pos] == '(' {
        match read_button(s, pos + 1) {
            Some((bits, end)) => if end + 1 < s.len() && s[end] == ')' && s[end + 1] == ' ' {
                Some((bits, end + 2))
            } else {
                None
            },
            None => None,
        }
    } else {
        None
    }
}

/// The buttons written from `pos` on, as many as there are, with the index
/// where they end.
pub open spec fn read_groups(s: Seq<char>, pos: int) -> (Seq<u32>, int)
    decreases s.len() - pos,
{
    match read_group(s, pos) {
        Some((bits, end)) => if pos < end <= s.len() {
            let (rest, last) = read_groups(s, end);
            (seq![bits] + rest, last)
        } else {
            (Seq::empty(), pos)
        },
        None => (Seq::empty(), pos),
    }
}

/// The numbers written from `pos` on, each after a comma, as many as
/// there are, with the index where they end.
pub open spec fn read_list_rest(s: Seq<char>, pos: int) -> (Seq<u32>, int)
    decreases s.len() - pos,
{
    if 0 <= pos < s.len() && s[pos] == ',' {
        match read_number(s, pos + 1, u32::MAX as nat) {
            Some((value, end)) => if pos < end <= s.len() {
                let (rest, last) = read_list_rest(s, end);
                (seq![value as u32] + rest, last)
            } else {
                (Seq::empty(), pos)
            },
            None => (Seq::empty(), pos),
        }
    } else {
        (Seq::empty(), pos)
    }
}

/// The machine that `line` describes: the lights in square brackets, `#`
/// for a light that is to be lit; then a blank and the buttons, each in
/// round brackets with a blank after it; then the joltages in braces.
/// What follows the closing brace is not read.
pub open spec fn spec_parse(line: Seq<char>) -> Option<(u32, Seq<u32>, Seq<u32>)> {
    if line.len() == 0 || line[0] != '[' {
        None
    } else {
        let close = 1 + crate::util::text::index_of(line.skip(1), ']');
        if !(close + 1 < line.len() && line[close + 1] == ' ') {
            None
        } else {
            match lights_of(line.subrange(1, close), close - 1) {
                None => None,
                Some(lights) => {
                    let (buttons, open) = read_groups(line, close + 2);
                    if buttons.len() == 0 || !(0 <= open < line.len() && line[open] == '{') {
                        None
                    } else {
                        match read_number(line, open + 1, u32::MAX as nat) {
                            None => None,
                            Some((first, next)) => {
                                let (rest, end) = read_list_rest(line, next);
                                if 0 <= end < line.len() && line[end] == '}' {
                                    Some((lights, buttons, seq![first as u32] + rest))
                                } else {
                                    None
                                }
                            },
                        }
                    }
                },
            }
        }
    }
}

/// Reads the machine that `line` describes.
pub fn parse(line: &Vec<char>) -> (r: Option<Machine>)
    ensures
        match r {
            Some(machine) => spec_parse(line@) == Some((machine.lights, machine.buttons@, machine.joltage@)),
            None => spec_parse(line@) is None,
        },
{
    if line.len() == 0 || line[0] != '[' {
        return None;
    }
    let rest = crate::util::text::copy_range(line, 1, line.len());
    assert(rest@ =~= line@.skip(1));
    let close = 1 + crate::util::text::find_char(&rest, ']');
    if !(close < line.len() && line.len() - close > 1 && line[close + 1] == ' ') {
        return None;
    }
    let between = crate::util::text::copy_range(line, 1, close);
    let lights = match parse_lights(&between) {
        Some(lights) => lights,
        None => {
            return None;
        },
    };
    let mut buttons: Vec<u32> = Vec::new();
    let mut at: usize = close + 2;
    let ghost start = at;
    assert(Seq::<u32>::empty() + read_groups(line@, at as int).0 =~= read_groups(line@, at as int).0);
    loop
        invariant_except_break
            start <= at <= line@.len(),
            buttons@ + read_groups(line@, at as int).0 == read_groups(line@, start as int).0,
            read_groups(line@, at as int).1 == read_groups(line@, start as int).1,
        ensures
            at <= line@.len(),
            (buttons@, at as int) == read_groups(line@, start as int),
        decreases line@.len() - at,
    {
        if !(at < line.len() && line[at] == '(') {
            assert(buttons@ + Seq::<u32>::empty() =~= buttons@);
            break ;
        }
        let (bits, end) = match parse_button(line, at + 1) {
            Some(read) => read,
            None => {
                assert(buttons@ + Seq::<u32>::empty() =~= buttons@);
                break ;
            },
        };
        if !(end < line.len() && line.len() - end > 1 && line[end] == ')' && line[end + 1] == ' ') {
            assert(buttons@ + Seq::<u32>::empty() =~= buttons@);
            break ;
        }
        let ghost before = buttons@;
        buttons.push(bits);
        proof {
            let (tail, last) = read_groups(line@, end + 2);
            assert(read_groups(line@, at as int).0 == seq![bits] + tail);
            assert(buttons@ + tail =~= before + (seq![bits] + tail));
        }
        at = end + 2;
    }
    if buttons.len() == 0 || !(at < line.len() && line[at] == '{') {
        return None;
    }
    let (first, next) = match read_digits(line, at + 1, u32::MAX as u128) {
        Some(read) => read,
        None => {
            return None;
        },
    };
    let mut joltage: Vec<u32> = Vec::new();
    joltage.push(first as u32);
    let mut pos: usize = next;
    assert(joltage@ + read_list_rest(line@, pos as int).0 =~= seq![first as u32] + read_list_rest(
        line@,
        next as int,
    ).0);
    loop
        invariant_except_break
            next <= pos <= line@.len(),
            joltage@ + read_list_rest(line@, pos as int).0 == seq![first as u32] + read_list_rest(
                line@,
                next as int,
            ).0,
            read_list_rest(line@, pos as int).1 == read_list_rest(line@, next as int).1,
        ensures
            pos <= line@.len(),
            joltage@ == seq![first as u32] + read_list_rest(line@, next as int).0,
            pos == read_list_rest(line@, next as int).1,
        decreases line@.len() - pos,
    {
        if !(pos < line.len() && line[pos] == ',') {
            assert(joltage@ + Seq::<u32>::empty() =~= joltage@);
            break ;
        }
        let (value, end) = match read_digits(line, pos + 1, u32::MAX as u128) {
            Some(read) => read,
            None => {
                assert(joltage@ + Seq::<u32>::empty() =~= joltage@);
                break ;
            },
        };
        let ghost before = joltage@;
        joltage.push(value as u32);
        proof {
            let (tail, last) = read_list_rest(line@, end as int);
            assert(read_list_rest(line@, pos as int).0 == seq![value as u32] + tail);
            assert(joltage@ + tail =~= before + (seq![value as u32] + tail));
        }
        pos = end;
    }
    if !(pos < line.len() && line[pos] == '}') {
        return None;
    }
    Some(Machine::new(lights, buttons, joltage))
}

/// Whether `presses` is the least number of buttons, of `buttons`, that
/// light exactly the lights `wanted`, or, where no buttons do, the number
/// of all patterns.
pub open spec fn fewest(wanted: u32, buttons: Seq<u32>, presses: nat) -> bool {
    let n = buttons.len() as int;
    let limit = 1u32 << (n as u32);
    &&& forall|q: u32| q < limit && lights(wanted, buttons, q) ==> presses <= #[trigger] ones(q, n)
    &&& presses == limit || exists|q: u32|
        q < limit && lights(wanted, buttons, q) && presses == #[trigger] ones(q, n)
}

/// Of the first `upto` bits at most `upto` are set.
proof fn lemma_ones_bound(pattern: u32, upto: int)
    requires
        upto >= 0,
    ensures
        ones(pattern, upto) <= upto,
    decreases upto,
{
    if upto > 0 {
        lemma_ones_bound(pattern, upto - 1);
    }
}

/// At most one number is the fewest presses for a machine.
pub proof fn lemma_fewest_one(wanted: u32, buttons: Seq<u32>, a: nat, b: nat)
    requires
        buttons.len() <= 31,
        fewest(wanted, buttons, a),
        fewest(wanted, buttons, b),
    ensures
        a == b,
{
    let n = buttons.len() as int;
    let width = n as u32;
    let limit = 1u32 << width;
    assert(width < limit) by (bit_vector)
        requires
            width <= 31,
            limit == 1u32 << width,
    ;
    if a != limit {
        let qa = choose|q: u32| q < limit && lights(wanted, buttons, q) && a == #[trigger] ones(q, n);
        lemma_ones_bound(qa, n);
        assert(b <= ones(qa, n));
    }
    if b != limit {
        let qb = choose|q: u32| q < limit && lights(wanted, buttons, q) && b == #[trigger] ones(q, n);
        lemma_ones_bound(qb, n);
        assert(a <= ones(qb, n));
    }
}

/// The fewest presses that light exactly the lights `wanted`, or, where no
/// buttons do, the number of all patterns.
pub open spec fn least_presses(wanted: u32, buttons: Seq<u32>) -> nat {
    choose|presses: nat| fewest(wanted, buttons, presses)
}

/// The sum, over the machines that the first `upto` of `rows` describe,
/// of the fewest presses that light the lights of each; or why there is
/// none: the first row that describes no machine is invalid, and a machine
/// with more than 31 buttons, or a sum that is no 64-bit number, is too
/// large.
pub open spec fn spec_total(rows: Seq<Seq<char>>, upto: int) -> Result<u64, PuzzleError>
    decreases upto,
{
    if upto <= 0 {
        Ok(0)
    } else {
        match spec_total(rows, upto - 1) {
            Err(error) => Err(error),
            Ok(before) => match spec_parse(rows[upto - 1]) {
                None => Err(PuzzleError::InvalidInput),
                Some(machine) => if machine.1.len() > 31 {
                    Err(PuzzleError::Overflow)
                } else if before + least_presses(machine.0, machine.1) > u64::MAX {
                    Err(PuzzleError::Overflow)
                } else {
                    Ok((before + least_presses(machine.0, machine.1)) as u64)
                },
            },
        }
    }
}

/// Once there is no sum for the first rows, there is none for more.
proof fn lemma_total_fails(rows: Seq<Seq<char>>, n: int, upto: int)
    requires
        0 <= n <= upto,
        spec_total(rows, n) is Err,
    ensures
        spec_total(rows, upto) == spec_total(rows, n),
    decreases upto - n,
{
    if n < upto {
        lemma_total_fails(rows, n, upto - 1);
    }
}

/// Adds the fewest button presses that light the lights of each machine.
pub fn a(input: &str) -> (r: Result<u64, PuzzleError>)
    ensures
        r == spec_total(lines(input@), lines(input@).len() as int),
{
    let text = to_chars(input);
    let rows = split_lines(&text);
    let ghost all = lines(input@);
    let mut total: u64 = 0;
    let mut i: usize = 0;
    while i < rows.len()
        invariant
            i <= rows@.len(),
            views(rows@) == all,
            all == lines(input@),
            spec_total(all, i as int) == Ok::<u64, PuzzleError>(total),
        decreases rows.len() - i,
    {
        assert(all[i as int] == rows@[i as int]@);
        let machine = match parse(&rows[i]) {
            Some(machine) => machine,
            None => {
                proof {
                    lemma_total_fails(all, i + 1, all.len() as int);
                }
                return Err(PuzzleError::InvalidInput);
            },
        };
        if machine.buttons.len() > 31 {
            proof {
                lemma_total_fails(all, i + 1, all.len() as int);
            }
            return Err(PuzzleError::Overflow);
        }
        let (pattern, presses) = machine.solve_lights();
        proof {
            let n = machine.buttons@.len() as int;
            let limit = 1u32 << (n as u32);
            if presses != limit {
                assert(pattern < limit && lights_up(&machine, pattern) && presses == ones(pattern, n));
            }
            assert(fewest(machine.lights, machine.buttons@, presses as nat));
            lemma_fewest_one(
                machine.lights,
                machine.buttons@,
                presses as nat,
                least_presses(machine.lights, machine.buttons@),
            );
        }
        total = match total.checked_add(presses) {
            Some(sum) => sum,
            None => {
                proof {
                    lemma_total_fails(all, i + 1, all.len() as int);
                }
                return Err(PuzzleError::Overflow);
            },
        };
        i += 1;
    }
    Ok(total)
}

/// The solver of part A. The solver of part B is not part of this
/// library.
pub fn solution() -> (solution: Solution)
    ensures
        solution.part_a() is Some,
        solution.part_b() is None,
{
    Solution::new().with_a(|input: &str| -> (r: Result<u64, String>) { shown(a(input)) })
}

} // verus!
