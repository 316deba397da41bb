//! Day 2: ranges of product numbers, and the numbers among them that are
//! made of a repeated pattern of digits.
use vstd::prelude::*;
use crate::solution::Solution;
use crate::util::parse::{parse_unsigned, parse_unsigned_chars};
use crate::util::text::{copy_range, find_char, index_of, split_at_char, split_chars, to_chars, trim, trimmed, views};
use crate::y2025::d03::{lemma_pow10_19, lemma_pow10_grows, pow10, power_of_ten};
use crate::y2025::{collect, lemma_collect_fails, shown, PuzzleError};

verus! {

/// How many digits the numeral of `n` has.
pub open spec fn digits(n: nat) -> nat
    decreases n,
{
    if n < 10 {
        1
    } else {
        1 + digits(n / 10)
    }
}

/// A number is less than ten to the power of the number of its digits, and
/// a number that is not zero is no less than the power before.
pub proof fn lemma_digits(n: nat)
    ensures
        n < pow10(digits(n)),
        n >= 1 ==> pow10((digits(n) - 1) as nat) <= n,
        digits(n) >= 1,
    decreases n,
{
    reveal_with_fuel(pow10, 2);
    if n >= 10 {
        lemma_digits(n / 10);
    }
}

/// A larger number has no fewer digits.
pub proof fn lemma_digits_grow(a: nat, b: nat)
    requires
        a <= b,
    ensures
        digits(a) <= digits(b),
    decreases b,
{
    if a >= 10 {
        lemma_digits_grow(a / 10, b / 10);
    }
}

/// A 64-bit number has no more than twenty digits.
pub proof fn lemma_digits_u64(n: u64)
    ensures
        digits(n as nat) <= 20,
{
    lemma_pow10_19();
    lemma_digits(n as nat);
    if digits(n as nat) > 20 {
        lemma_pow10_grows(20, (digits(n as nat) - 1) as nat);
        lemma_pow10_grows(19, 20);
        reveal_with_fuel(pow10, 2);
    }
}

/// The number of digits of `n`.
pub fn len(n: u64) -> (r: u32)
    ensures
        r == digits(n as nat),
        1 <= r <= 20,
{
    proof {
        lemma_digits_u64(n);
    }
    let mut rest = n;
    let mut count: u32 = 1;
    while rest >= 10
        invariant
            count + digits(rest as nat) == 1 + digits(n as nat),
            digits(n as nat) <= 20,
            count >= 1,
        decreases rest,
    {
        proof {
            lemma_digits((rest / 10) as nat);
        }
        rest = rest / 10;
        count += 1;
    }
    count
}

/// `n` itself where it has an even number of digits, else the least
/// number with one digit more; each with the number of its digits.
pub open spec fn spec_find_even_len(n: nat) -> (nat, nat) {
    if digits(n) % 2 == 0 {
        (n, digits(n))
    } else {
        (pow10(digits(n)), digits(n) + 1)
    }
}

/// The least number with an even number of digits that is no less than
/// `n`, unless `n` has one: then `n` itself.
pub fn find_even_len(n: u64) -> (r: (u64, u32))
    ensures
        r.0 == spec_find_even_len(n as nat).0,
        r.1 == spec_find_even_len(n as nat).1,
        r.1 % 2 == 0,
        2 <= r.1 <= 20,
{
    let count = len(n);
    if count % 2 == 0 {
        (n, count)
    } else {
        (power_of_ten(count), count + 1)
    }
}

/// `n` with `amt` zeros after it, where that is a 64-bit number.
pub fn upshift(n: u64, amt: u32) -> (r: Option<u64>)
    ensures
        r == (if n * pow10(amt as nat) <= u64::MAX {
            Some((n * pow10(amt as nat)) as u64)
        } else {
            None
        }),
{
    let mut iter = amt;
    let mut value = n;
    assert(n * pow10(0) == n) by (nonlinear_arith)
        requires
            pow10(0) == 1,
    ;
    while iter != 0
        invariant
            iter <= amt,
            value == n * pow10((amt - iter) as nat),
        decreases iter,
    {
        let ghost done = (amt - iter) as nat;
        proof {
            assert(pow10(done + 1) == 10 * pow10(done));
            assert(n * pow10(done + 1) == 10 * (n * pow10(done))) by (nonlinear_arith)
                requires
                    pow10(done + 1) == 10 * pow10(done),
            ;
        }
        value = match value.checked_mul(10) {
            Some(value) => value,
            None => {
                proof {
                    lemma_pow10_grows(done + 1, amt as nat);
                    assert(n * pow10(done + 1) <= n * pow10(amt as nat)) by (nonlinear_arith)
                        requires
                            pow10(done + 1) <= pow10(amt as nat),
                    ;
                }
                return None;
            },
        };
        iter -= 1;
    }
    Some(value)
}

/// `n` without its last `amt` digits.
pub fn downshift(n: u64, amt: u32) -> (r: u64)
    ensures
        r == n as nat / pow10(amt as nat),
{
    let mut iter = amt;
    let mut value = n;
    assert(n as nat / pow10(0) == n) by {
        assert(pow10(0) == 1);
        assert(n as nat / 1 == n as nat);
    }
    while iter != 0
        invariant
            iter <= amt,
            value == n as nat / pow10((amt - iter) as nat),
        decreases iter,
    {
        let ghost done = (amt - iter) as nat;
        proof {
            lemma_pow10_grows(done, done);
            assert(pow10(done + 1) == 10 * pow10(done));
            lemma_div_twice(n as nat, pow10(done), 10);
        }
        value = value / 10;
        iter -= 1;
    }
    value
}

/// Dividing by one number and then by another is dividing by their
/// product.
proof fn lemma_div_twice(n: nat, a: nat, b: nat)
    requires
        a > 0,
        b > 0,
    ensures
        (n / a) / b == n / (b * a),
{
    vstd::arithmetic::div_mod::lemma_div_denominator(n as int, a as int, b as int);
    assert(a * b == b * a) by (nonlinear_arith);
}

/// The number that writes the digits of `half` twice.
pub open spec fn double(half: nat) -> nat {
    half * pow10(digits(half)) + half
}

/// A larger half gives a larger number.
pub proof fn lemma_double_grows(h: nat, g: nat)
    requires
        h < g,
    ensures
        double(h) < double(g),
{
    lemma_digits_grow(h, g);
    lemma_pow10_grows(digits(h), digits(g));
    let p = pow10(digits(h));
    let q = pow10(digits(g));
    assert(h * p + h < g * q + g) by (nonlinear_arith)
        requires
            h < g,
            0 < p <= q,
    ;
}

/// The half that the search starts from: the upper half of the digits of
/// the least number of even length from `low` on.
pub open spec fn start_half(low: nat) -> nat {
    spec_find_even_len(low).0 / pow10(spec_find_even_len(low).1 / 2)
}

/// What the half `half` adds to the sum: the number that writes it twice,
/// where that lies from `low` to `high`.
pub open spec fn term(low: nat, high: nat, half: nat) -> nat {
    if low <= double(half) <= high {
        double(half)
    } else {
        0
    }
}

/// The sum of [`term`] over the halves from `from` up to `upto`, the
/// latter left out.
pub open spec fn halves_sum(low: nat, high: nat, from: nat, upto: nat) -> nat
    decreases upto,
{
    if upto <= from {
        0
    } else {
        halves_sum(low, high, from, (upto - 1) as nat) + term(low, high, (upto - 1) as nat)
    }
}

/// Halves whose number lies beyond `high` add nothing.
pub proof fn lemma_halves_beyond(low: nat, high: nat, from: nat, stop: nat, upto: nat)
    requires
        from <= stop <= upto,
        double(stop) > high,
    ensures
        halves_sum(low, high, from, upto) == halves_sum(low, high, from, stop),
    decreases upto,
{
    if stop < upto {
        lemma_halves_beyond(low, high, from, stop, (upto - 1) as nat);
        if stop < upto - 1 {
            lemma_double_grows(stop, (upto - 1) as nat);
        }
    }
}

/// The sum of `ids`.
pub open spec fn id_sum(ids: Seq<u64>, upto: int) -> nat
    decreases upto,
{
    if upto <= 0 {
        0
    } else {
        id_sum(ids, upto - 1) + ids[upto - 1] as nat
    }
}

/// A sum looks at the numbers that it adds only.
proof fn lemma_id_sum_prefix(a: Seq<u64>, b: Seq<u64>, upto: int)
    requires
        upto <= a.len(),
        upto <= b.len(),
        forall|j: int| 0 <= j < upto ==> a[j] == b[j],
    ensures
        id_sum(a, upto) == id_sum(b, upto),
    decreases upto,
{
    if upto > 0 {
        lemma_id_sum_prefix(a, b, upto - 1);
    }
}

/// The numbers from `low` to `high` that write a half twice, in ascending
/// order, for the halves from [`start_half`] of `low` on.
pub fn iter_invalid_ids_a(low: u64, high: u64) -> (ids: Vec<u64>)
    ensures
        id_sum(ids@, ids@.len() as int) == halves_sum(
            low as nat,
            high as nat,
            start_half(low as nat),
            (high + 1) as nat,
        ),
        forall|k: int| 0 <= k < ids@.len() ==> low <= #[trigger] ids@[k] <= high,
        forall|j: int, k: int| 0 <= j < k < ids@.len() ==> (#[trigger] ids@[j]) < (#[trigger] ids@[k]),
{
    let (start, start_len) = find_even_len(low);
    let first = downshift(start, start_len / 2);
    let ghost from = first as nat;
    let mut half = first;
    let mut ids: Vec<u64> = Vec::new();
    let ghost mut last: nat = 0;
    loop
        invariant_except_break
            from <= half,
            from == start_half(low as nat),
            id_sum(ids@, ids@.len() as int) == halves_sum(low as nat, high as nat, from, half as nat),
            forall|k: int| 0 <= k < ids@.len() ==> low <= #[trigger] ids@[k] <= high,
            forall|j: int, k: int| 0 <= j < k < ids@.len() ==> (#[trigger] ids@[j]) < (#[trigger] ids@[k]),
            forall|k: int| 0 <= k < ids@.len() ==> (#[trigger] ids@[k]) < double(half as nat),
        ensures
            from <= half,
            double(half as nat) > high,
            id_sum(ids@, ids@.len() as int) == halves_sum(low as nat, high as nat, from, half as nat),
            forall|k: int| 0 <= k < ids@.len() ==> low <= #[trigger] ids@[k] <= high,
            forall|j: int, k: int| 0 <= j < k < ids@.len() ==> (#[trigger] ids@[j]) < (#[trigger] ids@[k]),
        decreases u64::MAX - half,
    {
        let count = len(half);
        let id = match upshift(half, count) {
            Some(shifted) => match shifted.checked_add(half) {
                Some(id) => id,
                None => {
                    break ;
                },
            },
            None => {
                proof {
                    assert(half * pow10(count as nat) <= double(half as nat));
                }
                break ;
            },
        };
        assert(id == double(half as nat));
        if id > high {
            break ;
        }
        proof {
            lemma_double_grows(half as nat, (half + 1) as nat);
            assert(half == 0 || half < id) by {
                lemma_pow10_grows(0, count as nat);
                assert(half * pow10(count as nat) >= half) by (nonlinear_arith)
                    requires
                        pow10(count as nat) >= 1,
                ;
            }
        }
        let ghost before = ids@;
        if id >= low {
            ids.push(id);
            proof {
                lemma_id_sum_prefix(before, ids@, before.len() as int);
            }
        }
        half += 1;
    }
    proof {
        if half <= high {
            lemma_halves_beyond(low as nat, high as nat, from, half as nat, (high + 1) as nat);
        } else {
            lemma_halves_within(low as nat, high as nat, from, (high + 1) as nat, half as nat);
        }
    }
    ids
}

/// Halves beyond `high` add nothing, their numbers being larger still.
proof fn lemma_halves_within(low: nat, high: nat, from: nat, stop: nat, upto: nat)
    requires
        stop <= upto,
        high < stop,
    ensures
        halves_sum(low, high, from, upto) == halves_sum(low, high, from, stop),
    decreases upto,
{
    if stop < upto {
        lemma_halves_within(low, high, from, stop, (upto - 1) as nat);
        let g = (upto - 1) as nat;
        lemma_pow10_grows(0, digits(g));
        assert(g * pow10(digits(g)) + g > high) by (nonlinear_arith)
            requires
                g > high,
                pow10(digits(g)) >= 1,
        ;
    }
}

/// Whether the digits of `remaining`, taken `pattern_len` at a time from
/// the right, are each time those of `pattern`, and `len`, the number of
/// digits left to take, never falls short of a whole pattern.
pub open spec fn chunks_match(remaining: nat, len: int, pattern: nat, pattern_len: nat) -> bool
    decreases len,
{
    if remaining == 0 || pattern_len == 0 {
        remaining == 0
    } else if len < pattern_len || remaining % pow10(pattern_len) != pattern {
        false
    } else {
        chunks_match(remaining / pow10(pattern_len), len - pattern_len, pattern, pattern_len)
    }
}

/// A number that is not zero gets less when digits are cut off.
pub proof fn lemma_shorter(remaining: nat, pattern_len: nat)
    requires
        remaining > 0,
        pattern_len > 0,
    ensures
        remaining / pow10(pattern_len) < remaining,
{
    lemma_pow10_grows(1, pattern_len);
    reveal_with_fuel(pow10, 2);
    let mask = pow10(pattern_len);
    assert(remaining / mask < remaining) by (nonlinear_arith)
        requires
            remaining > 0,
            mask >= 10,
    ;
}

/// Whether `id` is made of its last `pattern_len` digits, repeated.
pub open spec fn spec_is_repeating_pattern(id: nat, pattern_len: nat) -> bool {
    let mask = pow10(pattern_len);
    chunks_match(id / mask, digits(id / mask) as int, id % mask, pattern_len)
}

/// Tells whether `id` is made of its last `pattern_len` digits, repeated.
pub fn is_repeating_pattern(id: u64, pattern_len: u32) -> (b: bool)
    requires
        1 <= pattern_len <= 19,
    ensures
        b == spec_is_repeating_pattern(id as nat, pattern_len as nat),
{
    let mask = power_of_ten(pattern_len);
    proof {
        lemma_pow10_grows(1, pattern_len as nat);
        reveal_with_fuel(pow10, 2);
    }
    let pattern = id % mask;
    let mut remaining = id / mask;
    let mut left = len(remaining);
    while remaining != 0
        invariant
            mask == pow10(pattern_len as nat),
            mask >= 10,
            1 <= pattern_len,
            chunks_match(remaining as nat, left as int, pattern as nat, pattern_len as nat)
                == spec_is_repeating_pattern(id as nat, pattern_len as nat),
        decreases remaining,
    {
        let part = remaining % mask;
        if left < pattern_len || part != pattern {
            return false;
        }
        proof {
            lemma_shorter(remaining as nat, pattern_len as nat);
        }
        remaining = remaining / mask;
        left -= pattern_len;
    }
    true
}

/// Whether `id` is made of a pattern of digits that is repeated: of its
/// last digits, up to half of them.
pub open spec fn spec_is_invalid_b(id: nat) -> bool {
    exists|pattern_len: nat|
        1 <= pattern_len <= digits(id) / 2 && #[trigger] spec_is_repeating_pattern(id, pattern_len)
}

/// Tells whether `id` is made of a pattern of digits that is repeated.
pub fn is_invalid_input_b(id: u64) -> (b: bool)
    ensures
        b == spec_is_invalid_b(id as nat),
{
    let count = len(id);
    let mut pattern_len: u32 = 1;
    while pattern_len <= count / 2
        invariant
            1 <= pattern_len <= count / 2 + 1,
            count == digits(id as nat),
            count <= 20,
            forall|shorter: nat|
                1 <= shorter < pattern_len ==> !#[trigger] spec_is_repeating_pattern(id as nat, shorter),
        decreases count / 2 + 1 - pattern_len,
    {
        if is_repeating_pattern(id, pattern_len) {
            return true;
        }
        pattern_len += 1;
    }
    false
}

/// The sum of the numbers from `low` up to `upto`, the latter left out,
/// that are made of a repeated pattern.
pub open spec fn range_sum(low: nat, upto: nat) -> nat
    decreases upto,
{
    if upto <= low {
        0
    } else {
        range_sum(low, (upto - 1) as nat) + (if spec_is_invalid_b((upto - 1) as nat) {
            (upto - 1) as nat
        } else {
            0
        })
    }
}

/// The numbers from `low` to `high` that are made of a repeated pattern of
/// digits, in ascending order.
pub fn iter_invalid_ids_b(low: u64, high: u64) -> (ids: Vec<u64>)
    ensures
        id_sum(ids@, ids@.len() as int) == range_sum(low as nat, (high + 1) as nat),
        forall|k: int| 0 <= k < ids@.len() ==> low <= #[trigger] ids@[k] <= high && spec_is_invalid_b(ids@[k] as nat),
        forall|id: u64| low <= id <= high && spec_is_invalid_b(id as nat) ==> #[trigger] ids@.contains(id),
        forall|j: int, k: int| 0 <= j < k < ids@.len() ==> (#[trigger] ids@[j]) < (#[trigger] ids@[k]),
{
    let mut ids: Vec<u64> = Vec::new();
    if low > high {
        return ids;
    }
    let mut id = low;
    loop
        invariant_except_break
            low <= id <= high,
            id_sum(ids@, ids@.len() as int) == range_sum(low as nat, id as nat),
            forall|k: int|
                0 <= k < ids@.len() ==> low <= #[trigger] ids@[k] < id && spec_is_invalid_b(ids@[k] as nat),
            forall|n: u64| low <= n < id && spec_is_invalid_b(n as nat) ==> #[trigger] ids@.contains(n),
            forall|j: int, k: int| 0 <= j < k < ids@.len() ==> (#[trigger] ids@[j]) < (#[trigger] ids@[k]),
        ensures
            id_sum(ids@, ids@.len() as int) == range_sum(low as nat, (high + 1) as nat),
            forall|k: int|
                0 <= k < ids@.len() ==> low <= #[trigger] ids@[k] <= high && spec_is_invalid_b(ids@[k] as nat),
            forall|n: u64| low <= n <= high && spec_is_invalid_b(n as nat) ==> #[trigger] ids@.contains(n),
            forall|j: int, k: int| 0 <= j < k < ids@.len() ==> (#[trigger] ids@[j]) < (#[trigger] ids@[k]),
        decreases high - id,
    {
        let ghost before = ids@;
        if is_invalid_input_b(id) {
            ids.push(id);
            proof {
                lemma_id_sum_prefix(before, ids@, before.len() as int);
                assert(ids@[before.len() as int] == id);
                assert forall|n: u64| low <= n < id + 1 && spec_is_invalid_b(n as nat) implies #[trigger] ids@.contains(
                    n,
                ) by {
                    if n < id {
                        assert(before.contains(n));
                        let k = choose|k: int| 0 <= k < before.len() && before[k] == n;
                        assert(ids@[k] == n);
                    }
                }
            }
        }
        if id == high {
            break ;
        }
        id += 1;
    }
    ids
}

/// The range that `fragment` writes: two numbers with a hyphen between,
/// and white space around them passed over.
pub open spec fn spec_parse(fragment: Seq<char>) -> Result<(u64, u64), PuzzleError> {
    let text = trim(fragment);
    let at = index_of(text, '-');
    if at >= text.len() {
        Err(PuzzleError::InvalidInput)
    } else {
        match (parse_unsigned(text.take(at), u64::MAX as nat), parse_unsigned(text.skip(at + 1), u64::MAX as nat)) {
            (Some(low), Some(high)) => Ok((low as u64, high as u64)),
            _ => Err(PuzzleError::InvalidNumber),
        }
    }
}

/// Reads the range that `fragment` writes.
pub fn parse(fragment: &Vec<char>) -> (r: Result<(u64, u64), PuzzleError>)
    ensures
        r == spec_parse(fragment@),
{
    let text = trimmed(fragment);
    let at = find_char(&text, '-');
    if at >= text.len() {
        return Err(PuzzleError::InvalidInput);
    }
    let left = copy_range(&text, 0, at);
    let right = copy_range(&text, at + 1, text.len());
    assert(left@ =~= text@.take(at as int));
    assert(right@ =~= text@.skip(at + 1));
    match (parse_unsigned_chars(&left, u64::MAX as u128), parse_unsigned_chars(&right, u64::MAX as u128)) {
        (Some(low), Some(high)) => Ok((low as u64, high as u64)),
        _ => Err(PuzzleError::InvalidNumber),
    }
}

/// [`spec_parse`] as a value.
pub open spec fn range_reader() -> spec_fn(Seq<char>) -> Result<(u64, u64), PuzzleError> {
    |fragment: Seq<char>| spec_parse(fragment)
}

/// The ranges that `text` writes, with commas between.
pub open spec fn spec_ranges(text: Seq<char>) -> Result<Seq<(u64, u64)>, PuzzleError> {
    collect(split_at_char(text, ','), range_reader())
}

/// Reads the ranges that `input` writes.
fn ranges(input: &str) -> (r: Result<Vec<(u64, u64)>, PuzzleError>)
    ensures
        match r {
            Ok(read) => spec_ranges(input@) == Ok::<Seq<(u64, u64)>, PuzzleError>(read@),
            Err(error) => spec_ranges(input@) == Err::<Seq<(u64, u64)>, PuzzleError>(error),
        },
{
    let text = to_chars(input);
    let parts = split_chars(&text, ',');
    let ghost all = split_at_char(input@, ',');
    let ghost read = range_reader();
    let mut found: Vec<(u64, u64)> = Vec::new();
    let mut i: usize = 0;
    assert(all.take(0) =~= Seq::<Seq<char>>::empty());
    while i < parts.len()
        invariant
            i <= parts@.len(),
            views(parts@) == all,
            all == split_at_char(input@, ','),
            read == range_reader(),
            collect(all.take(i as int), read) == Ok::<Seq<(u64, u64)>, PuzzleError>(found@),
        decreases parts.len() - i,
    {
        proof {
            assert(all.take(i + 1).drop_last() =~= all.take(i as int));
            assert(all.take(i + 1).last() == parts@[i as int]@);
        }
        match parse(&parts[i]) {
            Ok(range) => {
                found.push(range);
            },
            Err(error) => {
                proof {
                    lemma_collect_fails(all, read, i + 1);
                }
                return Err(error);
            },
        }
        i += 1;
    }
    assert(all.take(i as int) =~= all);
    Ok(found)
}

/// The sum for one range: of the numbers that write a half twice, or, with
/// `any` set, of those made of any repeated pattern.
pub open spec fn range_total(low: u64, high: u64, any: bool) -> nat {
    if any {
        range_sum(low as nat, (high + 1) as nat)
    } else {
        halves_sum(low as nat, high as nat, start_half(low as nat), (high + 1) as nat)
    }
}

/// The sums of the first `upto` of `ranges`, added.
pub open spec fn total(ranges: Seq<(u64, u64)>, any: bool, upto: int) -> nat
    decreases upto,
{
    if upto <= 0 {
        0
    } else {
        total(ranges, any, upto - 1) + range_total(ranges[upto - 1].0, ranges[upto - 1].1, any)
    }
}

/// Sums grow with the number of ranges.
proof fn lemma_total_grows(ranges: Seq<(u64, u64)>, any: bool, n: int, upto: int)
    requires
        n <= upto,
    ensures
        total(ranges, any, n) <= total(ranges, any, upto),
    decreases upto - n,
{
    if n < upto {
        lemma_total_grows(ranges, any, n, upto - 1);
    }
}

/// Sums grow with the number of numbers.
proof fn lemma_id_sum_grows(ids: Seq<u64>, n: int, upto: int)
    requires
        n <= upto,
    ensures
        id_sum(ids, n) <= id_sum(ids, upto),
    decreases upto - n,
{
    if n < upto {
        lemma_id_sum_grows(ids, n, upto - 1);
    }
}

/// The answer for `text`: the sum, over its ranges, of the numbers that
/// count.
pub open spec fn spec_answer(text: Seq<char>, any: bool) -> Result<u64, PuzzleError> {
    match spec_ranges(text) {
        Err(error) => Err(error),
        Ok(ranges) => if total(ranges, any, ranges.len() as int) > u64::MAX {
            Err(PuzzleError::Overflow)
        } else {
            Ok(total(ranges, any, ranges.len() as int) as u64)
        },
    }
}

/// Adds the numbers that count in the ranges of `input`.
fn answer(input: &str, any: bool) -> (r: Result<u64, PuzzleError>)
    ensures
        r == spec_answer(input@, any),
{
    let ranges = match ranges(input) {
        Ok(ranges) => ranges,
        Err(error) => {
            return Err(error);
        },
    };
    let mut sum: u64 = 0;
    let mut i: usize = 0;
    while i < ranges.len()
        invariant
            i <= ranges@.len(),
            spec_ranges(input@) == Ok::<Seq<(u64, u64)>, PuzzleError>(ranges@),
            sum == total(ranges@, any, i as int),
        decreases ranges.len() - i,
    {
        let (low, high) = ranges[i];
        let ids = if any {
            iter_invalid_ids_b(low, high)
        } else {
            iter_invalid_ids_a(low, high)
        };
        let ghost target = range_total(low, high, any);
        assert(id_sum(ids@, ids@.len() as int) == target);
        let mut part: u64 = 0;
        let mut k: usize = 0;
        while k < ids.len()
            invariant
                k <= ids@.len(),
                part == id_sum(ids@, k as int),
                i < ranges@.len(),
                ranges@[i as int] == (low, high),
                target == range_total(low, high, any),
                id_sum(ids@, ids@.len() as int) == target,
                spec_ranges(input@) == Ok::<Seq<(u64, u64)>, PuzzleError>(ranges@),
            decreases ids.len() - k,
        {
            part = match part.checked_add(ids[k]) {
                Some(more) => more,
                None => {
                    proof {
                        lemma_id_sum_grows(ids@, k + 1, ids@.len() as int);
                        lemma_total_grows(ranges@, any, i + 1, ranges@.len() as int);
                    }
                    return Err(PuzzleError::Overflow);
                },
            };
            k += 1;
        }
        sum = match sum.checked_add(part) {
            Some(more) => more,
            None => {
                proof {
                    lemma_total_grows(ranges@, any, i + 1, ranges@.len() as int);
                }
                return Err(PuzzleError::Overflow);
            },
        };
        i += 1;
    }
    Ok(sum)
}

/// Adds the numbers of the ranges that write a half twice.
pub fn a(input: &str) -> (r: Result<u64, PuzzleError>)
    ensures
        r == spec_answer(input@, false),
{
    answer(input, false)
}

/// Adds the numbers of the ranges that are made of a repeated pattern.
pub fn b(input: &str) -> (r: Result<u64, PuzzleError>)
    ensures
        r == spec_answer(input@, true),
{
    answer(input, true)
}

/// The solvers of both parts.
pub fn solution() -> (solution: Solution)
    ensures
        solution.part_a() is Some,
        solution.part_b() is Some,
{
    Solution::new().with_a(|input: &str| -> (r: Result<u64, String>) { shown(a(input)) }).with_b(
        |input: &str| -> (r: Result<u64, String>) { shown(b(input)) },
    )
}

} // verus!
