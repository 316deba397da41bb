//! Day 3: banks of batteries, of which a few are switched on.
use vstd::prelude::*;
use crate::solution::Solution;
use crate::util::parse::{digit_value, is_digit, to_digit};
use crate::util::text::{lines, split_lines, to_chars, views};
use crate::y2025::{collect, lemma_collect_fails, shown, PuzzleError};

verus! {

/// Ten to the power of `exp`.
pub open spec fn pow10(exp: nat) -> nat
    decreases exp,
{
    if exp == 0 {
        1
    } else {
        10 * pow10((exp - 1) as nat)
    }
}

/// The digits that `line` is made of.
pub open spec fn spec_parse(line: Seq<char>) -> Result<Seq<u8>, PuzzleError> {
    if forall|i: int| 0 <= i < line.len() ==> is_digit(#[trigger] line[i]) {
        Ok(line.map_values(|c: char| digit_value(c) as u8))
    } else {
        Err(PuzzleError::InvalidInput)
    }
}

/// Reads the digits that `line` is made of.
pub fn parse(line: &Vec<char>) -> (r: Result<Vec<u8>, PuzzleError>)
    ensures
        match r {
            Ok(bank) => spec_parse(line@) == Ok::<Seq<u8>, PuzzleError>(bank@) && digits(bank@),
            Err(error) => spec_parse(line@) == Err::<Seq<u8>, PuzzleError>(error),
        },
{
    let mut bank: Vec<u8> = Vec::new();
    let mut i: usize = 0;
    while i < line.len()
        invariant
            i <= line@.len(),
            bank@.len() == i,
            forall|j: int| 0 <= j < i ==> is_digit(#[trigger] line@[j]),
            forall|j: int| 0 <= j < i ==> #[trigger] bank@[j] == digit_value(line@[j]) as u8,
            digits(bank@),
        decreases line.len() - i,
    {
        match to_digit(line[i]) {
            Some(digit) => {
                bank.push(digit);
            },
            None => {
                return Err(PuzzleError::InvalidInput);
            },
        }
        i += 1;
    }
    assert(bank@ =~= line@.map_values(|c: char| digit_value(c) as u8));
    Ok(bank)
}

/// Whether every number of `bank` is a digit.
pub open spec fn digits(bank: Seq<u8>) -> bool {
    forall|i: int| 0 <= i < bank.len() ==> #[trigger] bank[i] <= 9
}

/// The largest number that has the battery `index` as its digit of weight
/// `10^exp` and, for its higher digits up to `limit` digits in all,
/// batteries that stand before one another, each before the one of the
/// next lower digit.
pub open spec fn best(bank: Seq<u8>, index: int, exp: nat, limit: nat) -> nat
    decreases limit - exp, 0nat,
{
    if exp >= limit {
        0
    } else {
        bank[index] as nat * pow10(exp) + best_before(bank, index, exp + 1, limit)
    }
}

/// The largest of [`best`] over the batteries before `upto`; zero where
/// there is none.
pub open spec fn best_before(bank: Seq<u8>, upto: int, exp: nat, limit: nat) -> nat
    decreases limit - exp, (if upto < 0 {
        0
    } else {
        upto + 1
    }),
{
    if upto <= 0 {
        0
    } else {
        let rest = best_before(bank, upto - 1, exp, limit);
        let here = best(bank, upto - 1, exp, limit);
        if here > rest {
            here
        } else {
            rest
        }
    }
}

/// The joltage of a bank: the largest number that up to `limit` of its
/// batteries write, read in their order.
pub open spec fn spec_bank_joltage(bank: Seq<u8>, limit: nat) -> nat {
    best_before(bank, bank.len() as int, 0, limit)
}

/// A number of up to `limit` digits, the lowest of weight `10^exp`, is less
/// than `10^limit`.
pub proof fn lemma_best_bound(bank: Seq<u8>, index: int, exp: nat, limit: nat)
    requires
        digits(bank),
        0 <= index < bank.len(),
        exp <= limit,
    ensures
        best(bank, index, exp, limit) + pow10(exp) <= pow10(limit),
    decreases limit - exp, 0nat,
{
    if exp < limit {
        lemma_best_before_bound(bank, index, exp + 1, limit);
        assert(bank[index] <= 9);
        assert(bank[index] as nat * pow10(exp) + pow10(exp) <= pow10(exp + 1)) by (nonlinear_arith)
            requires
                bank[index] <= 9,
                pow10(exp + 1) == 10 * pow10(exp),
        ;
    }
}

/// See [`lemma_best_bound`].
pub proof fn lemma_best_before_bound(bank: Seq<u8>, upto: int, exp: nat, limit: nat)
    requires
        digits(bank),
        0 <= upto <= bank.len(),
        exp <= limit,
    ensures
        best_before(bank, upto, exp, limit) + pow10(exp) <= pow10(limit),
    decreases limit - exp, upto + 1,
{
    if upto > 0 {
        lemma_best_before_bound(bank, upto - 1, exp, limit);
        lemma_best_bound(bank, upto - 1, exp, limit);
    } else {
        lemma_pow10_grows(exp, limit);
    }
}

/// Powers of ten grow with the exponent.
pub proof fn lemma_pow10_grows(a: nat, b: nat)
    requires
        a <= b,
    ensures
        0 < pow10(a) <= pow10(b),
    decreases b,
{
    if a < b {
        lemma_pow10_grows(a, (b - 1) as nat);
    } else if a > 0 {
        lemma_pow10_grows((a - 1) as nat, (a - 1) as nat);
    }
}

/// Ten to the power of nineteen is a 64-bit number.
pub proof fn lemma_pow10_19()
    ensures
        pow10(19) == 10_000_000_000_000_000_000,
{
    reveal_with_fuel(pow10, 20);
}

/// Ten to the power of `exp`.
pub fn power_of_ten(exp: u32) -> (r: u64)
    requires
        exp <= 19,
    ensures
        r == pow10(exp as nat),
{
    let mut r: u64 = 1;
    let mut i: u32 = 0;
    proof {
        lemma_pow10_19();
    }
    while i < exp
        invariant
            i <= exp <= 19,
            r == pow10(i as nat),
            pow10(19) == 10_000_000_000_000_000_000,
        decreases exp - i,
    {
        proof {
            lemma_pow10_grows((i + 1) as nat, 19);
        }
        r = r * 10;
        i += 1;
    }
    r
}

/// Whether `cache` holds for the battery `index` and the weight `10^exp`,
/// at `len * exp + index`, nothing or the value of [`best`].
pub open spec fn cache_ok(cache: Seq<Option<u64>>, bank: Seq<u8>, limit: nat) -> bool {
    &&& cache.len() == bank.len() * limit
    &&& forall|index: int, exp: int|
        0 <= index < bank.len() && 0 <= exp < limit ==> ((#[trigger] cache[bank.len() * exp + index]) matches Some(
            value,
        ) ==> value == best(bank, index, exp as nat, limit))
}

proof fn lemma_cell(len: int, limit: int, index: int, exp: int)
    requires
        0 <= index < len,
        0 <= exp < limit,
    ensures
        0 <= len * exp + index < len * limit,
{
    assert(len * exp + len <= len * limit) by (nonlinear_arith)
        requires
            0 <= exp < limit,
            0 < len,
    ;
    assert(0 <= len * exp) by (nonlinear_arith)
        requires
            0 <= exp,
            0 < len,
    ;
}

proof fn lemma_cells_differ(len: int, index: int, exp: int, other_index: int, other_exp: int)
    requires
        0 <= index < len,
        0 <= other_index < len,
        0 <= exp,
        0 <= other_exp,
        len * exp + index == len * other_exp + other_index,
    ensures
        index == other_index && exp == other_exp,
{
    if exp < other_exp {
        assert(len * exp + len <= len * other_exp) by (nonlinear_arith)
            requires
                exp < other_exp,
                0 < len,
        ;
    } else if exp > other_exp {
        assert(len * other_exp + len <= len * exp) by (nonlinear_arith)
            requires
                other_exp < exp,
                0 < len,
        ;
    }
}

/// Works out [`best`] for the battery `index` and the weight `10^exp`, and
/// remembers it.
fn inner(bank: &[u8], cache: &mut Vec<Option<u64>>, limit: u32, index: usize, exp: u32) -> (r: u64)
    requires
        digits(bank@),
        limit <= 19,
        index < bank@.len(),
        exp <= limit,
        cache_ok(old(cache)@, bank@, limit as nat),
    ensures
        r == best(bank@, index as int, exp as nat, limit as nat),
        cache_ok(final(cache)@, bank@, limit as nat),
    decreases limit - exp,
{
    if exp >= limit {
        return 0;
    }
    proof {
        lemma_cell(bank@.len() as int, limit as int, index as int, exp as int);
        lemma_best_bound(bank@, index as int, exp as nat, limit as nat);
        lemma_pow10_grows(limit as nat, 19);
        lemma_pow10_grows(exp as nat, limit as nat);
        lemma_pow10_19();
    }
    assert(bank@.len() * exp + index < cache.len());
    assert(0 <= bank@.len() * exp <= bank@.len() * exp + index);
    let cell = bank.len() * (exp as usize) + index;
    if let Some(cached) = cache[cell] {
        return cached;
    }
    let power = power_of_ten(exp);
    assert(bank@[index as int] <= 9);
    assert(bank@[index as int] as nat * pow10(exp as nat) <= best(
        bank@,
        index as int,
        exp as nat,
        limit as nat,
    ));
    let value = bank[index] as u64 * power;
    let ghost up: nat = (exp + 1) as nat;
    let ghost most: nat = limit as nat;
    let mut max: u64 = 0;
    let mut next: usize = index;
    while next > 0
        invariant
            next <= index < bank@.len(),
            digits(bank@),
            limit <= 19,
            exp < limit,
            up == exp + 1,
            most == limit,
            cache_ok(cache@, bank@, most),
            max <= best_before(bank@, index as int, up, most),
            forall|other: int| next <= other < index ==> #[trigger] best(bank@, other, up, most) <= max,
            max == 0 || exists|other: int| next <= other < index && max == #[trigger] best(bank@, other, up, most),
        decreases next,
    {
        next -= 1;
        let msd = inner(bank, cache, limit, next, exp + 1);
        proof {
            lemma_best_before_holds(bank@, index as int, next as int, up, most);
        }
        if msd > max {
            max = msd;
        }
    }
    proof {
        lemma_best_before_is_max(bank@, index as int, up, most, max as nat);
    }
    let result = value + max;
    let ghost before = cache@;
    cache.set(cell, Some(result));
    proof {
        assert forall|i: int, e: int| 0 <= i < bank@.len() && 0 <= e < limit implies ((
        #[trigger] cache@[bank@.len() * e + i]) matches Some(v) ==> v == best(
            bank@,
            i,
            e as nat,
            limit as nat,
        )) by {
            lemma_cell(bank@.len() as int, limit as int, i, e);
            if bank@.len() * e + i == cell {
                lemma_cells_differ(bank@.len() as int, i, e, index as int, exp as int);
            } else {
                assert(cache@[bank@.len() * e + i] == before[bank@.len() * e + i]);
            }
        }
    }
    result
}

/// The largest over the batteries before `upto` is no less than that of
/// any one of them.
pub proof fn lemma_best_before_holds(bank: Seq<u8>, upto: int, index: int, exp: nat, limit: nat)
    requires
        0 <= index < upto,
    ensures
        best(bank, index, exp, limit) <= best_before(bank, upto, exp, limit),
    decreases upto,
{
    if index < upto - 1 {
        lemma_best_before_holds(bank, upto - 1, index, exp, limit);
    }
}

/// A number that is no less than [`best`] of any battery before `upto`,
/// and is that of one of them or zero, is the largest of them.
pub proof fn lemma_best_before_is_max(bank: Seq<u8>, upto: int, exp: nat, limit: nat, max: nat)
    requires
        0 <= upto,
        forall|other: int| 0 <= other < upto ==> #[trigger] best(bank, other, exp, limit) <= max,
        max == 0 || exists|other: int| 0 <= other < upto && max == #[trigger] best(bank, other, exp, limit),
    ensures
        max == best_before(bank, upto, exp, limit),
    decreases upto,
{
    if upto > 0 {
        let here = best(bank, upto - 1, exp, limit);
        if max == here {
            lemma_best_before_le(bank, upto - 1, exp, limit, max);
        } else {
            assert(here <= max);
            if max == 0 {
            } else {
                let other = choose|other: int|
                    0 <= other < upto && max == #[trigger] best(bank, other, exp, limit);
                assert(other < upto - 1);
            }
            lemma_best_before_is_max(bank, upto - 1, exp, limit, max);
        }
    }
}

/// A bound on [`best`] of every battery before `upto` bounds the largest.
pub proof fn lemma_best_before_le(bank: Seq<u8>, upto: int, exp: nat, limit: nat, max: nat)
    requires
        0 <= upto,
        forall|other: int| 0 <= other < upto ==> #[trigger] best(bank, other, exp, limit) <= max,
    ensures
        best_before(bank, upto, exp, limit) <= max,
    decreases upto,
{
    if upto > 0 {
        lemma_best_before_le(bank, upto - 1, exp, limit, max);
        assert(best(bank, upto - 1, exp, limit) <= max);
    }
}

/// The joltage of `bank` with up to `n` batteries switched on.
pub fn bank_joltage(bank: &[u8], n: u32) -> (joltage: u64)
    requires
        digits(bank@),
        n <= 19,
        bank@.len() * n <= usize::MAX,
    ensures
        joltage == spec_bank_joltage(bank@, n as nat),
{
    let cache_len = bank.len() * n as usize;
    let mut cache: Vec<Option<u64>> = Vec::new();
    let mut filled: usize = 0;
    while filled < cache_len
        invariant
            filled <= cache_len,
            cache@.len() == filled,
            forall|j: int| 0 <= j < filled ==> cache@[j] is None,
        decreases cache_len - filled,
    {
        cache.push(None);
        filled += 1;
    }
    proof {
        assert forall|index: int, exp: int| 0 <= index < bank@.len() && 0 <= exp < n implies ((
        #[trigger] cache@[bank@.len() * exp + index]) matches Some(value) ==> value == best(
            bank@,
            index,
            exp as nat,
            n as nat,
        )) by {
            lemma_cell(bank@.len() as int, n as int, index, exp);
        }
    }
    let ghost most: nat = n as nat;
    let mut max: u64 = 0;
    let mut i: usize = bank.len();
    while i > 0
        invariant
            i <= bank@.len(),
            digits(bank@),
            n <= 19,
            most == n,
            cache_ok(cache@, bank@, most),
            forall|other: int| i <= other < bank@.len() ==> #[trigger] best(bank@, other, 0, most) <= max,
            max == 0 || exists|other: int|
                i <= other < bank@.len() && max == #[trigger] best(bank@, other, 0, most),
        decreases i,
    {
        i -= 1;
        let value = inner(bank, &mut cache, n, i, 0);
        if value > max {
            max = value;
        }
    }
    proof {
        lemma_best_before_is_max(bank@, bank@.len() as int, 0, most, max as nat);
    }
    max
}

/// [`spec_parse`] as a value.
pub open spec fn bank_reader() -> spec_fn(Seq<char>) -> Result<Seq<u8>, PuzzleError> {
    |line: Seq<char>| spec_parse(line)
}

/// The joltages of the first `upto` of `banks`, added.
pub open spec fn joltage_sum(banks: Seq<Seq<u8>>, limit: nat, upto: int) -> nat
    decreases upto,
{
    if upto <= 0 {
        0
    } else {
        joltage_sum(banks, limit, upto - 1) + spec_bank_joltage(banks[upto - 1], limit)
    }
}

/// Whether a bank is too long for its table of `limit` rows to be
/// addressed.
pub open spec fn too_long(banks: Seq<Seq<u8>>, limit: nat) -> bool {
    exists|i: int| 0 <= i < banks.len() && (#[trigger] banks[i]).len() * limit > usize::MAX
}

/// The joltages of the banks that the lines of `text` write, with up to
/// `limit` batteries switched on in each, added.
pub open spec fn spec_total(text: Seq<char>, limit: nat) -> Result<u64, PuzzleError> {
    match collect(lines(text), bank_reader()) {
        Err(error) => Err(error),
        Ok(banks) => if too_long(banks, limit) || joltage_sum(banks, limit, banks.len() as int) > u64::MAX {
            Err(PuzzleError::Overflow)
        } else {
            Ok(joltage_sum(banks, limit, banks.len() as int) as u64)
        },
    }
}

/// Sums grow with the number of banks.
pub proof fn lemma_joltage_sum_grows(banks: Seq<Seq<u8>>, limit: nat, n: int, upto: int)
    requires
        n <= upto,
    ensures
        joltage_sum(banks, limit, n) <= joltage_sum(banks, limit, upto),
    decreases upto - n,
{
    if n < upto {
        lemma_joltage_sum_grows(banks, limit, n, upto - 1);
    }
}

/// Reads the banks that the lines of `input` write.
fn banks(input: &str) -> (r: Result<Vec<Vec<u8>>, PuzzleError>)
    ensures
        match r {
            Ok(banks) => collect(lines(input@), bank_reader()) == Ok::<Seq<Seq<u8>>, PuzzleError>(
                banks@.map_values(|bank: Vec<u8>| bank@),
            ) && forall|i: int| 0 <= i < banks@.len() ==> digits(#[trigger] banks@[i]@),
            Err(error) => collect(lines(input@), bank_reader()) == Err::<Seq<Seq<u8>>, PuzzleError>(error),
        },
{
    let text = to_chars(input);
    let rows = split_lines(&text);
    let ghost all = lines(input@);
    let ghost read = bank_reader();
    let mut banks: Vec<Vec<u8>> = Vec::new();
    let mut i: usize = 0;
    assert(all.take(0) =~= Seq::<Seq<char>>::empty());
    assert(banks@.map_values(|bank: Vec<u8>| bank@) =~= Seq::<Seq<u8>>::empty());
    while i < rows.len()
        invariant
            i <= rows@.len(),
            views(rows@) == all,
            all == lines(input@),
            read == bank_reader(),
            collect(all.take(i as int), read) == Ok::<Seq<Seq<u8>>, PuzzleError>(
                banks@.map_values(|bank: Vec<u8>| bank@),
            ),
            forall|j: int| 0 <= j < banks@.len() ==> digits(#[trigger] banks@[j]@),
        decreases rows.len() - i,
    {
        proof {
            assert(all.take(i + 1).drop_last() =~= all.take(i as int));
            assert(all.take(i + 1).last() == rows@[i as int]@);
        }
        let ghost before = banks@;
        match parse(&rows[i]) {
            Ok(bank) => {
                banks.push(bank);
                assert(banks@.map_values(|bank: Vec<u8>| bank@) =~= before.map_values(|bank: Vec<u8>| bank@).push(
                    bank@,
                ));
            },
            Err(error) => {
                proof {
                    lemma_collect_fails(all, read, i + 1);
                }
                return Err(error);
            },
        }
        i += 1;
    }
    assert(all.take(i as int) =~= all);
    Ok(banks)
}

/// Adds the joltages of the banks of `input`, with up to `n` batteries
/// switched on in each.
pub fn total_joltage(input: &str, n: u32) -> (r: Result<u64, PuzzleError>)
    requires
        n <= 19,
    ensures
        r == spec_total(input@, n as nat),
{
    let banks = match banks(input) {
        Ok(banks) => banks,
        Err(error) => {
            return Err(error);
        },
    };
    let ghost all = banks@.map_values(|bank: Vec<u8>| bank@);
    let ghost most: nat = n as nat;
    let mut i: usize = 0;
    while i < banks.len()
        invariant
            i <= banks@.len(),
            most == n,
            all == banks@.map_values(|bank: Vec<u8>| bank@),
            collect(lines(input@), bank_reader()) == Ok::<Seq<Seq<u8>>, PuzzleError>(all),
            forall|j: int| 0 <= j < i ==> (#[trigger] all[j]).len() * most <= usize::MAX,
        decreases banks.len() - i,
    {
        assert(all[i as int] == banks@[i as int]@);
        if banks[i].len().checked_mul(n as usize).is_none() {
            assert(too_long(all, most));
            return Err(PuzzleError::Overflow);
        }
        i += 1;
    }
    assert(!too_long(all, most));
    let mut joltage: u64 = 0;
    let mut i: usize = 0;
    while i < banks.len()
        invariant
            i <= banks@.len(),
            n <= 19,
            most == n,
            all == banks@.map_values(|bank: Vec<u8>| bank@),
            collect(lines(input@), bank_reader()) == Ok::<Seq<Seq<u8>>, PuzzleError>(all),
            forall|j: int| 0 <= j < banks@.len() ==> digits(#[trigger] banks@[j]@),
            !too_long(all, most),
            joltage == joltage_sum(all, most, i as int),
        decreases banks.len() - i,
    {
        assert(all[i as int] == banks@[i as int]@);
        assert(all[i as int].len() * most <= usize::MAX);
        let one = bank_joltage(banks[i].as_slice(), n);
        joltage = match joltage.checked_add(one) {
            Some(sum) => sum,
            None => {
                proof {
                    lemma_joltage_sum_grows(all, most, i + 1, all.len() as int);
                }
                return Err(PuzzleError::Overflow);
            },
        };
        i += 1;
    }
    Ok(joltage)
}

/// Adds the joltages of the banks with two batteries switched on in each.
pub fn a(input: &str) -> (r: Result<u64, PuzzleError>)
    ensures
        r == spec_total(input@, 2),
{
    total_joltage(input, 2)
}

/// Adds the joltages of the banks with twelve batteries switched on in
/// each.
pub fn b(input: &str) -> (r: Result<u64, PuzzleError>)
    ensures
        r == spec_total(input@, 12),
{
    total_joltage(input, 12)
}

/// The solvers of both parts.
pub fn solution() -> (solution: Solution)
    ensures
        solution.part_a() is Some,
        solution.part_b() is Some,
{
    Solution::new().with_a(|input: &str| -> (r: Result<u64, String>) { shown(a(input)) }).with_b(
        |input: &str| -> (r: Result<u64, String>) { shown(b(input)) },
    )
}

} // verus!
