//! Day 6: columns of numbers, each with an operation under it.
use vstd::prelude::*;
use std::str::FromStr;
use crate::solution::Solution;
use crate::util::parse::{digit_value, is_digit, parse_unsigned, parse_unsigned_chars, to_digit};
use crate::util::text::{lines, same_text, split_lines, split_words, to_chars, views, words};
use crate::y2025::{shown, PuzzleError};

verus! {

/// An operation on a column of numbers.
#[derive(Debug, Clone, Copy, PartialEq, Eq, Structural)]
pub enum Op {
    Add,
    Mul,
}

/// `a + b` where it is a 64-bit number.
pub open spec fn checked_sum(a: u64, b: u64) -> Option<u64> {
    if a + b <= u64::MAX {
        Some((a + b) as u64)
    } else {
        None
    }
}

/// `a * b` where it is a 64-bit number.
pub open spec fn checked_product(a: u64, b: u64) -> Option<u64> {
    if a * b <= u64::MAX {
        Some((a * b) as u64)
    } else {
        None
    }
}

impl Op {
    /// The number that the operation leaves every other number as it is.
    pub open spec fn spec_identity(&self) -> u64 {
        match self {
            Op::Add => 0,
            Op::Mul => 1,
        }
    }

    /// The number that the operation leaves every other number as it is.
    pub fn identity(&self) -> (n: u64)
        ensures
            n == self.spec_identity(),
    {
        match self {
            Op::Add => 0,
            Op::Mul => 1,
        }
    }

    /// What the operation makes of `a` and `b`, where it is a 64-bit
    /// number.
    pub open spec fn apply(&self, a: u64, b: u64) -> Option<u64> {
        match self {
            Op::Add => checked_sum(a, b),
            Op::Mul => checked_product(a, b),
        }
    }

    /// Puts into `dest` what the operation makes of it and `value`.
    pub fn apply_to(&self, dest: &mut u64, value: u64)
        requires
            self.apply(*old(dest), value) is Some,
        ensures
            Some(*final(dest)) == self.apply(*old(dest), value),
    {
        match self {
            Op::Add => {
                *dest = *dest + value;
            },
            Op::Mul => {
                *dest = *dest * value;
            },
        }
    }

    /// Puts into `dest` what the operation makes of it and `value`, and
    /// tells whether that was a 64-bit number; where it was not, `dest`
    /// stays as it is.
    pub fn try_apply_to(&self, dest: &mut u64, value: u64) -> (done: bool)
        ensures
            done == self.apply(*old(dest), value) is Some,
            done ==> Some(*final(dest)) == self.apply(*old(dest), value),
            !done ==> *final(dest) == *old(dest),
    {
        let made = match self {
            Op::Add => dest.checked_add(value),
            Op::Mul => dest.checked_mul(value),
        };
        match made {
            Some(made) => {
                self.apply_to(dest, value);
                true
            },
            None => false,
        }
    }

    /// The operation that `word` names: addition for `+`, multiplication
    /// for anything else.
    pub open spec fn spec_parse(word: Seq<char>) -> Op {
        if word == "+"@ {
            Op::Add
        } else {
            Op::Mul
        }
    }

    /// Reads the operation that `word` names.
    pub fn parse(word: &str) -> (op: Op)
        ensures
            op == Op::spec_parse(word@),
    {
        if same_text(word, "+") {
            Op::Add
        } else {
            Op::Mul
        }
    }
}

impl FromStr for Op {
    type Err = std::convert::Infallible;

    /// Reads the operation that `s` names; this never fails.
    fn from_str(s: &str) -> (r: Result<Op, std::convert::Infallible>)
        ensures
            r matches Ok(op) && op == Op::spec_parse(s@),
    {
        Ok(Op::parse(s))
    }
}

/// The operations that the words of a line name.
pub open spec fn spec_ops(row: Seq<char>) -> Seq<Op> {
    words(row).map_values(|word: Seq<char>| Op::spec_parse(word))
}

/// The numbers that each operation starts from.
pub open spec fn identities(ops: Seq<Op>) -> Seq<u64> {
    ops.map_values(|op: Op| op.spec_identity())
}

/// The lesser of two numbers.
pub open spec fn least(a: int, b: int) -> int {
    if a < b {
        a
    } else {
        b
    }
}

/// What becomes of `results` when the first `upto` of `tokens` are read as
/// numbers and each is joined to the result of its column by the operation
/// of that column.
pub open spec fn apply_tokens(results: Seq<u64>, ops: Seq<Op>, tokens: Seq<Seq<char>>, upto: int) -> Result<
    Seq<u64>,
    PuzzleError,
>
    decreases upto,
{
    if upto <= 0 {
        Ok(results)
    } else {
        match apply_tokens(results, ops, tokens, upto - 1) {
            Err(error) => Err(error),
            Ok(so_far) => match parse_unsigned(tokens[upto - 1], u64::MAX as nat) {
                None => Err(PuzzleError::InvalidNumber),
                Some(value) => match ops[upto - 1].apply(so_far[upto - 1], value as u64) {
                    None => Err(PuzzleError::Overflow),
                    Some(made) => Ok(so_far.update(upto - 1, made)),
                },
            },
        }
    }
}

/// What becomes of `results` when the first `upto` of `rows` are applied
/// one after the other. Of a row only as many words count as there are
/// operations.
pub open spec fn apply_rows(results: Seq<u64>, ops: Seq<Op>, rows: Seq<Seq<char>>, upto: int) -> Result<
    Seq<u64>,
    PuzzleError,
>
    decreases upto,
{
    if upto <= 0 {
        Ok(results)
    } else {
        match apply_rows(results, ops, rows, upto - 1) {
            Err(error) => Err(error),
            Ok(so_far) => apply_tokens(
                so_far,
                ops,
                words(rows[upto - 1]),
                least(words(rows[upto - 1]).len() as int, ops.len() as int),
            ),
        }
    }
}

/// The sum of the first `upto` of `numbers`, where it is a 64-bit number.
pub open spec fn sum_upto(numbers: Seq<u64>, upto: int) -> Option<u64>
    decreases upto,
{
    if upto <= 0 {
        Some(0)
    } else {
        match sum_upto(numbers, upto - 1) {
            None => None,
            Some(sum) => checked_sum(sum, numbers[upto - 1]),
        }
    }
}

/// The product of the first `upto` of `numbers`, where it is a 64-bit
/// number.
pub open spec fn product_upto(numbers: Seq<u64>, upto: int) -> Option<u64>
    decreases upto,
{
    if upto <= 0 {
        Some(1)
    } else {
        match product_upto(numbers, upto - 1) {
            None => None,
            Some(product) => checked_product(product, numbers[upto - 1]),
        }
    }
}

/// The answer of part A for `text`: the last line names an operation for
/// each column; the numbers of each column, line by line, are joined by
/// the operation of the column; and the results of the columns are added.
pub open spec fn spec_a(text: Seq<char>) -> Result<u64, PuzzleError> {
    let rows = lines(text);
    if rows.len() == 0 {
        Err(PuzzleError::EmptyInput)
    } else {
        let ops = spec_ops(rows.last());
        match apply_rows(identities(ops), ops, rows, rows.len() - 1) {
            Err(error) => Err(error),
            Ok(results) => match sum_upto(results, results.len() as int) {
                None => Err(PuzzleError::Overflow),
                Some(total) => Ok(total),
            },
        }
    }
}

/// Adds `numbers`.
pub fn sum(numbers: &Vec<u64>) -> (r: Option<u64>)
    ensures
        r == sum_upto(numbers@, numbers@.len() as int),
{
    let mut total: u64 = 0;
    let mut i: usize = 0;
    while i < numbers.len()
        invariant
            i <= numbers@.len(),
            sum_upto(numbers@, i as int) == Some(total),
        decreases numbers.len() - i,
    {
        total = match total.checked_add(numbers[i]) {
            Some(total) => total,
            None => {
                proof {
                    lemma_sum_fails(numbers@, i + 1, numbers@.len() as int);
                }
                return None;
            },
        };
        i += 1;
    }
    Some(total)
}

/// Multiplies `numbers`.
pub fn product(numbers: &Vec<u64>) -> (r: Option<u64>)
    ensures
        r == product_upto(numbers@, numbers@.len() as int),
{
    let mut total: u64 = 1;
    let mut i: usize = 0;
    while i < numbers.len()
        invariant
            i <= numbers@.len(),
            product_upto(numbers@, i as int) == Some(total),
        decreases numbers.len() - i,
    {
        total = match total.checked_mul(numbers[i]) {
            Some(total) => total,
            None => {
                proof {
                    lemma_product_fails(numbers@, i + 1, numbers@.len() as int);
                }
                return None;
            },
        };
        i += 1;
    }
    Some(total)
}

/// A sum that has left the 64-bit numbers does not come back.
pub proof fn lemma_sum_fails(numbers: Seq<u64>, n: int, upto: int)
    requires
        0 <= n <= upto,
        sum_upto(numbers, n) is None,
    ensures
        sum_upto(numbers, upto) is None,
    decreases upto - n,
{
    if n < upto {
        lemma_sum_fails(numbers, n, upto - 1);
    }
}

/// A product that has left the 64-bit numbers does not come back.
pub proof fn lemma_product_fails(numbers: Seq<u64>, n: int, upto: int)
    requires
        0 <= n <= upto,
        product_upto(numbers, n) is None,
    ensures
        product_upto(numbers, upto) is None,
    decreases upto - n,
{
    if n < upto {
        lemma_product_fails(numbers, n, upto - 1);
    }
}

proof fn lemma_apply_rows_fails(results: Seq<u64>, ops: Seq<Op>, rows: Seq<Seq<char>>, n: int, upto: int)
    requires
        0 <= n <= upto,
        apply_rows(results, ops, rows, n) is Err,
    ensures
        apply_rows(results, ops, rows, upto) == apply_rows(results, ops, rows, n),
    decreases upto - n,
{
    if n < upto {
        lemma_apply_rows_fails(results, ops, rows, n, upto - 1);
    }
}

proof fn lemma_apply_tokens_fails(results: Seq<u64>, ops: Seq<Op>, tokens: Seq<Seq<char>>, n: int, upto: int)
    requires
        0 <= n <= upto,
        apply_tokens(results, ops, tokens, n) is Err,
    ensures
        apply_tokens(results, ops, tokens, upto) == apply_tokens(results, ops, tokens, n),
    decreases upto - n,
{
    if n < upto {
        lemma_apply_tokens_fails(results, ops, tokens, n, upto - 1);
    }
}

proof fn lemma_apply_tokens_len(results: Seq<u64>, ops: Seq<Op>, tokens: Seq<Seq<char>>, upto: int)
    requires
        upto <= results.len(),
    ensures
        apply_tokens(results, ops, tokens, upto) matches Ok(made) ==> made.len() == results.len(),
    decreases upto,
{
    if upto > 0 {
        lemma_apply_tokens_len(results, ops, tokens, upto - 1);
    }
}

/// Works the columns out line by line and adds their results.
pub fn a(input: &str) -> (r: Result<u64, PuzzleError>)
    ensures
        r == spec_a(input@),
{
    let text = to_chars(input);
    let rows = split_lines(&text);
    if rows.len() == 0 {
        return Err(PuzzleError::EmptyInput);
    }
    let ghost all = lines(input@);
    let last = rows.len() - 1;
    let names = split_words(&rows[last]);
    let mut operators: Vec<Op> = Vec::new();
    let mut results: Vec<u64> = Vec::new();
    let mut k: usize = 0;
    assert(views(rows@)[last as int] == rows@[last as int]@);
    while k < names.len()
        invariant
            k <= names@.len(),
            views(names@) == words(all.last()),
            operators@.len() == k,
            results@.len() == k,
            forall|j: int| 0 <= j < k ==> #[trigger] operators@[j] == spec_ops(all.last())[j],
            forall|j: int| 0 <= j < k ==> #[trigger] results@[j] == identities(spec_ops(all.last()))[j],
        decreases names.len() - k,
    {
        let name = crate::util::text::from_chars(&names[k]);
        assert(views(names@)[k as int] == names@[k as int]@);
        let op = Op::parse(name.as_str());
        operators.push(op);
        results.push(op.identity());
        k += 1;
    }
    let ghost ops = spec_ops(all.last());
    assert(operators@ =~= ops);
    assert(results@ =~= identities(ops));
    let mut y: usize = 0;
    while y < last
        invariant
            y <= last,
            last == rows@.len() - 1,
            views(rows@) == all,
            all == lines(input@),
            operators@ == ops,
            ops == spec_ops(all.last()),
            results@.len() == ops.len(),
            apply_rows(identities(ops), ops, all, y as int) == Ok::<Seq<u64>, PuzzleError>(results@),
        decreases last - y,
    {
        let tokens = split_words(&rows[y]);
        let ghost row_words = words(all[y as int]);
        let ghost start = results@;
        assert(views(rows@)[y as int] == rows@[y as int]@);
        let count = if tokens.len() < operators.len() {
            tokens.len()
        } else {
            operators.len()
        };
        let mut x: usize = 0;
        while x < count
            invariant
                x <= count,
                count == least(row_words.len() as int, ops.len() as int),
                views(tokens@) == row_words,
                y < last,
                last == rows@.len() - 1,
                all == lines(input@),
                views(rows@) == all,
                row_words == words(all[y as int]),
                operators@ == ops,
                ops == spec_ops(all.last()),
                results@.len() == ops.len(),
                start.len() == ops.len(),
                apply_rows(identities(ops), ops, all, y as int) == Ok::<Seq<u64>, PuzzleError>(start),
                apply_tokens(start, ops, row_words, x as int) == Ok::<Seq<u64>, PuzzleError>(results@),
            decreases count - x,
        {
            assert(views(tokens@)[x as int] == tokens@[x as int]@);
            let value = match parse_unsigned_chars(&tokens[x], u64::MAX as u128) {
                Some(value) => value as u64,
                None => {
                    proof {
                        assert(apply_tokens(start, ops, row_words, x + 1) is Err);
                        lemma_apply_tokens_fails(start, ops, row_words, x + 1, count as int);
                        assert(apply_rows(identities(ops), ops, all, y + 1) is Err);
                        lemma_apply_rows_fails(identities(ops), ops, all, y + 1, last as int);
                    }
                    return Err(PuzzleError::InvalidNumber);
                },
            };
            let op = operators[x];
            let mut result = results[x];
            if !op.try_apply_to(&mut result, value) {
                proof {
                    assert(apply_tokens(start, ops, row_words, x + 1) is Err);
                    lemma_apply_tokens_fails(start, ops, row_words, x + 1, count as int);
                    assert(apply_rows(identities(ops), ops, all, y + 1) is Err);
                    lemma_apply_rows_fails(identities(ops), ops, all, y + 1, last as int);
                }
                return Err(PuzzleError::Overflow);
            }
            results.set(x, result);
            x += 1;
        }
        y += 1;
    }
    match sum(&results) {
        Some(total) => Ok(total),
        None => Err(PuzzleError::Overflow),
    }
}

/// What reading the columns from right to left has come to: the number
/// that the digits of the present column write, the numbers that wait for
/// their operation, and the sum of what was worked out.
pub struct Ledger {
    pub operand: u64,
    pub operands: Seq<u64>,
    pub total: u64,
}

/// What becomes of `ledger` when the character `ch` is read. A digit is
/// added to the number that the column writes. An operation ends that
/// number, joins all numbers that wait, and adds the result to the total.
/// Anything else is passed over.
pub open spec fn read_cell(ledger: Ledger, ch: char) -> Option<Ledger> {
    if is_digit(ch) {
        if ledger.operand * 10 + digit_value(ch) <= u64::MAX {
            Some(Ledger { operand: (ledger.operand * 10 + digit_value(ch)) as u64, ..ledger })
        } else {
            None
        }
    } else if ch == '+' || ch == '*' {
        let waiting = ledger.operands.push(ledger.operand);
        let made = if ch == '+' {
            sum_upto(waiting, waiting.len() as int)
        } else {
            product_upto(waiting, waiting.len() as int)
        };
        match made {
            None => None,
            Some(made) => match checked_sum(ledger.total, made) {
                None => None,
                Some(total) => Some(Ledger { operand: 0, operands: Seq::empty(), total }),
            },
        }
    } else {
        Some(ledger)
    }
}

/// What becomes of `ledger` when column `col` is read in the first `upto`
/// rows, from the top.
pub open spec fn read_column(ledger: Ledger, rows: Seq<Seq<char>>, col: int, upto: int) -> Option<Ledger>
    decreases upto,
{
    if upto <= 0 {
        Some(ledger)
    } else {
        match read_column(ledger, rows, col, upto - 1) {
            None => None,
            Some(so_far) => read_cell(so_far, rows[upto - 1][col]),
        }
    }
}

/// What becomes of `ledger` when the column `col` is read through: a
/// number that its digits write waits for its operation from then on.
pub open spec fn end_column(ledger: Ledger, rows: Seq<Seq<char>>, col: int) -> Option<Ledger> {
    match read_column(Ledger { operand: 0, ..ledger }, rows, col, rows.len() as int) {
        None => None,
        Some(read) => Some(
            if read.operand != 0 {
                Ledger { operand: 0, operands: read.operands.push(read.operand), total: read.total }
            } else {
                Ledger { operand: 0, ..read }
            },
        ),
    }
}

/// What becomes of `ledger` when the columns from the last down to `from`
/// are read.
pub open spec fn read_columns(ledger: Ledger, rows: Seq<Seq<char>>, width: int, from: int) -> Option<Ledger>
    decreases width - from,
{
    if from >= width {
        Some(ledger)
    } else {
        match read_columns(ledger, rows, width, from + 1) {
            None => None,
            Some(so_far) => end_column(so_far, rows, from),
        }
    }
}

/// Whether no row is shorter than the first.
pub open spec fn full_rows(rows: Seq<Seq<char>>) -> bool {
    forall|y: int| 0 <= y < rows.len() ==> (#[trigger] rows[y]).len() >= rows[0].len()
}

/// The answer of part B for `text`: the columns are read from right to
/// left, each from top to bottom, as [`read_cell`] says.
pub open spec fn spec_b(text: Seq<char>) -> Result<u64, PuzzleError> {
    let rows = lines(text);
    if rows.len() == 0 {
        Err(PuzzleError::EmptyInput)
    } else if !full_rows(rows) {
        Err(PuzzleError::InvalidInput)
    } else {
        match read_columns(
            Ledger { operand: 0, operands: Seq::empty(), total: 0 },
            rows,
            rows[0].len() as int,
            0,
        ) {
            None => Err(PuzzleError::Overflow),
            Some(ledger) => Ok(ledger.total),
        }
    }
}

proof fn lemma_read_column_fails(ledger: Ledger, rows: Seq<Seq<char>>, col: int, n: int, upto: int)
    requires
        0 <= n <= upto,
        read_column(ledger, rows, col, n) is None,
    ensures
        read_column(ledger, rows, col, upto) is None,
    decreases upto - n,
{
    if n < upto {
        lemma_read_column_fails(ledger, rows, col, n, upto - 1);
    }
}

proof fn lemma_read_columns_fails(ledger: Ledger, rows: Seq<Seq<char>>, width: int, n: int, from: int)
    requires
        0 <= from <= n <= width,
        read_columns(ledger, rows, width, n) is None,
    ensures
        read_columns(ledger, rows, width, from) is None,
    decreases n - from,
{
    if from < n {
        lemma_read_columns_fails(ledger, rows, width, n, from + 1);
    }
}

/// Reads the columns from right to left and adds what they work out to.
pub fn b(input: &str) -> (r: Result<u64, PuzzleError>)
    ensures
        r == spec_b(input@),
{
    let text = to_chars(input);
    let rows = split_lines(&text);
    let ghost all = lines(input@);
    if rows.len() == 0 {
        return Err(PuzzleError::EmptyInput);
    }
    let width = rows[0].len();
    assert(views(rows@)[0] == rows@[0]@);
    let mut y: usize = 0;
    while y < rows.len()
        invariant
            y <= rows@.len(),
            views(rows@) == all,
            all == lines(input@),
            all.len() > 0,
            width == all[0].len(),
            forall|j: int| 0 <= j < y ==> (#[trigger] all[j]).len() >= width,
        decreases rows.len() - y,
    {
        assert(views(rows@)[y as int] == rows@[y as int]@);
        if rows[y].len() < width {
            assert(!full_rows(all));
            return Err(PuzzleError::InvalidInput);
        }
        y += 1;
    }
    assert(full_rows(all));
    let ghost first = Ledger { operand: 0, operands: Seq::empty(), total: 0 };
    let mut operands: Vec<u64> = Vec::new();
    let mut total: u64 = 0;
    let mut col: usize = width;
    while col > 0
        invariant
            col <= width,
            views(rows@) == all,
            all == lines(input@),
            all.len() > 0,
            width == all[0].len(),
            full_rows(all),
            first == (Ledger { operand: 0, operands: Seq::empty(), total: 0 }),
            read_columns(first, all, width as int, col as int) == Some(
                Ledger { operand: 0, operands: operands@, total },
            ),
        decreases col,
    {
        col -= 1;
        let ghost entry = Ledger { operand: 0, operands: operands@, total };
        let mut operand: u64 = 0;
        let mut y: usize = 0;
        while y < rows.len()
            invariant
                y <= rows@.len(),
                col < width,
                views(rows@) == all,
                all == lines(input@),
                all.len() > 0,
                width == all[0].len(),
                full_rows(all),
                first == (Ledger { operand: 0, operands: Seq::empty(), total: 0 }),
                entry.operand == 0,
                read_columns(first, all, width as int, col + 1) == Some(entry),
                read_column(entry, all, col as int, y as int) == Some(
                    Ledger { operand, operands: operands@, total },
                ),
            decreases rows.len() - y,
        {
            assert(views(rows@)[y as int] == rows@[y as int]@);
            assert(all[y as int].len() >= width);
            let ch = rows[y][col];
            let ghost here = Ledger { operand, operands: operands@, total };
            match to_digit(ch) {
                Some(digit) => {
                    let shifted = match operand.checked_mul(10) {
                        Some(shifted) => shifted,
                        None => {
                            proof {
                                assert(read_cell(here, ch) is None);
                                lemma_read_column_fails(entry, all, col as int, y + 1, all.len() as int);
                                assert(end_column(entry, all, col as int) is None);
                                lemma_read_columns_fails(first, all, width as int, col as int, 0);
                            }
                            return Err(PuzzleError::Overflow);
                        },
                    };
                    operand = match shifted.checked_add(digit as u64) {
                        Some(operand) => operand,
                        None => {
                            proof {
                                assert(read_cell(here, ch) is None);
                                lemma_read_column_fails(entry, all, col as int, y + 1, all.len() as int);
                                assert(end_column(entry, all, col as int) is None);
                                lemma_read_columns_fails(first, all, width as int, col as int, 0);
                            }
                            return Err(PuzzleError::Overflow);
                        },
                    };
                },
                None => {
                    if ch == '+' || ch == '*' {
                        operands.push(operand);
                        let made = if ch == '+' {
                            sum(&operands)
                        } else {
                            product(&operands)
                        };
                        let added = match made {
                            Some(made) => total.checked_add(made),
                            None => None,
                        };
                        total = match added {
                            Some(total) => total,
                            None => {
                                proof {
                                    assert(read_cell(here, ch) is None);
                                    lemma_read_column_fails(entry, all, col as int, y + 1, all.len() as int);
                                    assert(end_column(entry, all, col as int) is None);
                                    lemma_read_columns_fails(first, all, width as int, col as int, 0);
                                }
                                return Err(PuzzleError::Overflow);
                            },
                        };
                        operand = 0;
                        operands = Vec::new();
                        assert(read_cell(here, ch) == Some(
                            Ledger { operand: 0, operands: Seq::<u64>::empty(), total },
                        ));
                    }
                },
            }
            y += 1;
        }
        if operand != 0 {
            operands.push(operand);
        }
        proof {
            assert(end_column(entry, all, col as int) == Some(
                Ledger { operand: 0, operands: operands@, total },
            ));
        }
    }
    Ok(total)
}

/// The solvers of both parts.
pub fn solution() -> (solution: Solution)
    ensures
        solution.part_a() is Some,
        solution.part_b() is Some,
{
    Solution::new().with_a(|input: &str| -> (r: Result<u64, String>) { shown(a(input)) }).with_b(
        |input: &str| -> (r: Result<u64, String>) { shown(b(input)) },
    )
}

} // verus!
