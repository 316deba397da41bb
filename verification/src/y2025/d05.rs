//! Day 5: ranges of fresh ingredients, and the ingredients at hand.
use vstd::prelude::*;
use crate::solution::Solution;
use crate::util::parse::{parse_unsigned, parse_unsigned_chars};
use crate::util::text::{copy_range, find_char, index_of, lines, split_lines, to_chars, views};
use crate::y2025::{collect, lemma_collect_fails, shown, PuzzleError};

verus! {

/// The numbers from `start` to `end`, both included.
#[derive(Debug, Clone, Copy, PartialEq, Eq, Structural)]
pub struct Span {
    pub start: u64,
    pub end: u64,
}

impl Span {
    /// Whether `value` lies in the span.
    pub open spec fn covers(&self, value: u64) -> bool {
        self.start <= value <= self.end
    }

    /// How many numbers the span holds, where its end is not before its
    /// start.
    pub open spec fn spec_len(&self) -> nat {
        (1 + self.end - self.start) as nat
    }
}

/// Whether a span of `spans` holds `value`.
pub open spec fn covered(spans: Seq<Span>, value: u64) -> bool {
    exists|i: int| 0 <= i < spans.len() && (#[trigger] spans[i]).covers(value)
}

/// Whether no span of `spans` ends before it starts.
pub open spec fn proper(spans: Seq<Span>) -> bool {
    forall|i: int| 0 <= i < spans.len() ==> (#[trigger] spans[i]).start <= spans[i].end
}

/// Whether the spans come in the order of their starts.
pub open spec fn by_start(spans: Seq<Span>) -> bool {
    forall|i: int, j: int| 0 <= i <= j < spans.len() ==> (#[trigger] spans[i]).start <= (#[trigger] spans[j]).start
}

/// Whether each span ends before the next starts.
pub open spec fn apart(spans: Seq<Span>) -> bool {
    forall|i: int, j: int| 0 <= i < j < spans.len() ==> (#[trigger] spans[i]).end < (#[trigger] spans[j]).start
}

/// How many numbers the spans hold together, where they are proper and
/// apart.
pub open spec fn total_len(spans: Seq<Span>) -> nat
    decreases spans.len(),
{
    if spans.len() == 0 {
        0
    } else {
        total_len(spans.drop_last()) + spans.last().spec_len()
    }
}

/// Spans in ascending order that do not touch each other's numbers.
pub struct Ranges(Vec<Span>);

/// Spans on their way to become [`Ranges`].
pub struct RangesBuilder(pub Vec<Span>);

impl View for Ranges {
    type V = Seq<Span>;

    closed spec fn view(&self) -> Seq<Span> {
        self.0@
    }
}

impl Ranges {
    /// The spans are proper, in ascending order, and apart.
    #[verifier::type_invariant]
    pub closed spec fn wf(&self) -> bool {
        proper(self.0@) && apart(self.0@)
    }

    /// Tells whether a span holds `value`.
    pub fn contains(&self, value: &u64) -> (found: bool)
        ensures
            found == covered(self@, *value),
    {
        proof {
            use_type_invariant(self);
        }
        let mut i: usize = 0;
        while i < self.0.len()
            invariant
                i <= self.0@.len(),
                proper(self.0@),
                apart(self.0@),
                forall|j: int| 0 <= j < i ==> !(#[trigger] self.0@[j]).covers(*value),
            decreases self.0.len() - i,
        {
            let span = self.0[i];
            if span.start > *value {
                proof {
                    assert forall|j: int| i <= j < self.0@.len() implies !(#[trigger] self.0@[j]).covers(
                        *value,
                    ) by {
                        if j > i {
                            assert(self.0@[i as int].end < self.0@[j].start);
                        }
                    }
                }
                return false;
            }
            if span.start <= *value && *value <= span.end {
                return true;
            }
            i += 1;
        }
        false
    }

    /// The spans in ascending order.
    pub fn iter(&self) -> (spans: &[Span])
        ensures
            spans@ == self@,
            proper(spans@),
            apart(spans@),
    {
        proof {
            use_type_invariant(self);
        }
        self.0.as_slice()
    }
}

/// Puts `spans` in the order of their starts. This is
/// `slice::sort_unstable_by_key` with the start as the key: the spans are
/// the same afterwards, each as often as before, and come in the order of
/// their starts, as many as before. In which order spans of one start come
/// is left open.
#[verifier::external_body]
fn sort_by_start(spans: &mut Vec<Span>)
    ensures
        final(spans)@.len() == old(spans)@.len(),
        final(spans)@.to_multiset() == old(spans)@.to_multiset(),
        by_start(final(spans)@),
{
    spans.sort_unstable_by_key(|span| span.start)
}

impl RangesBuilder {
    /// Merges the spans into ranges that hold the same numbers.
    pub fn build(self) -> (ranges: Ranges)
        requires
            proper(self.0@),
        ensures
            ranges.wf(),
            forall|value: u64| covered(ranges@, value) <==> covered(self.0@, value),
    {
        let RangesBuilder(mut spans) = self;
        let merged = RangesBuilder::merge_ranges(&mut spans);
        Ranges(merged)
    }

    /// Sorts `ranges` by their starts and merges those that overlap.
    pub fn merge_ranges(ranges: &mut Vec<Span>) -> (merged: Vec<Span>)
        requires
            proper(old(ranges)@),
        ensures
            final(ranges)@.to_multiset() == old(ranges)@.to_multiset(),
            by_start(final(ranges)@),
            proper(merged@),
            apart(merged@),
            forall|value: u64| covered(merged@, value) <==> covered(old(ranges)@, value),
    {
        if ranges.len() == 0 {
            return Vec::new();
        }
        sort_by_start(ranges);
        proof {
            lemma_same_spans(old(ranges)@, ranges@);
        }
        let mut merged: Vec<Span> = Vec::new();
        merged.push(ranges[0]);
        let mut i: usize = 1;
        proof {
            assert forall|value: u64| covered(merged@, value) <==> covered(ranges@.take(1), value) by {
                if covered(merged@, value) {
                    assert(ranges@.take(1)[0].covers(value));
                }
                if covered(ranges@.take(1), value) {
                    assert(merged@[0].covers(value));
                }
            }
        }
        while i < ranges.len()
            invariant
                1 <= i <= ranges@.len(),
                proper(ranges@),
                by_start(ranges@),
                merged@.len() >= 1,
                proper(merged@),
                apart(merged@),
                merged@.last().start <= ranges@[i - 1].start,
                forall|value: u64|
                    #![trigger covered(merged@, value)]
                    #![trigger covered(ranges@.take(i as int), value)]
                    covered(merged@, value) <==> covered(ranges@.take(i as int), value),
            decreases ranges.len() - i,
        {
            let span = ranges[i];
            let last_index = merged.len() - 1;
            let last = merged[last_index];
            let ghost before = merged@;
            let ghost seen = ranges@.take(i as int);
            let ghost next = ranges@.take(i + 1);
            proof {
                assert(ranges@[i - 1].start <= ranges@[i as int].start);
                assert(next.drop_last() =~= seen);
                assert(next.last() == span);
            }
            let holds_start = last.start <= span.start && span.start <= last.end;
            let holds_end = last.start <= span.end && span.end <= last.end;
            if holds_start && !holds_end {
                merged.set(last_index, Span { start: last.start, end: span.end });
                proof {
                    let after = merged@;
                    assert(span.start <= span.end);
                    assert(after[last_index as int].start == last.start && after[last_index as int].end
                        > last.end);
                    assert(forall|k: int| 0 <= k < last_index ==> after[k] == before[k]);
                    assert forall|a: int, b: int| 0 <= a < b < after.len() implies (#[trigger] after[a]).end < (
                    #[trigger] after[b]).start by {
                        assert(before[a].end < before[b].start);
                    }
                    assert forall|value: u64| covered(after, value) <==> covered(next, value) by {
                        if covered(after, value) {
                            let k = choose|k: int| 0 <= k < after.len() && (#[trigger] after[k]).covers(value);
                            if k < last_index {
                                assert(before[k].covers(value));
                                assert(covered(before, value));
                                let m = choose|m: int| 0 <= m < seen.len() && (#[trigger] seen[m]).covers(value);
                                assert(next[m].covers(value));
                            } else if value <= last.end {
                                assert(before[last_index as int].covers(value));
                                assert(covered(before, value));
                                let m = choose|m: int| 0 <= m < seen.len() && (#[trigger] seen[m]).covers(value);
                                assert(next[m].covers(value));
                            } else {
                                assert(next[i as int].covers(value));
                            }
                        }
                        if covered(next, value) {
                            let m = choose|m: int| 0 <= m < next.len() && (#[trigger] next[m]).covers(value);
                            if m < i {
                                assert(seen[m].covers(value));
                                assert(covered(seen, value));
                                assert(covered(before, value));
                                let k = choose|k: int|
                                    0 <= k < before.len() && (#[trigger] before[k]).covers(value);
                                if k == last_index {
                                    assert(before[k] == last);
                                }
                                assert(after[k].covers(value));
                            } else {
                                assert(after[last_index as int].covers(value));
                            }
                        }
                    }
                }
            } else if !holds_start {
                merged.push(span);
                proof {
                    let after = merged@;
                    assert(forall|k: int| 0 <= k < before.len() ==> after[k] == before[k]);
                    assert(after[before.len() as int] == span);
                    assert(span.start > last.end);
                    assert forall|a: int, b: int| 0 <= a < b < after.len() implies (#[trigger] after[a]).end < (
                    #[trigger] after[b]).start by {
                        if b < before.len() {
                            assert(before[a].end < before[b].start);
                        } else if a < last_index {
                            assert(before[a].end < before[last_index as int].start);
                        }
                    }
                    assert forall|value: u64| covered(after, value) <==> covered(next, value) by {
                        if covered(after, value) {
                            let k = choose|k: int| 0 <= k < after.len() && (#[trigger] after[k]).covers(value);
                            if k < before.len() {
                                assert(before[k].covers(value));
                                assert(covered(before, value));
                                let m = choose|m: int| 0 <= m < seen.len() && (#[trigger] seen[m]).covers(value);
                                assert(next[m].covers(value));
                            } else {
                                assert(next[i as int].covers(value));
                            }
                        }
                        if covered(next, value) {
                            let m = choose|m: int| 0 <= m < next.len() && (#[trigger] next[m]).covers(value);
                            if m < i {
                                assert(seen[m].covers(value));
                                assert(covered(seen, value));
                                assert(covered(before, value));
                                let k = choose|k: int|
                                    0 <= k < before.len() && (#[trigger] before[k]).covers(value);
                                assert(after[k].covers(value));
                            } else {
                                assert(after[before.len() as int].covers(value));
                            }
                        }
                    }
                }
            } else {
                proof {
                    assert forall|value: u64| covered(before, value) <==> covered(next, value) by {
                        if covered(before, value) {
                            assert(covered(seen, value));
                            let m = choose|m: int| 0 <= m < seen.len() && (#[trigger] seen[m]).covers(value);
                            assert(next[m].covers(value));
                        }
                        if covered(next, value) {
                            let m = choose|m: int| 0 <= m < next.len() && (#[trigger] next[m]).covers(value);
                            if m < i {
                                assert(seen[m].covers(value));
                                assert(covered(seen, value));
                            } else {
                                assert(before[last_index as int].covers(value));
                            }
                        }
                    }
                }
            }
            i += 1;
        }
        proof {
            assert(ranges@.take(i as int) =~= ranges@);
        }
        merged
    }
}

/// Sequences that hold the same spans, each as often, hold proper spans
/// together, and hold the same numbers.
pub proof fn lemma_same_spans(a: Seq<Span>, b: Seq<Span>)
    requires
        a.to_multiset() == b.to_multiset(),
    ensures
        proper(a) ==> proper(b),
        forall|value: u64| covered(a, value) <==> covered(b, value),
{
    broadcast use vstd::seq_lib::group_to_multiset_ensures;

    assert forall|i: int| 0 <= i < b.len() implies a.contains(#[trigger] b[i]) by {
        assert(b.to_multiset().count(b[i]) > 0);
    }
    assert forall|i: int| 0 <= i < a.len() implies b.contains(#[trigger] a[i]) by {
        assert(a.to_multiset().count(a[i]) > 0);
    }
    if proper(a) {
        assert forall|i: int| 0 <= i < b.len() implies (#[trigger] b[i]).start <= b[i].end by {
            let k = choose|k: int| 0 <= k < a.len() && a[k] == b[i];
            assert(a[k].start <= a[k].end);
        }
    }
    assert forall|value: u64| covered(a, value) <==> covered(b, value) by {
        if covered(a, value) {
            let i = choose|i: int| 0 <= i < a.len() && (#[trigger] a[i]).covers(value);
            let k = choose|k: int| 0 <= k < b.len() && b[k] == a[i];
            assert(b[k].covers(value));
        }
        if covered(b, value) {
            let i = choose|i: int| 0 <= i < b.len() && (#[trigger] b[i]).covers(value);
            let k = choose|k: int| 0 <= k < a.len() && a[k] == b[i];
            assert(a[k].covers(value));
        }
    }
}

/// The span that `line` writes: two numbers with a hyphen between, the
/// second not less than the first.
pub open spec fn spec_parse_span(line: Seq<char>) -> Result<Span, PuzzleError> {
    let at = index_of(line, '-');
    if at >= line.len() {
        Err(PuzzleError::InvalidInput)
    } else {
        match (parse_unsigned(line.take(at), u64::MAX as nat), parse_unsigned(line.skip(at + 1), u64::MAX as nat)) {
            (Some(start), Some(end)) => if start <= end {
                Ok(Span { start: start as u64, end: end as u64 })
            } else {
                Err(PuzzleError::InvalidInput)
            },
            _ => Err(PuzzleError::InvalidNumber),
        }
    }
}

/// Reads the span that `line` writes.
pub fn parse_span(line: &Vec<char>) -> (r: Result<Span, PuzzleError>)
    ensures
        r == spec_parse_span(line@),
{
    let at = find_char(line, '-');
    if at >= line.len() {
        return Err(PuzzleError::InvalidInput);
    }
    let left = copy_range(line, 0, at);
    let right = copy_range(line, at + 1, line.len());
    assert(left@ =~= line@.take(at as int));
    assert(right@ =~= line@.skip(at + 1));
    match (parse_unsigned_chars(&left, u64::MAX as u128), parse_unsigned_chars(&right, u64::MAX as u128)) {
        (Some(start), Some(end)) => if start <= end {
            Ok(Span { start: start as u64, end: end as u64 })
        } else {
            Err(PuzzleError::InvalidInput)
        },
        _ => Err(PuzzleError::InvalidNumber),
    }
}

/// The number that `line` writes.
pub open spec fn spec_parse_id(line: Seq<char>) -> Result<u64, PuzzleError> {
    match parse_unsigned(line, u64::MAX as nat) {
        Some(id) => Ok(id as u64),
        None => Err(PuzzleError::InvalidNumber),
    }
}

/// [`spec_parse_span`] as a value.
pub open spec fn span_reader() -> spec_fn(Seq<char>) -> Result<Span, PuzzleError> {
    |line: Seq<char>| spec_parse_span(line)
}

/// [`spec_parse_id`] as a value.
pub open spec fn id_reader() -> spec_fn(Seq<char>) -> Result<u64, PuzzleError> {
    |line: Seq<char>| spec_parse_id(line)
}

/// How many lines come before the first empty one.
pub open spec fn first_empty(rows: Seq<Seq<char>>) -> int
    decreases rows.len(),
{
    if rows.len() == 0 || rows[0].len() == 0 {
        0
    } else {
        1 + first_empty(rows.skip(1))
    }
}

proof fn lemma_first_empty(rows: Seq<Seq<char>>, at: int)
    requires
        0 <= at <= rows.len(),
        forall|j: int| 0 <= j < at ==> rows[j].len() != 0,
        at < rows.len() ==> rows[at].len() == 0,
    ensures
        first_empty(rows) == at,
    decreases at,
{
    if at > 0 {
        let rest = rows.skip(1);
        assert forall|j: int| 0 <= j < at - 1 implies rest[j].len() != 0 by {
            assert(rest[j] == rows[j + 1]);
        }
        lemma_first_empty(rest, at - 1);
    }
}

/// The spans that the lines of `text` write up to its first empty line.
pub open spec fn spec_spans(text: Seq<char>) -> Result<Seq<Span>, PuzzleError> {
    let rows = lines(text);
    collect(rows.take(first_empty(rows)), span_reader())
}

/// The numbers that the lines of `text` write after its first empty line.
pub open spec fn spec_ids(text: Seq<char>) -> Result<Seq<u64>, PuzzleError> {
    let rows = lines(text);
    let gap = first_empty(rows);
    if gap < rows.len() {
        collect(rows.skip(gap + 1), id_reader())
    } else {
        Ok(Seq::empty())
    }
}

/// Reads the lines of `rows` from `from` up to `to` as spans.
fn read_spans(rows: &Vec<Vec<char>>, to: usize) -> (r: Result<Vec<Span>, PuzzleError>)
    requires
        to <= rows@.len(),
    ensures
        match r {
            Ok(spans) => collect(views(rows@).take(to as int), span_reader()) == Ok::<Seq<Span>, PuzzleError>(
                spans@,
            ) && proper(spans@),
            Err(error) => collect(views(rows@).take(to as int), span_reader()) == Err::<
                Seq<Span>,
                PuzzleError,
            >(error),
        },
{
    let ghost all = views(rows@).take(to as int);
    let ghost read = span_reader();
    let mut spans: Vec<Span> = Vec::new();
    let mut i: usize = 0;
    assert(all.take(0) =~= Seq::<Seq<char>>::empty());
    while i < to
        invariant
            i <= to <= rows@.len(),
            all == views(rows@).take(to as int),
            read == span_reader(),
            collect(all.take(i as int), read) == Ok::<Seq<Span>, PuzzleError>(spans@),
            proper(spans@),
        decreases to - i,
    {
        proof {
            assert(all.take(i + 1).drop_last() =~= all.take(i as int));
            assert(all.take(i + 1).last() == rows@[i as int]@);
        }
        match parse_span(&rows[i]) {
            Ok(span) => {
                spans.push(span);
            },
            Err(error) => {
                proof {
                    lemma_collect_fails(all, read, i + 1);
                }
                return Err(error);
            },
        }
        i += 1;
    }
    assert(all.take(i as int) =~= all);
    Ok(spans)
}

/// Reads the lines of `rows` from `from` on as numbers.
fn read_ids(rows: &Vec<Vec<char>>, from: usize) -> (r: Result<Vec<u64>, PuzzleError>)
    requires
        from <= rows@.len(),
    ensures
        match r {
            Ok(ids) => collect(views(rows@).skip(from as int), id_reader()) == Ok::<Seq<u64>, PuzzleError>(ids@),
            Err(error) => collect(views(rows@).skip(from as int), id_reader()) == Err::<Seq<u64>, PuzzleError>(
                error,
            ),
        },
{
    let ghost all = views(rows@).skip(from as int);
    let ghost read = id_reader();
    let mut ids: Vec<u64> = Vec::new();
    let mut i: usize = from;
    assert(all.take(0) =~= Seq::<Seq<char>>::empty());
    while i < rows.len()
        invariant
            from <= i <= rows@.len(),
            all == views(rows@).skip(from as int),
            read == id_reader(),
            collect(all.take(i - from), read) == Ok::<Seq<u64>, PuzzleError>(ids@),
        decreases rows.len() - i,
    {
        proof {
            assert(all.take(i - from + 1).drop_last() =~= all.take(i - from));
            assert(all.take(i - from + 1).last() == rows@[i as int]@);
        }
        match parse_unsigned_chars(&rows[i], u64::MAX as u128) {
            Some(id) => {
                ids.push(id as u64);
            },
            None => {
                proof {
                    lemma_collect_fails(all, read, i - from + 1);
                }
                return Err(PuzzleError::InvalidNumber);
            },
        }
        i += 1;
    }
    assert(all.take(i - from) =~= all);
    Ok(ids)
}

/// Finds the first empty line of `rows`.
fn find_gap(rows: &Vec<Vec<char>>) -> (gap: usize)
    ensures
        gap == first_empty(views(rows@)),
        gap <= rows@.len(),
{
    let mut gap: usize = 0;
    while gap < rows.len() && rows[gap].len() != 0
        invariant
            gap <= rows@.len(),
            forall|j: int| 0 <= j < gap ==> views(rows@)[j].len() != 0,
        decreases rows.len() - gap,
    {
        assert(views(rows@)[gap as int] == rows@[gap as int]@);
        gap += 1;
    }
    proof {
        if gap < rows@.len() {
            assert(views(rows@)[gap as int] == rows@[gap as int]@);
        }
        lemma_first_empty(views(rows@), gap as int);
    }
    gap
}

/// Reads the spans of `input` and merges them.
pub fn parse_ranges(input: &str) -> (r: Result<Ranges, PuzzleError>)
    ensures
        match r {
            Ok(ranges) => spec_spans(input@) matches Ok(spans) && ranges.wf() && forall|value: u64|
                covered(ranges@, value) <==> covered(spans, value),
            Err(error) => spec_spans(input@) == Err::<Seq<Span>, PuzzleError>(error),
        },
{
    let text = to_chars(input);
    let rows = split_lines(&text);
    let gap = find_gap(&rows);
    match read_spans(&rows, gap) {
        Ok(spans) => Ok(RangesBuilder(spans).build()),
        Err(error) => Err(error),
    }
}

/// Reads the spans of `input`, merged, and the numbers after them.
pub fn parse(input: &str) -> (r: Result<(Ranges, Vec<u64>), PuzzleError>)
    ensures
        match r {
            Ok((ranges, ids)) => {
                &&& spec_spans(input@) matches Ok(spans) && ranges.wf() && forall|value: u64|
                    covered(ranges@, value) <==> covered(spans, value)
                &&& spec_ids(input@) == Ok::<Seq<u64>, PuzzleError>(ids@)
            },
            Err(error) => match spec_spans(input@) {
                Err(first) => error == first,
                Ok(_) => spec_ids(input@) == Err::<Seq<u64>, PuzzleError>(error),
            },
        },
{
    let text = to_chars(input);
    let rows = split_lines(&text);
    let gap = find_gap(&rows);
    let ranges = match read_spans(&rows, gap) {
        Ok(spans) => RangesBuilder(spans).build(),
        Err(error) => {
            return Err(error);
        },
    };
    let ids = if gap < rows.len() {
        match read_ids(&rows, gap + 1) {
            Ok(ids) => ids,
            Err(error) => {
                return Err(error);
            },
        }
    } else {
        Vec::new()
    };
    Ok((ranges, ids))
}

/// How many of `ids` lie in a span of `spans`.
pub open spec fn count_covered(spans: Seq<Span>, ids: Seq<u64>) -> nat
    decreases ids.len(),
{
    if ids.len() == 0 {
        0
    } else {
        count_covered(spans, ids.drop_last()) + (if covered(spans, ids.last()) {
            1nat
        } else {
            0nat
        })
    }
}

/// Counts the numbers of the input that lie in one of its spans.
pub fn a(input: &str) -> (r: Result<usize, PuzzleError>)
    ensures
        match r {
            Ok(count) => spec_spans(input@) matches Ok(spans) && spec_ids(input@) matches Ok(ids) && count
                == count_covered(spans, ids),
            Err(error) => match spec_spans(input@) {
                Err(first) => error == first,
                Ok(_) => spec_ids(input@) == Err::<Seq<u64>, PuzzleError>(error),
            },
        },
{
    let (ranges, ids) = match parse(input) {
        Ok(parsed) => parsed,
        Err(error) => {
            return Err(error);
        },
    };
    let ghost spans = spec_spans(input@)->Ok_0;
    let mut count: usize = 0;
    let mut i: usize = 0;
    assert(ids@.take(0) =~= Seq::<u64>::empty());
    while i < ids.len()
        invariant
            i <= ids@.len(),
            count <= i,
            forall|value: u64| covered(ranges@, value) <==> covered(spans, value),
            count == count_covered(spans, ids@.take(i as int)),
        decreases ids.len() - i,
    {
        assert(ids@.take(i + 1).drop_last() =~= ids@.take(i as int));
        if ranges.contains(&ids[i]) {
            count += 1;
        }
        i += 1;
    }
    assert(ids@.take(i as int) =~= ids@);
    Ok(count)
}

/// Counts the numbers that lie in one of the spans of the input. The count
/// is the sum of the lengths of spans that lie apart and hold together what
/// the spans of the input hold.
pub fn b(input: &str) -> (r: Result<u64, PuzzleError>)
    ensures
        match r {
            Ok(count) => spec_spans(input@) matches Ok(spans) && exists|merged: Seq<Span>|
                proper(merged) && apart(merged) && (forall|value: u64|
                    covered(merged, value) <==> covered(spans, value)) && #[trigger] total_len(merged) == count,
            Err(PuzzleError::Overflow) => spec_spans(input@) matches Ok(spans) && exists|merged: Seq<Span>|
                proper(merged) && apart(merged) && (forall|value: u64|
                    covered(merged, value) <==> covered(spans, value)) && #[trigger] total_len(merged) > u64::MAX,
            Err(error) => spec_spans(input@) == Err::<Seq<Span>, PuzzleError>(error),
        },
{
    let ranges = match parse_ranges(input) {
        Ok(ranges) => ranges,
        Err(PuzzleError::Overflow) => {
            assert(false) by {
                lemma_spans_never_overflow(lines(input@).take(first_empty(lines(input@))));
            }
            return Err(PuzzleError::InvalidInput);
        },
        Err(error) => {
            return Err(error);
        },
    };
    let ghost spans = spec_spans(input@)->Ok_0;
    let merged = ranges.iter();
    let mut count: u64 = 0;
    let mut i: usize = 0;
    assert(merged@.take(0) =~= Seq::<Span>::empty());
    while i < merged.len()
        invariant
            i <= merged@.len(),
            proper(merged@),
            apart(merged@),
            spec_spans(input@) == Ok::<Seq<Span>, PuzzleError>(spans),
            forall|value: u64| covered(merged@, value) <==> covered(spans, value),
            count == total_len(merged@.take(i as int)),
        decreases merged.len() - i,
    {
        let span = merged[i];
        assert(merged@.take(i + 1).drop_last() =~= merged@.take(i as int));
        let len = match (span.end - span.start).checked_add(1) {
            Some(len) => len,
            None => {
                proof {
                    lemma_total_len_grows(merged@, i + 1);
                    assert(total_len(merged@) > u64::MAX);
                }
                return Err(PuzzleError::Overflow);
            },
        };
        count = match count.checked_add(len) {
            Some(sum) => sum,
            None => {
                proof {
                    lemma_total_len_grows(merged@, i + 1);
                    assert(total_len(merged@) > u64::MAX);
                }
                return Err(PuzzleError::Overflow);
            },
        };
        i += 1;
    }
    assert(merged@.take(i as int) =~= merged@);
    assert(total_len(merged@) == count);
    Ok(count)
}

/// More spans never hold fewer numbers.
pub proof fn lemma_total_len_grows(spans: Seq<Span>, n: int)
    requires
        0 <= n <= spans.len(),
    ensures
        total_len(spans.take(n)) <= total_len(spans),
    decreases spans.len() - n,
{
    if n < spans.len() {
        lemma_total_len_grows(spans, n + 1);
        assert(spans.take(n + 1).drop_last() =~= spans.take(n));
    } else {
        assert(spans.take(n) =~= spans);
    }
}

/// Reading spans never fails for want of room in the machine's numbers.
pub proof fn lemma_spans_never_overflow(rows: Seq<Seq<char>>)
    ensures
        collect(rows, span_reader()) != Err::<Seq<Span>, PuzzleError>(PuzzleError::Overflow),
    decreases rows.len(),
{
    if rows.len() > 0 {
        lemma_spans_never_overflow(rows.drop_last());
    }
}

/// The solvers of both parts.
pub fn solution() -> (solution: Solution)
    ensures
        solution.part_a() is Some,
        solution.part_b() is Some,
{
    Solution::new().with_a(|input: &str| -> (r: Result<usize, String>) { shown(a(input)) }).with_b(
        |input: &str| -> (r: Result<u64, String>) { shown(b(input)) },
    )
}

} // verus!
