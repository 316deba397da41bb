//! Solvers behind one uniform interface, the solutions made of them, and the
//! registry that runs them.
use vstd::prelude::*;
use vstd::std_specs::iter::IteratorSpec;
use std::collections::BTreeMap;
use crate::util::order::{
    key_before, lawful, lemma_increasing_keys, lemma_order_keys, lemma_order_u32, precedes, same_rank,
};
use crate::util::output::Output;
use crate::util::vecset::{belongs_at, holds, increasing, SortedVecSet};
use crate::util::style::{Color, Style, StyleDiff};
use crate::util::text::{decimal, lines, push_char, push_chars, push_decimal, push_text, split_lines, to_chars, views};

verus! {

/// A span of time: whole seconds and the nanoseconds beyond them.
#[derive(Debug, Clone, Copy, PartialEq, Eq, Structural)]
pub struct Elapsed {
    pub secs: u64,
    pub nanos: u32,
}

impl Elapsed {
    /// Whether the nanoseconds are less than a second.
    pub open spec fn wf(&self) -> bool {
        self.nanos < 1_000_000_000
    }
}

#[verifier::external_type_specification]
#[verifier::external_body]
pub struct ExInstant(std::time::Instant);

/// How the standard library shows the span of `secs` seconds and `nanos`
/// nanoseconds, `nanos` less than a second, when it is formatted for
/// debugging: a rounded number in the largest fitting unit.
pub uninterp spec fn duration_debug(secs: u64, nanos: u32) -> Seq<char>;

/// The present moment: `std::time::Instant::now`. Nothing is claimed of it.
#[verifier::external_body]
fn clock_start() -> (start: std::time::Instant) {
    std::time::Instant::now()
}

/// The time gone by since `start`: `std::time::Instant::elapsed`, taken
/// apart by `Duration::as_secs` and `Duration::subsec_nanos`. Of the span
/// only this is claimed: the nanoseconds are less than a second.
#[verifier::external_body]
fn clock_elapsed(start: &std::time::Instant) -> (time: Elapsed)
    ensures
        time.wf(),
{
    let time = start.elapsed();
    Elapsed { secs: time.as_secs(), nanos: time.subsec_nanos() }
}

/// Shows `time` as the standard library shows a `std::time::Duration` of
/// that length with `{:?}`. The text is a function of the two numbers
/// alone, named [`duration_debug`].
#[verifier::external_body]
fn format_elapsed(time: &Elapsed) -> (text: String)
    requires
        time.wf(),
    ensures
        text@ == duration_debug(time.secs, time.nanos),
{
    format!("{:?}", std::time::Duration::new(time.secs, time.nanos))
}

/// How many solvers of one run failed: one or two for a single solution,
/// any positive number for a whole run.
#[derive(Debug, Clone, Copy, PartialEq, Eq, Structural)]
pub struct SolutionErrors(pub u32);

impl SolutionErrors {
    /// What is shown for this error: the count, and `solution` in the
    /// singular or the plural.
    pub open spec fn spec_message(&self) -> Seq<char> {
        decimal(self.0 as nat) + (if self.0 > 1 {
            " solutions failed"@
        } else {
            " solution failed"@
        })
    }

    /// What is shown for this error.
    pub fn message(&self) -> (s: String)
        ensures
            s@ == self.spec_message(),
    {
        let mut s = String::new();
        push_decimal(&mut s, self.0 as u128);
        if self.0 > 1 {
            push_text(&mut s, " solutions failed");
        } else {
            push_text(&mut s, " solution failed");
        }
        assert(s@ =~= self.spec_message());
        s
    }
}

/// A value to show, of a type that is no longer seen.
pub struct BoxedOutput {
    output: Box<dyn Output>,
}

/// A value on its way into a box that forgets its type: it shows as the
/// value does.
struct Shown<O: Output> {
    value: O,
}

impl<O: Output> Output for Shown<O> {
    closed spec fn text(&self) -> Seq<char> {
        self.value.text()
    }

    closed spec fn multiline(&self) -> bool {
        self.value.multiline()
    }

    fn render(&self) -> (s: String) {
        self.value.render()
    }

    fn is_multiline(&self) -> (b: bool) {
        self.value.is_multiline()
    }
}

impl BoxedOutput {
    /// Boxes `value`. The box shows as `value` does.
    pub fn new<O: Output + 'static>(value: O) -> (boxed: BoxedOutput)
        ensures
            boxed.text() == value.text(),
            boxed.multiline() == value.multiline(),
    {
        BoxedOutput { output: Box::new(Shown { value }) }
    }
}

impl Output for BoxedOutput {
    closed spec fn text(&self) -> Seq<char> {
        self.output.text()
    }

    closed spec fn multiline(&self) -> bool {
        self.output.multiline()
    }

    fn render(&self) -> (s: String) {
        self.output.render()
    }

    fn is_multiline(&self) -> (b: bool) {
        self.output.is_multiline()
    }
}

/// What a solver hands back: what it found, with the time it took, or the
/// message of its failure.
pub type Solved = Result<(BoxedOutput, Elapsed), String>;

/// The label that stands before the result of part `part` of the puzzle of
/// `day` in `year`.
pub open spec fn label_text(year: u32, day: u32, part: char) -> Seq<char> {
    decimal(year as nat) + seq!['-'] + decimal(day as nat) + seq![' ', part, ':']
}

/// The rows from `from` on, each on a line of its own behind two spaces.
pub open spec fn indented_from(rows: Seq<Seq<char>>, from: int) -> Seq<char>
    decreases rows.len() - from,
{
    if from < 0 || from >= rows.len() {
        Seq::empty()
    } else {
        seq![' ', ' '] + rows[from] + seq!['\n'] + indented_from(rows, from + 1)
    }
}

/// What follows the label of a solver that succeeded. A value of one line
/// stands on the line of the label, with the time behind it in brackets. For
/// a value of several lines the time stands there alone, and the lines of
/// the value follow, each behind two spaces.
pub open spec fn solved_text(value: Seq<char>, multiline: bool, duration: Seq<char>) -> Seq<char> {
    if multiline {
        seq![' ', '('] + duration + seq![')', '\n'] + indented_from(lines(value), 0)
    } else {
        seq![' '] + value + seq![' ', '('] + duration + seq![')', '\n']
    }
}

/// The style that failures are shown in.
pub open spec fn failure_style() -> Style {
    Style::new(Color::Red, Color::Default)
}

/// What follows the label of a solver that failed: the message in red on
/// the line of the label.
pub open spec fn failed_text(message: Seq<char>) -> Seq<char> {
    seq![' '] + failure_style().spec_diff(Style::clear()).escape() + message + Style::clear().spec_diff(
        failure_style(),
    ).escape() + seq!['\n']
}

/// What follows the label for the result `result` of a solver.
pub open spec fn result_text(result: Solved) -> Seq<char> {
    match result {
        Ok((output, time)) => solved_text(
            output.text(),
            output.multiline(),
            duration_debug(time.secs, time.nanos),
        ),
        Err(message) => failed_text(message@),
    }
}

/// Writes the label of part `part` of the puzzle of `day` in `year`.
pub fn format_label(year: u32, day: u32, part: char) -> (s: String)
    ensures
        s@ == label_text(year, day, part),
{
    let mut s = String::new();
    push_decimal(&mut s, year as u128);
    push_char(&mut s, '-');
    push_decimal(&mut s, day as u128);
    push_char(&mut s, ' ');
    push_char(&mut s, part);
    push_char(&mut s, ':');
    assert(s@ =~= label_text(year, day, part));
    s
}

/// Writes what follows the label of a solver that succeeded with `value`
/// after `duration`.
pub fn format_solved(value: &str, multiline: bool, duration: &str) -> (s: String)
    ensures
        s@ == solved_text(value@, multiline, duration@),
{
    let mut s = String::new();
    if multiline {
        push_char(&mut s, ' ');
        push_char(&mut s, '(');
        push_text(&mut s, duration);
        push_char(&mut s, ')');
        push_char(&mut s, '\n');
        let chars = to_chars(value);
        let rows = split_lines(&chars);
        let ghost texts = lines(value@);
        let ghost head = s@;
        let mut i: usize = 0;
        assert(head =~= seq![' ', '('] + duration@ + seq![')', '\n']);
        assert(s@ + indented_from(texts, 0) =~= head + indented_from(texts, 0));
        while i < rows.len()
            invariant
                i <= rows@.len(),
                views(rows@) == texts,
                s@ + indented_from(texts, i as int) == head + indented_from(texts, 0),
            decreases rows.len() - i,
        {
            let ghost before = s@;
            push_char(&mut s, ' ');
            push_char(&mut s, ' ');
            push_chars(&mut s, &rows[i]);
            push_char(&mut s, '\n');
            proof {
                assert(rows@[i as int]@ == texts[i as int]);
                assert(s@ + indented_from(texts, i + 1) =~= before + indented_from(texts, i as int));
            }
            i += 1;
        }
        assert(s@ + indented_from(texts, i as int) =~= s@);
    } else {
        push_char(&mut s, ' ');
        push_text(&mut s, value);
        push_char(&mut s, ' ');
        push_char(&mut s, '(');
        push_text(&mut s, duration);
        push_char(&mut s, ')');
        push_char(&mut s, '\n');
        assert(s@ =~= solved_text(value@, multiline, duration@));
    }
    s
}

/// Writes what follows the label of a solver that failed with `message`.
pub fn format_failed(message: &str) -> (s: String)
    ensures
        s@ == failed_text(message@),
{
    let style = Style::fg(Color::Red);
    let on = style.diff(&Style::clear());
    let off = Style::clear().diff(&style);
    let mut s = String::new();
    push_char(&mut s, ' ');
    on.write_escape(&mut s);
    push_text(&mut s, message);
    off.write_escape(&mut s);
    push_char(&mut s, '\n');
    assert(s@ =~= failed_text(message@));
    s
}

/// Writes what follows the label for the result `result` of a solver.
pub fn format_solution_result(result: &Solved) -> (s: String)
    requires
        result matches Ok(solved) ==> solved.1.wf(),
    ensures
        s@ == result_text(*result),
{
    match result {
        Ok((output, time)) => {
            let duration = format_elapsed(time);
            let value = output.render();
            format_solved(value.as_str(), output.is_multiline(), duration.as_str())
        },
        Err(message) => format_failed(message.as_str()),
    }
}

/// A solver behind the one interface that the registry knows: text in, and
/// out a value to show with the time it took, or a failure.
pub trait Solver {
    /// Whether the solver may hand back `result` for `input`.
    spec fn yields(&self, input: &str, result: Solved) -> bool;

    /// Runs the solver on `input`.
    fn solve(&self, input: &str) -> (result: Solved)
        ensures
            self.yields(input, result),
            result matches Ok(solved) ==> solved.1.wf(),
    ;
}

/// A function from text to a value of type `O`, made into a [`Solver`].
#[verifier::reject_recursive_types(F)]
#[verifier::reject_recursive_types(O)]
pub struct Timed<F, O> where F: Fn(&str) -> Result<O, String> {
    f: F,
}

impl<F, O> Timed<F, O> where F: Fn(&str) -> Result<O, String> {
    /// The function accepts every text.
    #[verifier::type_invariant]
    spec fn total(self) -> bool {
        forall|input: &str| call_requires(self.f, (input,))
    }

    /// The function wrapped.
    pub closed spec fn inner(&self) -> F {
        self.f
    }
}

/// Whether `result` is what becomes of `inner`, the result of a function,
/// when the value is boxed: the same failure, or a value that shows as the
/// same text, with a time.
pub open spec fn erases<O: Output>(inner: Result<O, String>, result: Solved) -> bool {
    match result {
        Ok((output, time)) => inner matches Ok(value) && output.text() == value.text()
            && output.multiline() == value.multiline(),
        Err(message) => inner == Err::<O, String>(message),
    }
}

impl<F, O> Solver for Timed<F, O> where F: Fn(&str) -> Result<O, String>, O: Output + 'static {
    open spec fn yields(&self, input: &str, result: Solved) -> bool {
        exists|inner: Result<O, String>| #[trigger]
            call_ensures(self.inner(), (input,), inner) && erases(inner, result)
    }

    /// Calls the function and measures the time around that call alone. A
    /// failure comes back as it is.
    fn solve(&self, input: &str) -> (result: Solved) {
        proof {
            use_type_invariant(self);
        }
        let start = clock_start();
        let inner = (self.f)(input);
        match inner {
            Ok(value) => {
                let time = clock_elapsed(&start);
                let solved: Solved = Ok((BoxedOutput::new(value), time));
                assert(call_ensures(self.inner(), (input,), inner) && erases(inner, solved));
                solved
            },
            Err(message) => {
                let failed: Solved = Err(message);
                assert(call_ensures(self.inner(), (input,), inner) && erases(inner, failed));
                failed
            },
        }
    }
}

/// A solver whose result type is no longer seen.
pub struct BoxedFn {
    solver: Box<dyn Solver>,
}

impl BoxedFn {
    /// Whether the solver may hand back `result` for `input`.
    pub closed spec fn yields(&self, input: &str, result: Solved) -> bool {
        self.solver.yields(input, result)
    }

    /// Runs the solver on `input`.
    pub fn call(&self, input: &str) -> (result: Solved)
        ensures
            self.yields(input, result),
            result matches Ok(solved) ==> solved.1.wf(),
    {
        self.solver.solve(input)
    }
}

/// Wraps `f` into the uniform interface: the wrapper calls `f`, measures
/// the time of that call, and boxes the value. It hands back nothing that
/// `f` did not give.
pub fn wrap<F: 'static, O: 'static>(f: F) -> (wrapped: BoxedFn) where
    F: Fn(&str) -> Result<O, String>,
    O: Output,

    requires
        forall|input: &str| call_requires(f, (input,)),
    ensures
        forall|input: &str, result: Solved| #[trigger]
            wrapped.yields(input, result) <==> exists|inner: Result<O, String>| #[trigger]
                call_ensures(f, (input,), inner) && erases(inner, result),
{
    let timed: Timed<F, O> = Timed { f };
    let wrapped = BoxedFn { solver: Box::new(timed) };
    assert forall|input: &str, result: Solved| #[trigger]
        wrapped.yields(input, result) <==> exists|inner: Result<O, String>| #[trigger]
            call_ensures(f, (input,), inner) && erases(inner, result) by {
        assert(wrapped.yields(input, result) == timed.yields(input, result));
        assert(timed.inner() == f);
    }
    wrapped
}

/// The solvers of one day: part A, part B, both or neither.
pub struct Solution {
    a: Option<BoxedFn>,
    b: Option<BoxedFn>,
}

/// What running a solution gave.
pub struct SolutionReport {
    /// What the solver of part A handed back, if there is one.
    pub a: Option<Solved>,
    /// What the solver of part B handed back, if there is one.
    pub b: Option<Solved>,
    /// What is to be printed: a line or more for each part that has a
    /// solver, part A first.
    pub text: String,
    /// How many of the solvers failed.
    pub failures: u32,
}

/// What is printed for one part: nothing where it has no solver, else its
/// label and what follows from the result.
pub open spec fn slot_text(year: u32, day: u32, part: char, slot: Option<Solved>) -> Seq<char> {
    match slot {
        None => Seq::empty(),
        Some(result) => label_text(year, day, part) + result_text(result),
    }
}

/// One where the part has a solver that failed, else zero.
pub open spec fn slot_failures(slot: Option<Solved>) -> nat {
    match slot {
        Some(Err(_)) => 1,
        _ => 0,
    }
}

/// Whether `slot` is what running `solver` on `input` may give: nothing
/// where there is no solver, else one of its results.
pub open spec fn slot_ran(solver: Option<BoxedFn>, input: &str, slot: Option<Solved>) -> bool {
    match solver {
        None => slot is None,
        Some(solver) => slot matches Some(result) && solver.yields(input, result) && (result matches Ok(
            solved,
        ) ==> solved.1.wf()),
    }
}

impl SolutionReport {
    /// Success where no solver failed, else the number of those that did.
    pub open spec fn spec_result(&self) -> Result<(), SolutionErrors> {
        if self.failures == 0 {
            Ok(())
        } else {
            Err(SolutionErrors(self.failures))
        }
    }

    /// Success where no solver failed, else the number of those that did.
    pub fn result(&self) -> (r: Result<(), SolutionErrors>)
        ensures
            r == self.spec_result(),
    {
        if self.failures == 0 {
            Ok(())
        } else {
            Err(SolutionErrors(self.failures))
        }
    }
}

impl Default for Solution {
    fn default() -> (solution: Solution)
        ensures
            solution.part_a() is None,
            solution.part_b() is None,
    {
        Solution::new()
    }
}

impl Solution {
    /// The solver of part A.
    pub closed spec fn part_a(&self) -> Option<BoxedFn> {
        self.a
    }

    /// The solver of part B.
    pub closed spec fn part_b(&self) -> Option<BoxedFn> {
        self.b
    }

    /// A solution without solvers. Running it does nothing and succeeds.
    pub fn new() -> (solution: Solution)
        ensures
            solution.part_a() is None,
            solution.part_b() is None,
    {
        Solution { a: None, b: None }
    }

    /// This solution with `a` as the solver of part A.
    pub fn with_a<A: 'static, O: 'static>(self, a: A) -> (solution: Solution) where
        A: Fn(&str) -> Result<O, String>,
        O: Output,

        requires
            forall|input: &str| call_requires(a, (input,)),
        ensures
            solution.part_b() == self.part_b(),
            solution.part_a() matches Some(solver) && forall|input: &str, result: Solved| #[trigger]
                solver.yields(input, result) <==> exists|inner: Result<O, String>| #[trigger]
                    call_ensures(a, (input,), inner) && erases(inner, result),
    {
        Solution { a: Some(wrap(a)), b: self.b }
    }

    /// This solution with `b` as the solver of part B.
    pub fn with_b<B: 'static, O: 'static>(self, b: B) -> (solution: Solution) where
        B: Fn(&str) -> Result<O, String>,
        O: Output,

        requires
            forall|input: &str| call_requires(b, (input,)),
        ensures
            solution.part_a() == self.part_a(),
            solution.part_b() matches Some(solver) && forall|input: &str, result: Solved| #[trigger]
                solver.yields(input, result) <==> exists|inner: Result<O, String>| #[trigger]
                    call_ensures(b, (input,), inner) && erases(inner, result),
    {
        Solution { a: self.a, b: Some(wrap(b)) }
    }

    /// Whether `report` is what running this solution for `day` of `year`
    /// on `input` may give. Each part that has a solver is attempted, part A
    /// before part B, whatever the other did; what is printed is the text
    /// of part A and then that of part B; and the failures are counted.
    pub open spec fn runs(&self, year: u32, day: u32, input: &str, report: SolutionReport) -> bool {
        &&& slot_ran(self.part_a(), input, report.a)
        &&& slot_ran(self.part_b(), input, report.b)
        &&& report.text@ == slot_text(year, day, 'A', report.a) + slot_text(year, day, 'B', report.b)
        &&& report.failures == slot_failures(report.a) + slot_failures(report.b)
    }

    /// Runs the solvers of this solution on `input`, part A first, and
    /// reports what each gave and what is to be printed for it.
    pub fn run(&self, year: u32, day: u32, input: &str) -> (report: SolutionReport)
        ensures
            self.runs(year, day, input, report),
    {
        let mut text = String::new();
        let mut failures: u32 = 0;
        let a = run_slot(&self.a, year, day, 'A', input, &mut text);
        if let Some(Err(_)) = &a {
            failures += 1;
        }
        let b = run_slot(&self.b, year, day, 'B', input, &mut text);
        if let Some(Err(_)) = &b {
            failures += 1;
        }
        assert(text@ =~= slot_text(year, day, 'A', a) + slot_text(year, day, 'B', b));
        SolutionReport { a, b, text, failures }
    }
}

/// Runs one part, if it has a solver, and appends what is printed for it.
fn run_slot(solver: &Option<BoxedFn>, year: u32, day: u32, part: char, input: &str, text: &mut String) -> (slot:
    Option<Solved>)
    ensures
        slot_ran(*solver, input, slot),
        final(text)@ == old(text)@ + slot_text(year, day, part, slot),
{
    match solver {
        Some(solver) => {
            let result = solver.call(input);
            let label = format_label(year, day, part);
            push_text(text, label.as_str());
            let shown = format_solution_result(&result);
            push_text(text, shown.as_str());
            let slot = Some(result);
            assert(text@ =~= old(text)@ + slot_text(year, day, part, slot));
            slot
        },
        None => {
            assert(text@ =~= old(text)@ + slot_text(year, day, part, None));
            None
        },
    }
}

/// A failure of part A neither keeps part B from running nor from being
/// shown: where A fails and B succeeds, exactly one failure is counted, and
/// what is printed ends with the result of B.
pub proof fn lemma_failure_isolated(solution: Solution, year: u32, day: u32, input: &str, report: SolutionReport)
    requires
        solution.runs(year, day, input, report),
        report.a matches Some(Err(_)),
        report.b matches Some(Ok(_)),
    ensures
        solution.part_a() is Some,
        solution.part_b() is Some,
        report.failures == 1,
        report.spec_result() == Err::<(), SolutionErrors>(SolutionErrors(1)),
        report.text@ == label_text(year, day, 'A') + failed_text(report.a->0->Err_0@) + label_text(
            year,
            day,
            'B',
        ) + solved_text(
            report.b->0->Ok_0.0.text(),
            report.b->0->Ok_0.0.multiline(),
            duration_debug(report.b->0->Ok_0.1.secs, report.b->0->Ok_0.1.nanos),
        ),
{
}

/// Why a run ended without success.
pub enum RunError<E> {
    /// No solution is registered for any day of the year asked for.
    YearNotFound(u32),
    /// No solution is registered for the day asked for, given as year and
    /// day.
    SolutionNotFound(u32, u32),
    /// The input of an entry could not be had; the run ended there.
    Fetch(E),
    /// Every entry ran, and so many solvers failed.
    Failed(SolutionErrors),
}

impl<E: Output> RunError<E> {
    /// What is shown for this error.
    pub open spec fn spec_message(&self) -> Seq<char> {
        match self {
            RunError::YearNotFound(year) => "No solutions registed for year "@ + decimal(*year as nat),
            RunError::SolutionNotFound(year, day) => "No solution registered for year "@ + decimal(
                *year as nat,
            ) + ", day "@ + decimal(*day as nat),
            RunError::Fetch(error) => error.text(),
            RunError::Failed(errors) => errors.spec_message(),
        }
    }

    /// What is shown for this error.
    pub fn message(&self) -> (s: String)
        ensures
            s@ == self.spec_message(),
    {
        match self {
            RunError::YearNotFound(year) => {
                let mut s = String::new();
                push_text(&mut s, "No solutions registed for year ");
                push_decimal(&mut s, *year as u128);
                assert(s@ =~= self.spec_message());
                s
            },
            RunError::SolutionNotFound(year, day) => {
                let mut s = String::new();
                push_text(&mut s, "No solution registered for year ");
                push_decimal(&mut s, *year as u128);
                push_text(&mut s, ", day ");
                push_decimal(&mut s, *day as u128);
                assert(s@ =~= self.spec_message());
                s
            },
            RunError::Fetch(error) => error.render(),
            RunError::Failed(errors) => errors.message(),
        }
    }
}

/// What running the solution of one day gave.
pub struct EntryReport {
    pub year: u32,
    pub day: u32,
    pub report: SolutionReport,
}

/// What a run gave: the entries that ran, in the order they ran in, what
/// is to be printed for them, and how the run ended.
pub struct RunReport<E> {
    pub entries: Vec<EntryReport>,
    pub text: String,
    pub result: Result<(), RunError<E>>,
}

/// What is printed for `reports`, one after the other.
pub open spec fn reports_text(reports: Seq<EntryReport>) -> Seq<char>
    decreases reports.len(),
{
    if reports.len() == 0 {
        Seq::empty()
    } else {
        reports_text(reports.drop_last()) + reports.last().report.text@
    }
}

/// How many solvers failed in `reports`.
pub open spec fn total_failures(reports: Seq<EntryReport>) -> nat
    decreases reports.len(),
{
    if reports.len() == 0 {
        0
    } else {
        total_failures(reports.drop_last()) + reports.last().report.failures as nat
    }
}

/// `count` as a 32-bit number, or the largest of them where it is larger.
pub open spec fn capped(count: nat) -> u32 {
    if count > u32::MAX {
        u32::MAX
    } else {
        count as u32
    }
}

/// Whether `entry` is what running `solution`, registered under `key`, may
/// give with the provider `provider`: the provider gave an input for the
/// key, and the solution ran on it.
pub open spec fn entry_ran<P, E>(provider: P, key: (u32, u32), solution: Solution, entry: EntryReport) -> bool
    where P: Fn(u32, u32) -> Result<String, E> {
    &&& entry.year == key.0
    &&& entry.day == key.1
    &&& exists|input: String, text: &str| #[trigger]
        call_ensures(provider, (key.0, key.1), Ok::<String, E>(input)) && text@ == input@
            && #[trigger] solution.runs(key.0, key.1, text, entry.report)
}

/// Whether `report` is what running the entries `selected`, in that order,
/// may give with the provider `provider`. For each entry in turn the input
/// is fetched and the solution run on it. A fetch that fails ends the run
/// there with its error, and no entry after it is attempted. Otherwise all
/// entries run, and the run succeeds exactly where no solver failed.
pub open spec fn ran<P, E>(provider: P, selected: Seq<((u32, u32), Solution)>, report: RunReport<E>) -> bool
    where P: Fn(u32, u32) -> Result<String, E> {
    let done = report.entries@;
    &&& done.len() <= selected.len()
    &&& forall|i: int| 0 <= i < done.len() ==> entry_ran(provider, selected[i].0, selected[i].1, #[trigger] done[i])
    &&& report.text@ == reports_text(done)
    &&& match report.result {
        Ok(()) => done.len() == selected.len() && total_failures(done) == 0,
        Err(RunError::Failed(errors)) => done.len() == selected.len() && total_failures(done) > 0
            && errors.0 == capped(total_failures(done)),
        Err(RunError::Fetch(error)) => done.len() < selected.len() && call_ensures(
            provider,
            (selected[done.len() as int].0.0, selected[done.len() as int].0.1),
            Err::<String, E>(error),
        ),
        Err(_) => false,
    }
}

/// The entries of `selected` as values.
pub open spec fn selection(selected: Seq<((u32, u32), &Solution)>) -> Seq<((u32, u32), Solution)> {
    selected.map_values(|entry: ((u32, u32), &Solution)| (entry.0, *entry.1))
}

/// Runs `entries` in the order given: fetches the input of each from
/// `provider` and runs its solution on it.
pub fn run_entries<P, E>(entries: &Vec<((u32, u32), &Solution)>, provider: &P) -> (report: RunReport<E>) where
    P: Fn(u32, u32) -> Result<String, E>,

    requires
        forall|year: u32, day: u32| call_requires(*provider, (year, day)),
    ensures
        ran(*provider, selection(entries@), report),
{
    let ghost selected = selection(entries@);
    let mut done: Vec<EntryReport> = Vec::new();
    let mut text = String::new();
    let mut error_count: u32 = 0;
    let mut i: usize = 0;
    while i < entries.len()
        invariant
            i <= entries@.len(),
            selected == selection(entries@),
            done@.len() == i,
            forall|year: u32, day: u32| call_requires(*provider, (year, day)),
            forall|j: int| 0 <= j < i ==> entry_ran(*provider, selected[j].0, selected[j].1, #[trigger] done@[j]),
            text@ == reports_text(done@),
            error_count == capped(total_failures(done@)),
        decreases entries.len() - i,
    {
        let key = entries[i].0;
        let solution = entries[i].1;
        assert(selected[i as int] == (key, *solution));
        let input = match provider(key.0, key.1) {
            Ok(input) => input,
            Err(error) => {
                return RunReport { entries: done, text, result: Err(RunError::Fetch(error)) };
            },
        };
        let given = input.as_str();
        let report = solution.run(key.0, key.1, given);
        let ghost before = done@;
        push_text(&mut text, report.text.as_str());
        error_count = error_count.saturating_add(report.failures);
        let entry = EntryReport { year: key.0, day: key.1, report };
        proof {
            assert(call_ensures(*provider, (key.0, key.1), Ok::<String, E>(input)) && given@ == input@
                && solution.runs(key.0, key.1, given, entry.report));
            assert(entry_ran(*provider, key, *solution, entry));
        }
        done.push(entry);
        proof {
            assert(done@.drop_last() =~= before);
            assert(done@.last() == entry);
        }
        i += 1;
    }
    let result = if error_count == 0 {
        Ok(())
    } else {
        Err(RunError::Failed(SolutionErrors(error_count)))
    };
    RunReport { entries: done, text, result }
}

/// The registry: the solution of each registered day, by year and day,
/// and for each year the days registered under it.
pub struct Solutions {
    entries: BTreeMap<(u32, u32), Solution>,
    years: BTreeMap<u32, SortedVecSet<u32>>,
}

impl Default for Solutions {
    fn default() -> (solutions: Solutions)
        ensures
            solutions.wf(),
            solutions.registered().dom() == crate::y2025::days(),
    {
        Solutions::new()
    }
}

impl Solutions {
    /// The solutions by year and day.
    pub closed spec fn registered(&self) -> Map<(u32, u32), Solution> {
        self.entries@
    }

    /// The days registered under `year` in ascending order, if there are
    /// any.
    pub closed spec fn days(&self, year: u32) -> Option<Seq<u32>> {
        if self.years@.contains_key(year) {
            Some(self.years@[year]@)
        } else {
            None
        }
    }

    /// The index of days and the solutions agree: a day stands under a
    /// year exactly where the two have a solution. The days of a year are
    /// in ascending order.
    pub closed spec fn wf(&self) -> bool {
        &&& forall|year: u32| #[trigger] self.years@.contains_key(year) ==> increasing(self.years@[year]@)
        &&& forall|year: u32, day: u32| #[trigger]
            self.entries@.contains_key((year, day)) <==> self.years@.contains_key(year)
                && self.years@[year]@.contains(day)
    }

    /// What the index says of a year: its days are in strictly ascending
    /// order, and are those for which the year has a solution. A year
    /// without solutions has no list of days.
    pub proof fn lemma_days(&self, year: u32)
        requires
            self.wf(),
        ensures
            match self.days(year) {
                Some(days) => {
                    &&& forall|i: int, j: int| 0 <= i < j < days.len() ==> days[i] < days[j]
                    &&& forall|day: u32| #[trigger]
                        days.contains(day) <==> self.registered().contains_key((year, day))
                },
                None => forall|day: u32| !#[trigger] self.registered().contains_key((year, day)),
            },
    {
        lemma_order_u32();
        match self.days(year) {
            Some(days) => {
                assert(self.years@.contains_key(year));
                assert forall|i: int, j: int| 0 <= i < j < days.len() implies days[i] < days[j] by {
                    assert(precedes(days[i], days[j]));
                }
            },
            None => {},
        }
    }

    /// The registry of every solution that this library holds.
    pub fn new() -> (solutions: Solutions)
        ensures
            solutions.wf(),
            solutions.registered().dom() == crate::y2025::days(),
    {
        let mut solutions = Solutions::empty();
        crate::y2025::register(&mut solutions);
        assert(solutions.registered().dom() =~= crate::y2025::days());
        solutions
    }

    /// The registry without any solution.
    pub fn empty() -> (solutions: Solutions)
        ensures
            solutions.wf(),
            solutions.registered() == Map::<(u32, u32), Solution>::empty(),
            forall|year: u32| solutions.days(year) is None,
    {
        Solutions { entries: BTreeMap::new(), years: BTreeMap::new() }
    }

    /// Registers `solution` for `day` of `year`, in place of any solution
    /// registered there before.
    pub fn register(&mut self, year: u32, day: u32, solution: Solution)
        requires
            old(self).wf(),
        ensures
            final(self).wf(),
            final(self).registered() == old(self).registered().insert((year, day), solution),
            forall|other: u32| other != year ==> final(self).days(other) == old(self).days(other),
            final(self).days(year) is Some,
    {
        proof {
            lemma_order_u32();
            lemma_order_keys();
        }
        let ghost before = *self;
        self.entries.insert((year, day), solution);
        let mut days = match self.years.remove(&year) {
            Some(days) => days,
            None => SortedVecSet::with_capacity(25),
        };
        let ghost listed = days@;
        proof {
            if before.years@.contains_key(year) {
                assert(listed == before.years@[year]@);
            }
        }
        let added = days.insert(day);
        proof {
            assert forall|other: u32| #[trigger] days@.contains(other) <==> (listed.contains(other) || other
                == day) by {
                if added {
                    let index = choose|index: int|
                        0 <= index <= listed.len() && #[trigger] listed.insert(index, day) == days@;
                    let after = listed.insert(index, day);
                    if listed.contains(other) {
                        let at = choose|at: int| 0 <= at < listed.len() && listed[at] == other;
                        if at < index {
                            assert(after[at] == other);
                        } else {
                            assert(after[at + 1] == other);
                        }
                    }
                    if other == day {
                        assert(after[index] == other);
                    }
                    if after.contains(other) {
                        let at = choose|at: int| 0 <= at < after.len() && after[at] == other;
                        if at < index {
                            assert(listed[at] == other);
                        } else if at > index {
                            assert(listed[at - 1] == other);
                        }
                    }
                } else {
                    assert(holds(listed, day));
                    let at = choose|at: int| 0 <= at < listed.len() && same_rank(#[trigger] listed[at], day);
                    assert(listed[at] == day);
                }
            }
        }
        self.years.insert(year, days);
        proof {
            assert forall|y: u32, d: u32| #[trigger]
                self.entries@.contains_key((y, d)) <==> self.years@.contains_key(y) && self.years@[y]@.contains(
                    d,
                ) by {
                if y != year {
                    assert(before.entries@.contains_key((y, d)) <==> before.years@.contains_key(y)
                        && before.years@[y]@.contains(d));
                } else {
                    if before.years@.contains_key(year) {
                        assert(before.entries@.contains_key((y, d)) <==> before.years@.contains_key(y)
                            && before.years@[y]@.contains(d));
                    } else {
                        assert(!before.entries@.contains_key((y, d)));
                    }
                }
            }
            assert forall|y: u32| #[trigger] self.years@.contains_key(y) implies increasing(self.years@[y]@) by {
                if y != year {
                    assert(before.years@.contains_key(y));
                }
            }
        }
    }

    /// Whether `selected` is every registered solution with its key, once
    /// each, in ascending order of year and then of day.
    pub open spec fn lists_all(&self, selected: Seq<((u32, u32), Solution)>) -> bool {
        &&& forall|i: int, j: int|
            0 <= i < j < selected.len() ==> key_before(#[trigger] selected[i].0, #[trigger] selected[j].0)
        &&& forall|i: int|
            0 <= i < selected.len() ==> self.registered().contains_key(#[trigger] selected[i].0)
                && self.registered()[selected[i].0] == selected[i].1
        &&& forall|key: (u32, u32)| #[trigger]
            self.registered().contains_key(key) ==> exists|i: int|
                0 <= i < selected.len() && #[trigger] selected[i].0 == key
    }

    /// The solutions registered for the days of `year`, in the order of
    /// `days`.
    pub open spec fn of_year(&self, year: u32, days: Seq<u32>) -> Seq<((u32, u32), Solution)> {
        Seq::new(days.len(), |i: int| ((year, days[i]), self.registered()[(year, days[i])]))
    }

    /// Every registered solution with its key, in ascending order of year
    /// and then of day.
    fn sorted_entries(&self) -> (selected: Vec<((u32, u32), &Solution)>)
        ensures
            self.lists_all(selection(selected@)),
    {
        broadcast use vstd::laws_cmp::group_laws_cmp;

        let mut selected: Vec<((u32, u32), &Solution)> = Vec::new();
        let ghost all = self.entries.iter().remaining();
        let ghost keys = all.map_values(|kv: (&(u32, u32), &Solution)| *kv.0);
        for entry in it: self.entries.iter()
            invariant
                it.seq() == all,
                selected@.len() == it.index(),
                forall|i: int| 0 <= i < it.index() ==> #[trigger] selected@[i] == (*all[i].0, all[i].1),
        {
            selected.push((*entry.0, entry.1));
        }
        proof {
            assert(selected@.len() == all.len());
            lemma_increasing_keys(keys);
        }
        proof {
            let listed = selection(selected@);
            assert forall|i: int, j: int| 0 <= i < j < listed.len() implies key_before(
                #[trigger] listed[i].0,
                #[trigger] listed[j].0,
            ) by {
                assert(keys[i] == listed[i].0);
                assert(keys[j] == listed[j].0);
            }
            assert forall|i: int| 0 <= i < listed.len() implies self.registered().contains_key(
                #[trigger] listed[i].0,
            ) && self.registered()[listed[i].0] == listed[i].1 by {
                assert(self.entries@.contains_key(*all[i].0));
            }
            assert forall|key: (u32, u32)| #[trigger] self.registered().contains_key(key) implies exists|i: int|
                0 <= i < listed.len() && #[trigger] listed[i].0 == key by {
                assert(all.contains((&key, &self.entries@[key])));
                let i = choose|i: int| 0 <= i < all.len() && all[i] == (&key, &self.entries@[key]);
                assert(listed[i].0 == key);
            }
        }
        selected
    }

    /// Runs every registered solution, in ascending order of year and then
    /// of day, on the input that `provider` gives for it.
    pub fn run_all<P, E>(&self, provider: &P) -> (report: RunReport<E>) where P: Fn(u32, u32) -> Result<String, E>
        requires
            self.wf(),
            forall|year: u32, day: u32| call_requires(*provider, (year, day)),
        ensures
            exists|selected: Seq<((u32, u32), Solution)>| #[trigger]
                self.lists_all(selected) && ran(*provider, selected, report),
    {
        let entries = self.sorted_entries();
        let report = run_entries(&entries, provider);
        assert(self.lists_all(selection(entries@)) && ran(*provider, selection(entries@), report));
        report
    }

    /// Runs the solutions of `year`, in ascending order of day. A year
    /// without solutions is an error, and nothing runs.
    pub fn run_year<P, E>(&self, year: u32, provider: &P) -> (report: RunReport<E>) where
        P: Fn(u32, u32) -> Result<String, E>,

        requires
            self.wf(),
            forall|year: u32, day: u32| call_requires(*provider, (year, day)),
        ensures
            match self.days(year) {
                Some(days) => ran(*provider, self.of_year(year, days), report),
                None => {
                    &&& report.result == Err::<(), RunError<E>>(RunError::YearNotFound(year))
                    &&& report.entries@.len() == 0
                    &&& report.text@.len() == 0
                },
            },
    {
        proof {
            lemma_order_u32();
            lemma_order_keys();
        }
        let days = match self.years.get(&year) {
            Some(days) => days.as_slice(),
            None => {
                return RunReport {
                    entries: Vec::new(),
                    text: String::new(),
                    result: Err(RunError::YearNotFound(year)),
                };
            },
        };
        let mut entries: Vec<((u32, u32), &Solution)> = Vec::new();
        let mut i: usize = 0;
        while i < days.len()
            invariant
                i <= days@.len(),
                self.wf(),
                self.days(year) == Some(days@),
                entries@.len() == i,
                forall|j: int|
                    0 <= j < i ==> #[trigger] selection(entries@)[j] == self.of_year(year, days@)[j],
            decreases days.len() - i,
        {
            let key = (year, days[i]);
            assert(days@.contains(days@[i as int]));
            assert(self.entries@.contains_key(key));
            let ghost before = entries@;
            match self.entries.get(&key) {
                Some(solution) => {
                    entries.push((key, solution));
                    assert(*solution == self.registered()[key]);
                },
                None => {
                    assert(false);
                },
            }
            proof {
                assert forall|j: int| 0 <= j < i + 1 implies #[trigger] selection(entries@)[j] == self.of_year(
                    year,
                    days@,
                )[j] by {
                    if j < i {
                        assert(selection(entries@)[j] == selection(before)[j]);
                    }
                }
            }
            i += 1;
        }
        assert(selection(entries@) =~= self.of_year(year, days@));
        run_entries(&entries, provider)
    }

    /// Runs the solution of `day` in `year`. A day without solution is an
    /// error, and nothing runs.
    pub fn run_day<P, E>(&self, year: u32, day: u32, provider: &P) -> (report: RunReport<E>) where
        P: Fn(u32, u32) -> Result<String, E>,

        requires
            forall|year: u32, day: u32| call_requires(*provider, (year, day)),
        ensures
            if self.registered().contains_key((year, day)) {
                ran(*provider, seq![((year, day), self.registered()[(year, day)])], report)
            } else {
                &&& report.result == Err::<(), RunError<E>>(RunError::SolutionNotFound(year, day))
                &&& report.entries@.len() == 0
                &&& report.text@.len() == 0
            },
    {
        proof {
            lemma_order_keys();
        }
        let key = (year, day);
        let solution = match self.entries.get(&key) {
            Some(solution) => solution,
            None => {
                return RunReport {
                    entries: Vec::new(),
                    text: String::new(),
                    result: Err(RunError::SolutionNotFound(year, day)),
                };
            },
        };
        let mut entries: Vec<((u32, u32), &Solution)> = Vec::new();
        entries.push((key, solution));
        assert(selection(entries@) =~= seq![((year, day), self.registered()[(year, day)])]);
        run_entries(&entries, provider)
    }
}

} // verus!
