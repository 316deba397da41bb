//! The command that runs solutions: all of them, those of a year, or that
//! of one day.
use vstd::prelude::*;
use std::str::FromStr;
use crate::solution::{ran, RunError, RunReport, Solutions};
use crate::util::parse::{parse_u32, parse_unsigned};
use crate::util::text::same_text;

verus! {

/// Which years to run.
#[derive(Debug, Clone, Copy, PartialEq, Eq, Structural)]
pub enum SolveYear {
    All,
    Year(u32),
}

/// The text is neither `all` nor the numeral of a year.
#[derive(Debug, Clone, Copy, PartialEq, Eq, Structural)]
pub struct ParseSolveYearError;

impl ParseSolveYearError {
    /// What is shown for this error.
    pub fn message(&self) -> (s: String)
        ensures
            s@ == "must be \"all\" or a positive integer"@,
    {
        "must be \"all\" or a positive integer".to_owned()
    }
}

impl SolveYear {
    /// What `s` asks for: the year that it is the numeral of, or every year
    /// where it is the word `all`.
    pub open spec fn spec_parse(s: Seq<char>) -> Result<SolveYear, ParseSolveYearError> {
        match parse_unsigned(s, u32::MAX as nat) {
            Some(year) => Ok(SolveYear::Year(year as u32)),
            None => if s == "all"@ {
                Ok(SolveYear::All)
            } else {
                Err(ParseSolveYearError)
            },
        }
    }

    /// Reads which years to run from `s`.
    pub fn parse(s: &str) -> (r: Result<SolveYear, ParseSolveYearError>)
        ensures
            r == SolveYear::spec_parse(s@),
    {
        match parse_u32(s) {
            Some(year) => Ok(SolveYear::Year(year)),
            None => if same_text(s, "all") {
                Ok(SolveYear::All)
            } else {
                Err(ParseSolveYearError)
            },
        }
    }
}

impl FromStr for SolveYear {
    type Err = ParseSolveYearError;

    /// Reads which years to run from `s`, as [`SolveYear::parse`] does.
    fn from_str(s: &str) -> (r: Result<SolveYear, ParseSolveYearError>)
        ensures
            r == SolveYear::spec_parse(s@),
    {
        SolveYear::parse(s)
    }
}

/// What the command that runs solutions is asked for.
#[derive(Debug, Clone, Copy, PartialEq, Eq, Structural)]
pub struct SolveCli {
    pub year: SolveYear,
    /// The day to run; with a year and no day, every day of the year runs.
    pub day: Option<u32>,
}

/// Whether `report` is what running, of `solutions`, what `cli` asks for
/// may give: everything, a year, or a day. A day given with `all` is not
/// looked at.
pub open spec fn answers<P, E>(solutions: Solutions, cli: SolveCli, provider: P, report: RunReport<E>) -> bool
    where P: Fn(u32, u32) -> Result<String, E> {
    match (cli.year, cli.day) {
        (SolveYear::All, _) => exists|selected: Seq<((u32, u32), crate::solution::Solution)>| #[trigger]
            solutions.lists_all(selected) && ran(provider, selected, report),
        (SolveYear::Year(year), Some(day)) => if solutions.registered().contains_key((year, day)) {
            ran(provider, seq![((year, day), solutions.registered()[(year, day)])], report)
        } else {
            &&& report.result == Err::<(), RunError<E>>(RunError::SolutionNotFound(year, day))
            &&& report.entries@.len() == 0
            &&& report.text@.len() == 0
        },
        (SolveYear::Year(year), None) => match solutions.days(year) {
            Some(days) => ran(provider, solutions.of_year(year, days), report),
            None => {
                &&& report.result == Err::<(), RunError<E>>(RunError::YearNotFound(year))
                &&& report.entries@.len() == 0
                &&& report.text@.len() == 0
            },
        },
    }
}

/// Runs of `solutions` what `cli` asks for.
pub fn dispatch<P, E>(solutions: &Solutions, cli: SolveCli, provider: &P) -> (report: RunReport<E>) where
    P: Fn(u32, u32) -> Result<String, E>,

    requires
        solutions.wf(),
        forall|year: u32, day: u32| call_requires(*provider, (year, day)),
    ensures
        answers(*solutions, cli, *provider, report),
{
    match (cli.year, cli.day) {
        (SolveYear::All, _) => solutions.run_all(provider),
        (SolveYear::Year(year), Some(day)) => solutions.run_day(year, day, provider),
        (SolveYear::Year(year), None) => solutions.run_year(year, provider),
    }
}

/// Runs what `cli` asks for of the solutions that this library holds, on
/// the inputs that `provider` gives.
pub fn run_command<P, E>(cli: SolveCli, provider: &P) -> (report: RunReport<E>) where
    P: Fn(u32, u32) -> Result<String, E>,

    requires
        forall|year: u32, day: u32| call_requires(*provider, (year, day)),
    ensures
        exists|solutions: Solutions| #[trigger]
            answers(solutions, cli, *provider, report) && solutions.wf() && solutions.registered().dom()
                == crate::y2025::days(),
{
    let solutions = Solutions::default();
    let report = dispatch(&solutions, cli, provider);
    assert(answers(solutions, cli, *provider, report) && solutions.wf() && solutions.registered().dom()
        == crate::y2025::days());
    report
}

} // verus!
