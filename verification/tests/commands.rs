use advent::get::{get_input, input_file_name, input_file_url, run_command as get_command, GetCli};
use advent::solution::{
    format_failed, format_label, format_solution_result, format_solved, wrap, BoxedOutput, Elapsed, RunError,
    Solutions,
};
use advent::solve::{dispatch, run_command, ParseSolveYearError, SolveCli, SolveYear};
use advent::util::output::Output;

fn cached(year: u32, day: u32) -> Result<String, String> {
    if day == 1 {
        Ok(format!("cached {year}"))
    } else {
        Err("no file".to_string())
    }
}

fn fetched(year: u32, day: u32) -> Result<String, String> {
    if day < 3 {
        Ok(format!("fetched {year}-{day}"))
    } else {
        Err("no network".to_string())
    }
}

fn empty_input(_: u32, _: u32) -> Result<String, String> {
    Ok(String::new())
}

#[test]
fn input_places() {
    assert_eq!(input_file_url(2025, 7), "https://adventofcode.com/2025/day/7/input");
    assert_eq!(input_file_name(2025, 12), "2025-12.txt");
}

#[test]
fn cached_input_comes_first() {
    assert_eq!(get_input(2025, 1, &cached, &fetched), Ok("cached 2025".to_string()));
    assert_eq!(get_input(2025, 2, &cached, &fetched), Ok("fetched 2025-2".to_string()));
    assert_eq!(get_input(2025, 3, &cached, &fetched), Err("no network".to_string()));
}

#[test]
fn get_command_prints_on_request() {
    let quiet = GetCli { print: false, year: 2025, day: 1 };
    assert_eq!(get_command(quiet, &fetched), Ok(None));
    let loud = GetCli { print: true, year: 2025, day: 2 };
    assert_eq!(get_command(loud, &fetched), Ok(Some("fetched 2025-2".to_string())));
    let lost = GetCli { print: true, year: 2025, day: 9 };
    assert_eq!(get_command(lost, &fetched), Err("no network".to_string()));
}

#[test]
fn years_are_read_from_text() {
    assert_eq!(SolveYear::parse("all"), Ok(SolveYear::All));
    assert_eq!(SolveYear::parse("2025"), Ok(SolveYear::Year(2025)));
    assert_eq!(SolveYear::parse("ALL"), Err(ParseSolveYearError));
    assert_eq!(SolveYear::parse("-1"), Err(ParseSolveYearError));
    assert_eq!("2024".parse::<SolveYear>(), Ok(SolveYear::Year(2024)));
    assert_eq!(ParseSolveYearError.message(), "must be \"all\" or a positive integer");
}

#[test]
fn the_library_holds_twelve_days() {
    let solutions = Solutions::new();
    let report = dispatch(&solutions, SolveCli { year: SolveYear::All, day: Some(3) }, &empty_input);
    let keys: Vec<(u32, u32)> = report.entries.iter().map(|entry| (entry.year, entry.day)).collect();
    let expected: Vec<(u32, u32)> = (1..=12).map(|day| (2025, day)).collect();
    assert_eq!(keys, expected);
    assert!(matches!(report.result, Err(RunError::Failed(_))));
    assert!(report.text.starts_with("2025-1 A: 0 ("));
}

#[test]
fn solve_command_dispatches() {
    let day = run_command(SolveCli { year: SolveYear::Year(2025), day: Some(1) }, &empty_input);
    assert!(day.result.is_ok());
    assert_eq!(day.entries.len(), 1);
    let year = run_command(SolveCli { year: SolveYear::Year(2025), day: None }, &empty_input);
    assert_eq!(year.entries.len(), 12);
    let missing = run_command(SolveCli { year: SolveYear::Year(1999), day: None }, &empty_input);
    assert!(matches!(missing.result, Err(RunError::YearNotFound(1999))));
    let absent = run_command(SolveCli { year: SolveYear::Year(2025), day: Some(25) }, &empty_input);
    match absent.result {
        Err(error) => assert_eq!(error.message(), "No solution registered for year 2025, day 25"),
        Ok(()) => panic!("expected an error"),
    }
}

#[test]
fn results_are_laid_out() {
    assert_eq!(format_label(2025, 9, 'B'), "2025-9 B:");
    assert_eq!(format_solved("42", false, "1.5ms"), " 42 (1.5ms)\n");
    assert_eq!(format_solved("ab\ncd\n", true, "2s"), " (2s)\n  ab\n  cd\n");
    assert_eq!(format_solved("", true, "2s"), " (2s)\n");
    assert_eq!(format_failed("bad"), " \x1b[31mbad\x1b[0m\n");
    let failed = Err("worse".to_string());
    assert_eq!(format_solution_result(&failed), " \x1b[31mworse\x1b[0m\n");
    let solved = Ok((BoxedOutput::new(12u8), Elapsed { secs: 1, nanos: 500_000_000 }));
    assert_eq!(format_solution_result(&solved), " 12 (1.5s)\n");
    let lines = Ok((BoxedOutput::new("a\nb".to_string()), Elapsed { secs: 0, nanos: 2_000 }));
    assert_eq!(format_solution_result(&lines), " (2µs)\n  a\n  b\n");
}

#[test]
fn wrapped_solvers_keep_results_and_errors() {
    let double = wrap(|input: &str| -> Result<usize, String> { Ok(input.len() * 2) });
    match double.call("abc") {
        Ok((output, time)) => {
            assert_eq!(output.render(), "6");
            assert!(!output.is_multiline());
            assert!(time.nanos < 1_000_000_000);
        }
        Err(error) => panic!("{error}"),
    }
    let never = wrap(|_: &str| -> Result<u8, String> { Err("never".to_string()) });
    assert_eq!(never.call("abc").err(), Some("never".to_string()));
}
