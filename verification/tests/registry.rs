use advent::solution::{RunError, Solution, SolutionErrors, Solutions};

fn provider(year: u32, day: u32) -> Result<String, String> {
    if year == 2025 {
        Ok(format!("input {day}"))
    } else {
        Err(format!("no input for {year}"))
    }
}

fn forty_two(_: &str) -> Result<u64, String> {
    Ok(42)
}

fn seven(_: &str) -> Result<String, String> {
    Ok("7".to_string())
}

fn broken(_: &str) -> Result<u64, String> {
    Err("boom".to_string())
}

fn echo(input: &str) -> Result<String, String> {
    Ok(input.to_string())
}

#[test]
fn run_day_prints_both_parts() {
    let mut solutions = Solutions::empty();
    solutions.register(2025, 1, Solution::new().with_a(forty_two).with_b(seven));
    let report = solutions.run_day(2025, 1, &provider);
    assert!(report.result.is_ok());
    let lines: Vec<&str> = report.text.lines().collect();
    assert_eq!(lines.len(), 2);
    assert!(lines[0].starts_with("2025-1 A: 42 ("));
    assert!(lines[0].ends_with(")"));
    assert!(lines[1].starts_with("2025-1 B: 7 ("));
    assert!(lines[1].ends_with(")"));
    assert_eq!(report.entries.len(), 1);
    assert_eq!(report.entries[0].year, 2025);
    assert_eq!(report.entries[0].day, 1);
}

#[test]
fn run_day_of_unregistered_year_fails_and_prints_nothing() {
    let mut solutions = Solutions::empty();
    solutions.register(2025, 1, Solution::new().with_a(forty_two));
    let report = solutions.run_day(2099, 1, &provider);
    assert!(matches!(report.result, Err(RunError::SolutionNotFound(2099, 1))));
    assert_eq!(report.text, "");
    assert!(report.entries.is_empty());
}

#[test]
fn run_year_of_unregistered_year_fails() {
    let solutions = Solutions::empty();
    let report = solutions.run_year(2024, &provider);
    assert!(matches!(report.result, Err(RunError::YearNotFound(2024))));
    assert_eq!(report.text, "");
    let error = report.result.unwrap_err();
    assert_eq!(error.message(), "No solutions registed for year 2024");
}

#[test]
fn run_year_runs_days_in_ascending_order() {
    let mut solutions = Solutions::empty();
    solutions.register(2025, 7, Solution::new().with_a(echo));
    solutions.register(2025, 2, Solution::new().with_a(echo));
    solutions.register(2024, 3, Solution::new().with_a(echo));
    solutions.register(2025, 5, Solution::new().with_a(echo));
    let report = solutions.run_year(2025, &provider);
    assert!(report.result.is_ok());
    let days: Vec<(u32, u32)> = report.entries.iter().map(|e| (e.year, e.day)).collect();
    assert_eq!(days, vec![(2025, 2), (2025, 5), (2025, 7)]);
    let lines: Vec<&str> = report.text.lines().collect();
    assert!(lines[0].starts_with("2025-2 A: input 2 ("));
    assert!(lines[1].starts_with("2025-5 A: input 5 ("));
    assert!(lines[2].starts_with("2025-7 A: input 7 ("));
}

#[test]
fn run_all_runs_keys_in_ascending_order() {
    let mut solutions = Solutions::empty();
    solutions.register(2025, 7, Solution::new().with_a(forty_two));
    solutions.register(2025, 2, Solution::new().with_a(forty_two));
    solutions.register(2025, 11, Solution::new().with_a(forty_two));
    let report = solutions.run_all(&provider);
    assert!(report.result.is_ok());
    let keys: Vec<(u32, u32)> = report.entries.iter().map(|e| (e.year, e.day)).collect();
    assert_eq!(keys, vec![(2025, 2), (2025, 7), (2025, 11)]);
}

#[test]
fn fetch_error_aborts_the_run() {
    let mut solutions = Solutions::empty();
    solutions.register(2025, 1, Solution::new().with_a(forty_two));
    solutions.register(2026, 1, Solution::new().with_a(forty_two));
    solutions.register(2027, 1, Solution::new().with_a(forty_two));
    let report = solutions.run_all(&provider);
    match report.result {
        Err(RunError::Fetch(message)) => assert_eq!(message, "no input for 2026"),
        _ => panic!("expected a fetch error"),
    }
    assert_eq!(report.entries.len(), 1);
    assert!(report.text.starts_with("2025-1 A: 42 ("));
}

#[test]
fn failing_part_does_not_stop_the_other() {
    let solution = Solution::new().with_a(broken).with_b(seven);
    let report = solution.run(2025, 3, "text");
    assert_eq!(report.failures, 1);
    assert_eq!(report.result(), Err(SolutionErrors(1)));
    assert!(matches!(report.a, Some(Err(_))));
    assert!(matches!(report.b, Some(Ok(_))));
    let lines: Vec<&str> = report.text.lines().collect();
    assert_eq!(lines[0], "2025-3 A: \x1b[31mboom\x1b[0m");
    assert!(lines[1].starts_with("2025-3 B: 7 ("));
}

#[test]
fn failures_are_counted_across_entries() {
    let mut solutions = Solutions::empty();
    solutions.register(2025, 1, Solution::new().with_a(broken).with_b(broken));
    solutions.register(2025, 2, Solution::new().with_a(broken).with_b(seven));
    let report = solutions.run_all(&provider);
    match report.result {
        Err(RunError::Failed(errors)) => {
            assert_eq!(errors, SolutionErrors(3));
            assert_eq!(errors.message(), "3 solutions failed");
        }
        _ => panic!("expected failures"),
    }
    assert_eq!(SolutionErrors(1).message(), "1 solution failed");
}

#[test]
fn registering_again_replaces_the_solution() {
    let mut solutions = Solutions::empty();
    solutions.register(2025, 1, Solution::new().with_a(broken));
    solutions.register(2025, 1, Solution::new().with_a(forty_two));
    let report = solutions.run_year(2025, &provider);
    assert!(report.result.is_ok());
    assert_eq!(report.entries.len(), 1);
}

#[test]
fn empty_solution_succeeds_and_prints_nothing() {
    let report = Solution::new().run(2025, 1, "x");
    assert_eq!(report.failures, 0);
    assert_eq!(report.text, "");
    assert!(report.a.is_none() && report.b.is_none());
}
