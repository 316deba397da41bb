//! Where the input of a puzzle is found, and how a cached copy and the
//! network are tried in turn.
use vstd::prelude::*;
use crate::util::text::{decimal, push_decimal, push_text};

verus! {

/// What the command that fetches an input is asked for.
#[derive(Debug, Clone, Copy, PartialEq, Eq, Structural)]
pub struct GetCli {
    /// Whether the input is to be printed.
    pub print: bool,
    pub year: u32,
    pub day: u32,
}

/// The address of the input of `day` in `year`.
pub open spec fn spec_input_file_url(year: u32, day: u32) -> Seq<char> {
    "https://adventofcode.com"@ + "/"@ + decimal(year as nat) + "/day/"@ + decimal(day as nat) + "/input"@
}

/// The address of the input of `day` in `year`.
pub fn input_file_url(year: u32, day: u32) -> (url: String)
    ensures
        url@ == spec_input_file_url(year, day),
{
    let mut url = String::new();
    push_text(&mut url, "https://adventofcode.com");
    push_text(&mut url, "/");
    push_decimal(&mut url, year as u128);
    push_text(&mut url, "/day/");
    push_decimal(&mut url, day as u128);
    push_text(&mut url, "/input");
    assert(url@ =~= spec_input_file_url(year, day));
    url
}

/// The name of the file that caches the input of `day` in `year`.
pub open spec fn spec_input_file_name(year: u32, day: u32) -> Seq<char> {
    decimal(year as nat) + "-"@ + decimal(day as nat) + ".txt"@
}

/// The name of the file that caches the input of `day` in `year`.
pub fn input_file_name(year: u32, day: u32) -> (name: String)
    ensures
        name@ == spec_input_file_name(year, day),
{
    let mut name = String::new();
    push_decimal(&mut name, year as u128);
    push_text(&mut name, "-");
    push_decimal(&mut name, day as u128);
    push_text(&mut name, ".txt");
    assert(name@ =~= spec_input_file_name(year, day));
    name
}

/// The input of `day` in `year`: the cached copy that `read` gives, or,
/// where it gives none, whatever `fetch` gives. Why reading failed is
/// forgotten.
pub fn get_input<R, F, E>(year: u32, day: u32, read: &R, fetch: &F) -> (input: Result<String, E>) where
    R: Fn(u32, u32) -> Result<String, E>,
    F: Fn(u32, u32) -> Result<String, E>,

    requires
        call_requires(*read, (year, day)),
        call_requires(*fetch, (year, day)),
    ensures
        exists|cached: Result<String, E>| #[trigger]
            call_ensures(*read, (year, day), cached) && match cached {
                Ok(contents) => input == Ok::<String, E>(contents),
                Err(_) => call_ensures(*fetch, (year, day), input),
            },
{
    let cached = read(year, day);
    match cached {
        Ok(contents) => {
            let input = Ok(contents);
            assert(call_ensures(*read, (year, day), cached) && input == Ok::<String, E>(contents));
            input
        },
        Err(_) => {
            let input = fetch(year, day);
            assert(call_ensures(*read, (year, day), cached) && call_ensures(*fetch, (year, day), input));
            input
        },
    }
}

/// Fetches the input that `cli` asks for with `fetch` and hands back what
/// is to be printed: the input where printing was asked for, else nothing.
pub fn run_command<F, E>(cli: GetCli, fetch: &F) -> (printed: Result<Option<String>, E>) where
    F: Fn(u32, u32) -> Result<String, E>,

    requires
        call_requires(*fetch, (cli.year, cli.day)),
    ensures
        exists|fetched: Result<String, E>| #[trigger]
            call_ensures(*fetch, (cli.year, cli.day), fetched) && printed == (match fetched {
                Ok(input) => Ok::<Option<String>, E>(
                    if cli.print {
                        Some(input)
                    } else {
                        None
                    },
                ),
                Err(error) => Err::<Option<String>, E>(error),
            }),
{
    let fetched = fetch(cli.year, cli.day);
    match fetched {
        Ok(input) => {
            let printed = if cli.print {
                Ok(Some(input))
            } else {
                Ok(None)
            };
            assert(call_ensures(*fetch, (cli.year, cli.day), fetched) && printed == Ok::<Option<String>, E>(
                if cli.print {
                    Some(input)
                } else {
                    None
                },
            ));
            printed
        },
        Err(error) => {
            let printed = Err(error);
            assert(call_ensures(*fetch, (cli.year, cli.day), fetched) && printed == Err::<Option<String>, E>(
                error,
            ));
            printed
        },
    }
}

} // verus!
