//! The command line.
use vstd::prelude::*;
use crate::fold::lower_of;
use crate::model::same_text;
use crate::text::{chars_of, starts_with, strings_view};
use crate::theme::ThemeMode;

verus! {

/// What the command line asks for.
#[derive(Debug)]
pub struct Args {
    pub base_branch: Option<String>,
    pub theme: Option<ThemeMode>,
}

/// A command line that cannot be followed.
#[derive(Debug)]
pub enum ArgsError {
    /// `--base` without a branch name.
    MissingBase,
    /// `--theme` without a value.
    MissingTheme,
    /// A theme other than `light` or `dark`.
    InvalidTheme(String),
    /// An option that is not known.
    UnknownOption(String),
    /// A second positional argument.
    UnexpectedArgument(String),
}

/// What to do.
#[derive(Debug)]
pub enum Invocation {
    Run(Args),
    Help,
}

/// The outcome of reading the command line, as plain values.
pub enum ArgsOutcome {
    Run { base: Option<Seq<char>>, theme: Option<ThemeMode> },
    Help,
    MissingBase,
    MissingTheme,
    InvalidTheme(Seq<char>),
    UnknownOption(Seq<char>),
    UnexpectedArgument(Seq<char>),
}

pub open spec fn outcome_view(r: Result<Invocation, ArgsError>) -> ArgsOutcome {
    match r {
        Ok(Invocation::Run(a)) => ArgsOutcome::Run {
            base: match a.base_branch {
                Some(b) => Some(b@),
                None => None,
            },
            theme: a.theme,
        },
        Ok(Invocation::Help) => ArgsOutcome::Help,
        Err(ArgsError::MissingBase) => ArgsOutcome::MissingBase,
        Err(ArgsError::MissingTheme) => ArgsOutcome::MissingTheme,
        Err(ArgsError::InvalidTheme(s)) => ArgsOutcome::InvalidTheme(s@),
        Err(ArgsError::UnknownOption(s)) => ArgsOutcome::UnknownOption(s@),
        Err(ArgsError::UnexpectedArgument(s)) => ArgsOutcome::UnexpectedArgument(s@),
    }
}

/// Reads the arguments from `i` on, with the base and theme read so far.
pub open spec fn read_args(
    args: Seq<Seq<char>>,
    i: int,
    base: Option<Seq<char>>,
    theme: Option<ThemeMode>,
) -> ArgsOutcome
    decreases args.len() - i,
{
    if i < 0 || i >= args.len() {
        ArgsOutcome::Run { base, theme }
    } else {
        let a = args[i];
        if a == "-h"@ || a == "--help"@ {
            ArgsOutcome::Help
        } else if a == "-b"@ || a == "--base"@ {
            if i + 1 >= args.len() {
                ArgsOutcome::MissingBase
            } else {
                read_args(args, i + 2, Some(args[i + 1]), theme)
            }
        } else if a == "-t"@ || a == "--theme"@ {
            if i + 1 >= args.len() {
                ArgsOutcome::MissingTheme
            } else {
                match ThemeMode::spec_from_lowercase(lower_of(args[i + 1])) {
                    Some(m) => read_args(args, i + 2, base, Some(m)),
                    None => ArgsOutcome::InvalidTheme(args[i + 1]),
                }
            }
        } else if starts_with(a, "-"@) {
            ArgsOutcome::UnknownOption(a)
        } else if base is None {
            read_args(args, i + 1, Some(a), theme)
        } else {
            ArgsOutcome::UnexpectedArgument(a)
        }
    }
}

fn is_option(a: &String) -> (r: bool)
    ensures
        r == starts_with(a@, "-"@),
{
    proof {
        reveal_strlit("-");
        assert("-"@ =~= seq!['-']);
    }
    let c = chars_of(a.as_str());
    if c.len() > 0 && c[0] == '-' {
        assert(a@.subrange(0, 1) =~= seq!['-']);
        true
    } else {
        proof {
            if a@.len() >= 1 {
                assert(a@.subrange(0, 1)[0] == a@[0]);
            }
        }
        false
    }
}

/// Reads the command-line arguments (without the program name): an
/// optional base branch, given by `-b`/`--base` or as the one positional
/// argument, and an optional theme given by `-t`/`--theme`; `-h`/`--help`
/// asks for the usage text.
pub fn parse_args(args: &Vec<String>) -> (r: Result<Invocation, ArgsError>)
    ensures
        outcome_view(r) == read_args(strings_view(args@), 0, None, None),
{
    let ghost av = strings_view(args@);
    let mut base_branch: Option<String> = None;
    let mut theme: Option<ThemeMode> = None;
    let mut i: usize = 0;
    while i < args.len()
        invariant
            i <= args@.len(),
            av == strings_view(args@),
            read_args(av, 0, None, None) == read_args(
                av,
                i as int,
                match base_branch {
                    Some(b) => Some(b@),
                    None => None,
                },
                theme,
            ),
        decreases args.len() - i,
    {
        let a = &args[i];
        assert(av[i as int] == a@);
        if same_text(a.as_str(), "-h") || same_text(a.as_str(), "--help") {
            return Ok(Invocation::Help);
        } else if same_text(a.as_str(), "-b") || same_text(a.as_str(), "--base") {
            if args.len() - i < 2 {
                return Err(ArgsError::MissingBase);
            }
            assert(av[i + 1] == args@[i + 1]@);
            base_branch = Some(args[i + 1].clone());
            i = i + 2;
        } else if same_text(a.as_str(), "-t") || same_text(a.as_str(), "--theme") {
            if args.len() - i < 2 {
                return Err(ArgsError::MissingTheme);
            }
            assert(av[i + 1] == args@[i + 1]@);
            match ThemeMode::from_str(args[i + 1].as_str()) {
                Some(m) => {
                    theme = Some(m);
                    i = i + 2;
                },
                None => {
                    return Err(ArgsError::InvalidTheme(args[i + 1].clone()));
                },
            }
        } else if is_option(a) {
            return Err(ArgsError::UnknownOption(a.clone()));
        } else if base_branch.is_none() {
            base_branch = Some(a.clone());
            i = i + 1;
        } else {
            return Err(ArgsError::UnexpectedArgument(a.clone()));
        }
    }
    Ok(Invocation::Run(Args { base_branch, theme }))
}

} // verus!
