//! The command line: a number, and an optional timeout in seconds after
//! `-t`.

use crate::text::{
    characters, decimal, nonzero_decimal, occurs, parse_decimal, parse_nonzero_decimal,
    remove_all, trim, trim_bounds, without, IntErrorKind,
};
use vstd::prelude::*;

verus! {

/// Why the command line was not accepted.
#[derive(Debug, Clone, Copy, PartialEq, Eq)]
pub enum InputError {
    /// Help was asked for.
    Help,
    /// The arguments are too few, too many, or not in their places.
    BadInput,
    /// The number cannot be read.
    InvalidNumber(IntErrorKind),
    /// The timeout cannot be read, or is zero.
    InvalidTimeout(IntErrorKind),
}

/// The number to factor, and the timeout in seconds if one was given.
pub type Args = (u64, Option<u64>);

impl InputError {
    /// What the user is told of the error.
    pub open spec fn message_text(self) -> Seq<char> {
        match self {
            InputError::Help => "Usage: COMMAND <INTEGER> [-t <SECONDS>]"@,
            InputError::BadInput => "Usage: COMMAND <INTEGER> [-t <SECONDS>]"@,
            InputError::InvalidNumber(IntErrorKind::InvalidDigit) => {
                "InvalidNumber: Only use (0..=9) and comma OR underscore"@
            },
            InputError::InvalidNumber(IntErrorKind::PosOverflow) => {
                "InvalidNumber: Too large\nMaxInt: 18446744073709551615"@
            },
            InputError::InvalidNumber(IntErrorKind::Empty) => {
                "InvalidNumber: Must include numbers (0..=9)"@
            },
            InputError::InvalidTimeout(IntErrorKind::InvalidDigit) => {
                "InvalidTimeout: Only use (0..=9)"@
            },
            InputError::InvalidTimeout(IntErrorKind::PosOverflow) => {
                "InvalidTimeout: Too large\nMaxInt: 18446744073709551615"@
            },
            InputError::InvalidTimeout(IntErrorKind::Empty) => {
                "InvalidTimeout: Remove the -t flag to disable timeout"@
            },
            InputError::InvalidTimeout(IntErrorKind::Zero) => {
                "InvalidTimeout: Timeout cannot be 0; to disable timeout, remove the -t flag"@
            },
            InputError::InvalidNumber(_) | InputError::InvalidTimeout(_) => {
                "ParseFailure: Unknown error"@
            },
        }
    }

    /// What the user is told of the error.
    pub fn message(&self) -> (text: String)
        ensures
            text@ == self.message_text(),
    {
        let text = match self {
            InputError::Help => "Usage: COMMAND <INTEGER> [-t <SECONDS>]",
            InputError::BadInput => "Usage: COMMAND <INTEGER> [-t <SECONDS>]",
            InputError::InvalidNumber(IntErrorKind::InvalidDigit) => {
                "InvalidNumber: Only use (0..=9) and comma OR underscore"
            },
            InputError::InvalidNumber(IntErrorKind::PosOverflow) => {
                "InvalidNumber: Too large\nMaxInt: 18446744073709551615"
            },
            InputError::InvalidNumber(IntErrorKind::Empty) => {
                "InvalidNumber: Must include numbers (0..=9)"
            },
            InputError::InvalidTimeout(IntErrorKind::InvalidDigit) => {
                "InvalidTimeout: Only use (0..=9)"
            },
            InputError::InvalidTimeout(IntErrorKind::PosOverflow) => {
                "InvalidTimeout: Too large\nMaxInt: 18446744073709551615"
            },
            InputError::InvalidTimeout(IntErrorKind::Empty) => {
                "InvalidTimeout: Remove the -t flag to disable timeout"
            },
            InputError::InvalidTimeout(IntErrorKind::Zero) => {
                "InvalidTimeout: Timeout cannot be 0; to disable timeout, remove the -t flag"
            },
            InputError::InvalidNumber(_) | InputError::InvalidTimeout(_) => {
                "ParseFailure: Unknown error"
            },
        };
        text.to_owned()
    }
}

/// The arguments as sequences of characters.
pub open spec fn texts(args: Seq<String>) -> Seq<Seq<char>> {
    args.map_values(|arg: String| arg@)
}

/// Whether `arg` asks for help.
pub open spec fn is_help(arg: Seq<char>) -> bool {
    arg == "-h"@ || arg == "--help"@
}

/// Whether one of the arguments, the program's name among them, asks for
/// help.
pub open spec fn asks_for_help(args: Seq<Seq<char>>) -> bool {
    exists|i: int| 0 <= i < args.len() && is_help(#[trigger] args[i])
}

/// The text of a number without its grouping: without its commas if it has
/// any, else without its underscores.
pub open spec fn ungrouped(text: Seq<char>) -> Seq<char> {
    if text.contains(',') {
        without(text, ',')
    } else if text.contains('_') {
        without(text, '_')
    } else {
        text
    }
}

/// What the arguments come to. `args[0]` is the program's name.
///
/// A request for help comes first, then the count of the arguments, then the
/// number, then the flag `-t`, then the timeout.
pub open spec fn parsed(args: Seq<Seq<char>>) -> Result<Args, InputError> {
    if asks_for_help(args) {
        Err(InputError::Help)
    } else if args.len() <= 1 || args.len() == 3 || args.len() >= 5 {
        Err(InputError::BadInput)
    } else {
        match decimal(trim(ungrouped(args[1]))) {
            Err(kind) => Err(InputError::InvalidNumber(kind)),
            Ok(number) => if args.len() == 2 {
                Ok((number, None))
            } else if args[2] != "-t"@ {
                Err(InputError::BadInput)
            } else {
                match nonzero_decimal(trim(args[3])) {
                    Err(kind) => Err(InputError::InvalidTimeout(kind)),
                    Ok(seconds) => Ok((number, Some(seconds))),
                }
            },
        }
    }
}

/// The characters of the text of a number, without its grouping.
pub fn ungroup(text: &str) -> (chars: Vec<char>)
    ensures
        chars@ == ungrouped(text@),
{
    let chars = characters(text);
    if occurs(&chars, ',') {
        remove_all(&chars, ',')
    } else if occurs(&chars, '_') {
        remove_all(&chars, '_')
    } else {
        chars
    }
}

/// Reads the command line. `args[0]` is the program's name, `args[1]` the
/// number, and `args[2]` and `args[3]`, if they are there, `-t` and the
/// timeout in seconds.
pub fn parse(args: &Vec<String>) -> (result: Result<Args, InputError>)
    ensures
        result == parsed(texts(args@)),
        result matches Ok((_, Some(seconds))) ==> seconds > 0,
{
    let ghost given = texts(args@);
    let short = "-h".to_owned();
    let long = "--help".to_owned();
    let mut i: usize = 0;
    while i < args.len()
        invariant
            i <= args.len(),
            given == texts(args@),
            short@ == "-h"@,
            long@ == "--help"@,
            forall|j: int| 0 <= j < i ==> !is_help(#[trigger] given[j]),
        decreases args.len() - i,
    {
        if args[i] == short || args[i] == long {
            assert(is_help(given[i as int]));
            return Err(InputError::Help);
        }
        i += 1;
    }
    let count = args.len();
    if count <= 1 || count == 3 || count >= 5 {
        return Err(InputError::BadInput);
    }
    let number_text = ungroup(args[1].as_str());
    let (from, to) = trim_bounds(&number_text);
    let number = match parse_decimal(&number_text, from, to) {
        Ok(number) => number,
        Err(kind) => {
            return Err(InputError::InvalidNumber(kind));
        },
    };
    if count == 2 {
        return Ok((number, None));
    }
    let flag = "-t".to_owned();
    if args[2] != flag {
        return Err(InputError::BadInput);
    }
    let timeout_text = characters(args[3].as_str());
    let (from, to) = trim_bounds(&timeout_text);
    match parse_nonzero_decimal(&timeout_text, from, to) {
        Ok(seconds) => Ok((number, Some(seconds))),
        Err(kind) => Err(InputError::InvalidTimeout(kind)),
    }
}

} // verus!
