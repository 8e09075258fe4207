//! The argument record a front end hands to the engine.
//!
//! Parsing the command line or the UI state is the front end's business;
//! what arrives here is plain data, validated against the engine's own
//! rules before a strategy is built from it.

use vstd::prelude::*;

use crate::errors::Errors;

verus! {

/// How the front end chooses candidates.
#[derive(Copy, Clone, Debug, PartialEq, Eq, Structural)]
pub enum Mode {
    /// Read candidates from a dictionary file.
    PasswordDictionary,
    /// Enumerate candidates over the named character classes.
    Generation,
    /// Enumerate candidates over user-given characters.
    Custom,
}

/// Everything a front end collects: the target, the worker count, and
/// either a dictionary path or the description of a generated space.
#[derive(Clone, Debug)]
pub struct Arguments {
    pub input_file: String,
    pub workers: Option<usize>,
    pub charsets: Vec<char>,
    pub min_password_len: usize,
    pub max_password_len: usize,
    pub password_dictionary: Option<String>,
    pub custom_chars: Vec<char>,
}

/// The argument record is admissible: positive lengths in order, and a
/// positive worker count where one is given.
pub open spec fn spec_arguments_valid(args: Arguments) -> bool {
    &&& args.min_password_len >= 1
    &&& args.min_password_len <= args.max_password_len
    &&& (args.workers matches Some(w) ==> w >= 1)
}

/// Checks an argument record against the engine's rules; rejected input
/// is exactly the inadmissible input, and always surfaces as an
/// argument error.
pub fn validate_arguments(args: &Arguments) -> (r: Result<(), Errors>)
    ensures
        r is Ok <==> spec_arguments_valid(*args),
        r is Err ==> r matches Err(Errors::CliArgumentError { .. }),
{
    if args.min_password_len == 0 {
        return Err(Errors::CliArgumentError {
            message: String::from_str("'minPasswordLen' must be positive"),
        });
    }
    if args.max_password_len < args.min_password_len {
        return Err(Errors::CliArgumentError {
            message: String::from_str("'minPasswordLen' must not exceed 'maxPasswordLen'"),
        });
    }
    match args.workers {
        Some(w) => {
            if w == 0 {
                return Err(Errors::CliArgumentError {
                    message: String::from_str("'workers' must be positive"),
                });
            }
        },
        None => {},
    }
    Ok(())
}

} // verus!
