//! The error taxonomy of the engine.
//!
//! Every fatal condition surfaces as one of these kinds; per-candidate
//! probe failures that merely mean "this password does not match" never do.

use vstd::prelude::*;

verus! {

/// A fatal failure, surfaced from counting or searching.
#[derive(Clone, Debug)]
pub enum Errors {
    /// Underlying storage or read failure on the target or dictionary.
    StdIoError { message: String },
    /// The target violates its format's structural constraints.
    InvalidZip { message: String },
    /// The target does not require a password, or its format is unknown.
    UnsupportedOrUnencrypted { message: String },
    /// A computed candidate-space size exceeds the representable range.
    MathError { message: String },
    /// A rejected strategy input: empty charset, zero lengths, zero workers.
    CliArgumentError { message: String },
}

impl Errors {
    /// Builds the error that marks a structurally invalid archive.
    pub fn invalid_zip_error(message: String) -> (r: Self)
        ensures
            r == (Errors::InvalidZip { message }),
    {
        Errors::InvalidZip { message }
    }

    /// The human-readable message carried by any kind.
    pub fn message(&self) -> (r: &String)
        ensures
            *self matches Errors::StdIoError { message } ==> r@ == message@,
            *self matches Errors::InvalidZip { message } ==> r@ == message@,
            *self matches Errors::UnsupportedOrUnencrypted { message } ==> r@ == message@,
            *self matches Errors::MathError { message } ==> r@ == message@,
            *self matches Errors::CliArgumentError { message } ==> r@ == message@,
    {
        match self {
            Errors::StdIoError { message } => message,
            Errors::InvalidZip { message } => message,
            Errors::UnsupportedOrUnencrypted { message } => message,
            Errors::MathError { message } => message,
            Errors::CliArgumentError { message } => message,
        }
    }
}

} // verus!
