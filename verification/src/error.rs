//! The failures a run can end with.

use vstd::prelude::*;
use crate::args::{MAX_QUANTITY, MIN_QUANTITY};
use crate::text::{decimal, decimal_text, describe_io};

verus! {

/// `std::io::Error`, carried through unopened: nothing in this crate looks inside one.
#[verifier::external_type_specification]
#[verifier::external_body]
pub struct ExIoError(std::io::Error);

/// Why a run, a render attempt or the configuration was given up.
#[derive(Debug)]
pub enum Error {
    /// The user asked for the run to stop.
    Interrupted,
    /// The requested number of items lies outside the configured range.
    QuantityOutOfRange(usize),
    /// That many bars cannot be laid out in the available width.
    BarOverflow(usize),
    /// The display or the input source failed.
    IOError(std::io::Error),
    /// The operation counter is full and one more operation would have to be counted.
    CountExhausted,
}

impl From<std::io::Error> for Error {
    /// A failure of the display or of the input source, as a failure of the run.
    fn from(error: std::io::Error) -> (e: Error) {
        Error::IOError(error)
    }
}

impl vstd::std_specs::convert::FromSpecImpl<std::io::Error> for Error {
    open spec fn obeys_from_spec() -> bool {
        true
    }

    open spec fn from_spec(error: std::io::Error) -> Error {
        Error::IOError(error)
    }
}

impl Error {
    /// The message of every failure but that of the display or input
    /// source, whose text is the source's own.
    pub open spec fn spec_message(self) -> Option<Seq<char>> {
        match self {
            Error::Interrupted => Some("Interrupted"@),
            Error::BarOverflow(quantity) => Some(
                "Terminal cannot render "@ + decimal_text(quantity as nat)
                    + " bars. Resize terminal or use smaller quantity"@,
            ),
            Error::QuantityOutOfRange(quantity) => Some(
                "quantity "@ + decimal_text(quantity as nat) + " is not in range ["@ + decimal_text(
                    MIN_QUANTITY as nat,
                ) + " - "@ + decimal_text(MAX_QUANTITY as nat) + "]"@,
            ),
            Error::CountExhausted => Some("The operation counter is full"@),
            Error::IOError(_) => None,
        }
    }

    /// The failure in words, for the user.
    pub fn message(&self) -> (text: String)
        ensures
            self.spec_message() matches Some(message) ==> text@ == message,
    {
        let mut text = String::new();
        match self {
            Error::Interrupted => {
                text.push_str("Interrupted");
            },
            Error::BarOverflow(quantity) => {
                text.push_str("Terminal cannot render ");
                text.push_str(decimal(*quantity as u64).as_str());
                text.push_str(" bars. Resize terminal or use smaller quantity");
            },
            Error::QuantityOutOfRange(quantity) => {
                text.push_str("quantity ");
                text.push_str(decimal(*quantity as u64).as_str());
                text.push_str(" is not in range [");
                text.push_str(decimal(MIN_QUANTITY as u64).as_str());
                text.push_str(" - ");
                text.push_str(decimal(MAX_QUANTITY as u64).as_str());
                text.push_str("]");
            },
            Error::CountExhausted => {
                text.push_str("The operation counter is full");
            },
            Error::IOError(io_error) => {
                text.push_str(describe_io(io_error).as_str());
            },
        }
        proof {
            if let Some(message) = self.spec_message() {
                assert(text@ =~= message);
            }
        }
        text
    }
}

} // verus!
