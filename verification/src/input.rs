//! What a frontend's pause does with what the input source reported.

use vstd::prelude::*;
use crate::error::Error;

verus! {

/// A key, as far as cancellation cares.
#[derive(Clone, Copy, Debug, PartialEq, Eq, Structural)]
pub enum Key {
    /// A character key.
    Char(char),
    /// The escape key.
    Esc,
    /// Any other key.
    Other,
}

/// A key event: which key, and whether it went down rather than up or repeated.
#[derive(Clone, Copy, Debug, PartialEq, Eq, Structural)]
pub struct KeyInput {
    pub key: Key,
    pub pressed: bool,
}

/// Whether `key` is one of the keys that cancel a run: `q` and escape.
pub open spec fn cancels(key: Key) -> bool {
    key == Key::Char('q') || key == Key::Esc
}

/// Whether `key` is one of the keys that cancel a run.
pub fn is_cancel_key(key: Key) -> (b: bool)
    ensures
        b == cancels(key),
{
    match key {
        Key::Char(c) => c == 'q',
        Key::Esc => true,
        Key::Other => false,
    }
}

/// How a pause ends, given the key event that arrived before it ran out, if
/// one did: pressing a cancel key interrupts, anything else lets the run go on.
pub fn pause_outcome(event: Option<KeyInput>) -> (r: Result<(), Error>)
    ensures
        match event {
            Some(input) if input.pressed && cancels(input.key) => r == Err::<(), Error>(
                Error::Interrupted,
            ),
            _ => r is Ok,
        },
{
    match event {
        Some(input) => {
            if input.pressed && is_cancel_key(input.key) {
                Err(Error::Interrupted)
            } else {
                Ok(())
            }
        },
        None => Ok(()),
    }
}

} // verus!
