//! Where the helper reports what it does.

use vstd::prelude::*;

verus! {

/// A sink for messages about the work of the helper.
pub trait Log {
    /// Takes one message.
    fn log(&self, message: &str);
}

/// The logger that drops every message.
pub struct NopLogger;

impl Log for NopLogger {
    fn log(&self, _message: &str) {
    }
}

} // verus!
