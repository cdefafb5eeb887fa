//! The severity of a message on the status bar.

use vstd::prelude::*;

verus! {

/// How serious a status bar message is.
#[derive(Copy, Clone, Debug, PartialEq, Eq, Structural)]
pub enum MessageSeverity {
    Info,
    Warn,
    Error,
}

} // verus!
