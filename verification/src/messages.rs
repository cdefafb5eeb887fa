//! The kinds of messages shown to the user, and the results that tell the
//! event loop to stop or that an input was empty.

use vstd::prelude::*;
use crate::rendering::{AnsiColor, Attrs, Color};

verus! {

/// The event loop should stop.
pub struct Break;

/// The input held no data.
pub struct InputWasEmpty;

/// How serious a message to the user is.
#[derive(Copy, Clone, Debug, PartialEq, Eq, Structural)]
pub enum MessageSeverity {
    Info,
    Warn,
    Error,
}

impl MessageSeverity {
    /// The style a message of this severity is shown in: white, yellow or
    /// red text.
    pub fn attrs(&self) -> (a: Attrs)
        ensures
            a == Attrs::spec_new(
                Color::Ansi(
                    match self {
                        MessageSeverity::Info => AnsiColor::White,
                        MessageSeverity::Warn => AnsiColor::Yellow,
                        MessageSeverity::Error => AnsiColor::Red,
                    },
                ),
                Color::Default,
            ),
    {
        match self {
            MessageSeverity::Info => Attrs::from_ansi_fg(AnsiColor::White),
            MessageSeverity::Warn => Attrs::from_ansi_fg(AnsiColor::Yellow),
            MessageSeverity::Error => Attrs::from_ansi_fg(AnsiColor::Red),
        }
    }
}

} // verus!
