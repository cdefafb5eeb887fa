//! The commands that copy text to the system clipboard.

use vstd::prelude::*;

verus! {

#[derive(Debug)]
pub enum AccessMethod {
    Pbcopy,
    Xclip,
    Wlcopy,
}

impl AccessMethod {
    /// The command that copies with this method.
    pub fn cmd(&self) -> (s: &'static str)
        ensures
            s@ == match self {
                AccessMethod::Pbcopy => "pbcopy"@,
                AccessMethod::Xclip => "xclip"@,
                AccessMethod::Wlcopy => "wl-copy"@,
            },
    {
        match self {
            AccessMethod::Pbcopy => "pbcopy",
            AccessMethod::Xclip => "xclip",
            AccessMethod::Wlcopy => "wl-copy",
        }
    }

    /// The arguments of the command.
    pub fn args(&self) -> (a: Vec<&'static str>)
        ensures
            match self {
                AccessMethod::Xclip => a@.len() == 2 && a@[0]@ == "-selection"@ && a@[1]@
                    == "clipboard"@,
                _ => a@.len() == 0,
            },
    {
        match self {
            AccessMethod::Pbcopy => Vec::new(),
            AccessMethod::Xclip => {
                let mut v = Vec::new();
                v.push("-selection");
                v.push("clipboard");
                v
            },
            AccessMethod::Wlcopy => Vec::new(),
        }
    }
}

/// The clipboard command to use: `pbcopy` on macOS; on other Unix systems
/// `wl-copy` under Wayland (when `wayland_display`, the value of
/// `WAYLAND_DISPLAY`, is set and not empty) and `xclip` otherwise; none
/// elsewhere.
pub fn default_access_method(macos: bool, unix: bool, wayland_display: Option<String>) -> (m: Option<
    AccessMethod,
>)
    ensures
        macos ==> m matches Some(AccessMethod::Pbcopy),
        !macos && unix && (wayland_display matches Some(v) && v@.len() > 0) ==> m matches Some(
            AccessMethod::Wlcopy,
        ),
        !macos && unix && !(wayland_display matches Some(v) && v@.len() > 0) ==> m matches Some(
            AccessMethod::Xclip,
        ),
        !macos && !unix ==> m is None,
{
    if macos {
        Some(AccessMethod::Pbcopy)
    } else if unix {
        match wayland_display {
            Some(val) if val.as_str().unicode_len() != 0 => Some(AccessMethod::Wlcopy),
            _ => Some(AccessMethod::Xclip),
        }
    } else {
        None
    }
}

} // verus!
