//! The command-line options of the viewer.

use vstd::prelude::*;
use std::path::PathBuf;

verus! {

/// A path of the file system, carried through as the user gave it.
#[verifier::external_type_specification]
#[verifier::external_body]
pub struct ExPathBuf(PathBuf);

/// The format of the input data.
#[derive(PartialEq, Eq, Copy, Clone, Debug, Structural)]
pub enum DataFormat {
    Json,
    Yaml,
}

/// How the document is shown: with every bracket and quote (line mode), or
/// without closing brackets, commas and key quotes (data mode).
#[derive(PartialEq, Eq, Copy, Clone, Debug, Structural)]
pub enum Mode {
    Line,
    Data,
}

/// The options the viewer was started with.
#[derive(Debug)]
pub struct Opt {
    /// The input file; standard input when there is none or it is `-`.
    pub input: Option<PathBuf>,
    /// The viewing mode to start in.
    pub mode: Mode,
    /// Show line numbers.
    pub show_line_numbers: bool,
    pub _show_line_numbers_hidden: bool,
    /// Show line numbers relative to the focused line.
    pub show_relative_line_numbers: bool,
    pub _show_relative_line_numbers_hidden: bool,
    /// Lines kept between the focused line and the top or bottom of the
    /// screen.
    pub scrolloff: u16,
    /// A shell command that copies what it reads, used in place of the
    /// clipboard.
    pub clipboard_command: Option<String>,
    /// Read the input as JSON.
    pub json: bool,
    /// Read the input as YAML.
    pub yaml: bool,
}

impl Opt {
    /// The format the options ask for explicitly, JSON taking precedence.
    pub fn data_format(&self) -> (f: Option<DataFormat>)
        ensures
            f == (if self.json {
                Some(DataFormat::Json)
            } else if self.yaml {
                Some(DataFormat::Yaml)
            } else {
                None
            }),
    {
        if self.json {
            Some(DataFormat::Json)
        } else if self.yaml {
            Some(DataFormat::Yaml)
        } else {
            None
        }
    }
}

} // verus!
