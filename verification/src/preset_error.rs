//! Errors raised while importing an external preset file.

use vstd::prelude::*;

verus! {

/// Why a preset file could not be imported.
#[derive(Debug)]
pub enum PresetError {
    /// No known importer recognized the bytes or the extension.
    UnknownFormat,
    /// The file matched a format but could not be parsed.
    Malformed(String),
    /// An underlying I/O failure, as text.
    Io(String),
}

/// The user-facing text of an error.
pub open spec fn preset_error_text(e: PresetError) -> Seq<char> {
    match e {
        PresetError::UnknownFormat => "unrecognized preset format"@,
        PresetError::Malformed(m) => "malformed preset: "@ + m@,
        PresetError::Io(m) => "io error: "@ + m@,
    }
}

impl PresetError {
    /// The user-facing text of this error.
    pub fn message(&self) -> (r: String)
        ensures
            r@ == preset_error_text(*self),
    {
        match self {
            PresetError::UnknownFormat => "unrecognized preset format".to_owned(),
            PresetError::Malformed(m) => {
                let mut t = "malformed preset: ".to_owned();
                t.append(m.as_str());
                t
            },
            PresetError::Io(m) => {
                let mut t = "io error: ".to_owned();
                t.append(m.as_str());
                t
            },
        }
    }
}

} // verus!
