use vstd::prelude::*;
use vstd::string::StringExecFns;
use crate::wad::types::{name_text, WadName};

verus! {

/// Why a WAD, or a part of one, could not be read.
#[derive(Clone, Copy, Debug)]
pub enum WadError {
    /// The file does not start with `IWAD` or `PWAD`.
    NotAWad,
    /// No lump of this name lies in the range that was searched.
    LumpNotFound(WadName),
    /// A flat lump does not hold exactly 64 by 64 bytes.
    FlatSize,
    /// A lump of fixed-size records has bytes left over after the last whole record.
    RecordSize,
}

/// The text that describes an error to a reader.
pub open spec fn error_text(e: WadError) -> Seq<char> {
    match e {
        WadError::NotAWad => "File is not a WAD!"@,
        WadError::LumpNotFound(n) => "Failed to find lump "@ + name_text(n@) + "."@,
        WadError::FlatSize => "Flat is not 64 by 64."@,
        WadError::RecordSize => "Lump is not a whole number of records."@,
    }
}

impl WadError {
    /// The error as a sentence (see `error_text`).
    pub fn message(&self) -> (r: String)
        ensures
            r@ == error_text(*self),
    {
        match self {
            WadError::NotAWad => {
                String::from_str("File is not a WAD!")
            },
            WadError::LumpNotFound(name) => {
                let mut text = String::from_str("Failed to find lump ");
                text.append(name.as_str());
                text.append(".");
                text
            },
            WadError::FlatSize => {
                String::from_str("Flat is not 64 by 64.")
            },
            WadError::RecordSize => {
                String::from_str("Lump is not a whole number of records.")
            },
        }
    }
}

} // verus!
