//! Converts plugin preset files into REAPER RPL preset libraries, so preset
//! names can be browsed from REAPER's native preset list.
//!
//! The approach is template-based: the user saves one preset for the target
//! plugin through REAPER and exports it as an RPL. That template teaches the
//! converter every plugin-specific wrapper byte; conversion then swaps the
//! plugin's parameter state inside the wrapper and adjusts the length fields.

pub mod blob;
pub mod convert;
pub mod edit;
pub mod extract;
pub mod files;
pub mod floats;
pub mod json;
pub mod rpl;
pub mod text;
pub mod treemerge;
pub mod uapreset;
pub mod ubjson;
pub mod valuetree;
pub mod xmlform;
pub mod xmlmerge;
pub mod xmlread;

pub use convert::{
    build_rpl, convert_files, convert_preset, load_template, BatchOutcome, ConvertedPreset,
    FolderNaming, Template,
};

use vstd::prelude::*;

verus! {

/// A conversion error with a human-readable message.
#[derive(Debug)]
pub struct Error(pub String);

impl Error {
    /// The message describing what went wrong.
    pub fn message(&self) -> (s: &str)
        ensures
            s@ == self.0@,
    {
        self.0.as_str()
    }
}

/// The result type of the library's fallible operations.
pub type Result<T> = std::result::Result<T, Error>;

/// An error carrying the given message.
pub fn err<T>(msg: &str) -> (r: Result<T>)
    ensures
        r matches Err(e) && e.0@ == msg@,
{
    Err(Error(msg.to_owned()))
}

} // verus!
