use vstd::prelude::*;

verus! {

/// Everything that can go wrong while building a segmenter or running it.
#[derive(Debug, PartialEq, Eq)]
pub enum ChawuekError {
    /// The character map could not be opened or read.
    CannotOpenCharMapFile,
    /// The character map is not an object whose values are integers.
    CannotParseCharMapFile,
    /// One of the reserved symbols is absent from the character map.
    CannotFindSpecialSymbolInCharMap(String),
    /// A key that should hold a single character does not.
    CannotCharFromString(String),
    /// The classifier gave back something other than one score per character.
    ModuleReturnedAnInvalidValue,
}

} // verus!
