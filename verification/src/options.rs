//! Option records handed down from the command line.

use vstd::prelude::*;

verus! {

/// Options of the whole program.
#[derive(Clone, Copy, Debug)]
pub struct ViaOptions {
    /// Level of verboseness.
    pub verboseness: usize,
}

impl ViaOptions {
    /// The default options: verboseness 1.
    pub fn new() -> (options: ViaOptions)
        ensures
            options.verboseness == 1,
    {
        ViaOptions { verboseness: 1 }
    }
}

/// Options of one editor window.
#[derive(Debug)]
pub struct EditorOptions {
    /// Name of the file being edited.
    pub file_name: String,
    /// Level of verboseness.
    pub verboseness: usize,
}

impl EditorOptions {
    /// The default options for the file `file_name`: verboseness 1.
    pub fn new(file_name: String) -> (options: EditorOptions)
        ensures
            options.file_name == file_name,
            options.verboseness == 1,
    {
        EditorOptions { file_name, verboseness: 1 }
    }
}

} // verus!
