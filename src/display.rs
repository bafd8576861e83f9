//! The options of the human-readable listing.
use vstd::prelude::*;

verus! {

/// How the listing shows the bytes of code sections.
#[derive(Debug, Clone, Copy, PartialEq, Eq, Structural)]
pub enum CodeFormat {
    /// Not at all.
    Hidden,
    /// As rows of sixteen hexadecimal bytes.
    Hex,
    /// As disassembled instructions.
    Disassembly,
}

/// Options of the listing of archives and object files.
#[derive(Debug, Clone, Copy, PartialEq, Eq, Structural)]
pub struct Options {
    /// How code bytes are shown.
    pub code_format: CodeFormat,
    /// Whether the listing of an archive descends into each module.
    pub recursive: bool,
    /// Whether uninitialized data is spelled the British way.
    pub british_spelling: bool,
}

impl Default for Options {
    fn default() -> (r: Options)
        ensures
            r == (Options { code_format: CodeFormat::Hidden, recursive: false, british_spelling: false }),
    {
        Options { code_format: CodeFormat::Hidden, recursive: false, british_spelling: false }
    }
}

} // verus!
