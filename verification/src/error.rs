//! Error types for the binary codec and the script parser.

use vstd::prelude::*;

verus! {

/// Failure of a bit-stream or recording operation.
#[derive(Clone, Copy, Debug, PartialEq, Eq, Structural)]
pub enum CodecError {
    /// A width over the operation's limit was requested, or a value does not
    /// fit in the requested number of bits.
    BitRange,
    /// A read ran past the declared or available bits.
    EndOfData,
    /// A length-prefixed string did not hold valid UTF-8.
    Utf8,
}

/// A named grammar rule, for error traces.
#[derive(Clone, Copy, Debug, PartialEq, Eq, Structural)]
pub enum Rule {
    /// The whole document.
    Tasfile,
    /// A named sequence block.
    Sequence,
    /// A quoted string.
    Str,
    /// A frame statement of any kind.
    FrameStmt,
    /// A `frames` run statement.
    Frames,
    /// A `moveframe` statement.
    Moveframe,
    /// A move block.
    MoveBlock,
    /// A parenthesized number triple.
    Float3,
    /// A parenthesized six-bit triple.
    Bool6,
}

/// A grammar violation: the position in the comment-stripped text where
/// parsing failed, and the trace of named rules entered, outermost first.
#[derive(Clone, Debug, PartialEq, Eq)]
pub struct ParseError {
    pub context: Vec<Rule>,
    pub at: usize,
}

} // verus!
