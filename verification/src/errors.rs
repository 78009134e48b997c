//! The failure taxonomy of the codec layer.
//!
//! Every failure is a hard stop for the operation that raised it; there is no
//! recoverable channel. Callers at a higher layer catch and translate.

use vstd::prelude::*;

verus! {

/// Why an encode or decode operation was aborted.
#[derive(PartialEq, Eq, Structural, Clone, Copy, Debug)]
pub enum CodecError {
    /// A row field holds a character other than `1`, `0` or `-`.
    BadChar,
    /// A body row lacks the space-separated input and output fields.
    BadRow,
    /// A numeric directive argument is missing, malformed, or too large.
    BadCount,
    /// A body row's field widths disagree with the declared header.
    HeaderMismatch,
    /// A line that the format does not allow at its position.
    StrayLine,
    /// The text ended before the `.e` terminator.
    MissingTerminator,
    /// A literal's variable index reaches past the declared variable count.
    IndexOutOfRange,
    /// A cell value was never observed by its column's itemizer.
    UnknownValue,
    /// A one-hot position refers past the column's vocabulary.
    UnassignedId,
    /// A body row arrived before any `.p` directive sized the grid.
    UnsizedGrid,
    /// More body rows arrived than the `.p` directive declared.
    RowOverflow,
}

} // verus!
