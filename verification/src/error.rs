//! Why an operation on an archive or a level file gives up.

use vstd::prelude::*;

verus! {

/// A fatal condition. Integrity findings are no errors: a decode reports
/// them and still succeeds.
#[derive(Clone, Copy, Debug, PartialEq, Eq, Structural)]
pub enum FormatError {
    /// The input ends before something the format requires: a level file
    /// shorter than its footer, or an archive that ends inside a pointer
    /// record.
    MalformedInput,
    /// A pointer record describes bytes beyond the end of the archive.
    OutOfBounds,
}

} // verus!
