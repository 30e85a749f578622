//! Terminal detection, as a capability of the program's input source.

use vstd::prelude::*;

verus! {

/// An input source that knows whether it is an interactive terminal. The
/// standard input of a program implements this at the program's edge; the
/// library itself only states the capability.
pub trait Term {
    fn isatty(&self) -> bool;
}

} // verus!
