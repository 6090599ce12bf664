//! The systems that drives are handled on.

use vstd::prelude::*;

verus! {

/// An operating system.
#[derive(Debug, Clone, Copy, PartialEq, Eq, Structural)]
pub enum Platform {
    MacOs,
    Linux,
    Other,
}

} // verus!
