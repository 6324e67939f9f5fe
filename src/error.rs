use vstd::prelude::*;

verus! {

/// Errors raised by the index itself.
#[derive(Debug, Clone, Copy, PartialEq, Eq, Structural)]
pub enum CustomError {
    /// A path holds a component that cannot serve as a trie key
    /// (it contains a NUL character), or no component at all.
    PathError,
    /// A prefix of the path is absent from the trie.
    PathNotFound,
}

} // verus!
