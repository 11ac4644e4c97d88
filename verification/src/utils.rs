use vstd::prelude::*;

verus! {

/// Finds an address among the elements of a buffer.
pub trait IndexOfPtr {
    /// The index of the element that starts at address `ptr`, where one does.
    fn index_of(&self, ptr: usize) -> Option<usize>;
}

} // verus!
