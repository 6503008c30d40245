//! The work cursor: the one piece of state that the workers share while they
//! scan. Each claim moves it on by a chunk size and hands out where it stood.

use std::sync::atomic::AtomicUsize;
use std::sync::atomic::Ordering;
use vstd::prelude::*;

verus! {

/// The shared cursor over the input.
pub struct Cursor {
    next: AtomicUsize,
}

impl Cursor {
    /// A cursor at the start of the input.
    pub fn new() -> Cursor {
        Cursor { next: AtomicUsize::new(0) }
    }

    /// Claims the next `size` bytes: moves the cursor on by `size` and
    /// answers where it stood. What comes back depends on the claims of all
    /// other workers, so nothing is promised of it.
    pub fn claim(&self, size: usize) -> usize {
        self.next.fetch_add(size, Ordering::AcqRel)
    }
}

} // verus!
