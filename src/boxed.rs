//! An owned block of bytes in an arena.
use crate::bump::Bump;
use crate::model::{after_alloc, alloc_possible, block_bytes, filled, served_at};
use vstd::prelude::*;

verus! {

/// A block of bytes that lives in an arena: where it starts and how long it
/// is. The arena that served it reads and writes its bytes.
#[derive(Debug)]
pub struct Box {
    ptr: usize,
    len: usize,
}

impl Box {
    pub closed spec fn spec_ptr(&self) -> usize {
        self.ptr
    }

    pub closed spec fn spec_len(&self) -> usize {
        self.len
    }

    /// Moves a copy of `x` into the arena `a`.
    pub fn new_in(x: &[u8], a: &mut Bump) -> (r: Box)
        requires
            old(a).wf(),
            x@.len() <= isize::MAX,
            alloc_possible(old(a)@, x@.len() as int, 1),
        ensures
            final(a).wf(),
            r.spec_ptr() == served_at(old(a)@, x@.len() as int, 1),
            r.spec_len() == x@.len(),
            final(a)@ == filled(after_alloc(old(a)@, x@.len() as int, 1), r.spec_ptr() as int, x@),
    {
        let ptr = a.alloc_slice_copy(x);
        Box { ptr, len: x.len() }
    }

    /// The length in bytes.
    #[verifier::when_used_as_spec(spec_len)]
    pub fn len(&self) -> (r: usize)
        ensures
            r == self.spec_len(),
    {
        self.len
    }

    /// The bytes of the block, read from the arena `a` that holds it.
    pub fn get(&self, a: &Bump) -> (r: Vec<u8>)
        requires
            a.wf(),
            self.spec_len() == 0 || a@.holds(self.spec_ptr() as int, self.spec_len() as int),
        ensures
            r@ == block_bytes(a@, self.spec_ptr() as int, self.spec_len() as int),
    {
        if self.len == 0 {
            Vec::new()
        } else {
            a.read(self.ptr, self.len)
        }
    }

    /// Gives up the box and returns the address of its block, which stays in
    /// the arena until the arena is reset.
    pub fn into_raw(b: Box) -> (r: usize)
        ensures
            r == b.spec_ptr(),
    {
        b.ptr
    }
}

} // verus!
