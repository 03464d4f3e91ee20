//! The arena as a general allocator: allocate, deallocate, grow and shrink
//! blocks described by a layout.
use crate::bump::Bump;
use crate::error::AllocErr;
use crate::layout::{lemma_mask_is_align_down, lemma_pow2_range, Layout};
use crate::model::{
    after_alloc, alloc_owed, alloc_possible, alloc_spec, block_bytes, block_live, filled,
    find_chunk, grow_owed, grow_possible, grow_spec, grow_target, lemma_filled_keeps_used, lemma_find_chunk_holds,
    lemma_find_chunk_unique, lemma_served_in_current, released, served_at, shrink_spec, zeros,
    BumpModel,
};
use vstd::layout::valid_layout;
use vstd::prelude::*;

verus! {

/// A live block that starts at the cursor lies in the current chunk.
proof fn lemma_tail_in_current(m: BumpModel, ptr: int, size: int)
    requires
        m.wf(),
        block_live(m, ptr, size),
        ptr == m.current().cursor,
        size >= 0,
    ensures
        ptr + size <= m.current().top(),
        size > 0 ==> find_chunk(m.chunks, ptr, size) == m.chunks.len() - 1,
{
    let l = m.chunks.len() - 1;
    assert(m.chunks[l].wf());
    if size > 0 {
        lemma_find_chunk_holds(m.chunks, ptr, size);
        let i = find_chunk(m.chunks, ptr, size);
        assert(m.chunks[i].wf());
        if i != l {
            assert(m.chunks[i].end() <= m.chunks[l].base);
        }
    }
}

/// A range in the used part of the current chunk is held by the arena.
proof fn lemma_current_holds(m: BumpModel, addr: int, len: int)
    requires
        m.wf(),
        m.current().holds(addr, len),
    ensures
        m.holds(addr, len),
{
    lemma_find_chunk_unique(m.chunks, addr, len, m.chunks.len() - 1);
}

impl Bump {
    /// Serves `layout`, or reports that the arena could not.
    pub fn allocate(&mut self, layout: Layout) -> (r: Result<usize, AllocErr>)
        requires
            old(self).wf(),
        ensures
            final(self).wf(),
            alloc_spec(old(self)@, layout.size() as int, layout.align() as int, r, final(self)@),
    {
        self.try_alloc_layout(layout)
    }

    /// Serves `layout` with every byte zero, or reports that the arena could
    /// not.
    pub fn allocate_zeroed(&mut self, layout: Layout) -> (r: Result<usize, AllocErr>)
        requires
            old(self).wf(),
        ensures
            final(self).wf(),
            r is Ok ==> {
                &&& alloc_possible(old(self)@, layout.size() as int, layout.align() as int)
                &&& r->Ok_0 == served_at(old(self)@, layout.size() as int, layout.align() as int)
                &&& final(self)@ == filled(
                    after_alloc(old(self)@, layout.size() as int, layout.align() as int),
                    r->Ok_0 as int,
                    zeros(layout.size() as int),
                )
            },
            r is Err ==> final(self)@ == old(self)@ && !alloc_owed(
                old(self)@,
                layout.size() as int,
                layout.align() as int,
            ),
    {
        proof {
            use_type_invariant(&layout);
            lemma_pow2_range(layout.align());
        }
        let p = self.try_alloc_layout(layout)?;
        proof {
            if layout.size() > 0 {
                lemma_served_in_current(old(self)@, layout.size() as int, layout.align() as int);
                lemma_current_holds(self@, p as int, layout.size() as int);
            }
        }
        self.zero_fill(p, layout.size());
        Ok(p)
    }

    /// Gives back the block at `ptr` described by `layout`. The space is
    /// reclaimed where the block is the most recent allocation; otherwise it
    /// stays in use until the arena is reset.
    pub fn deallocate(&mut self, ptr: usize, layout: Layout)
        requires
            old(self).wf(),
            block_live(old(self)@, ptr as int, layout.size() as int),
        ensures
            final(self).wf(),
            final(self)@ == released(old(self)@, ptr as int, layout.size() as int),
    {
        if self.is_last_allocation(ptr) {
            proof {
                lemma_tail_in_current(self@, ptr as int, layout.size() as int);
                assert(self@.current().wf());
            }
            self.set_cursor(ptr + layout.size());
        }
    }

    /// Grows the block at `ptr` from `old_layout` to `new_layout`, keeping
    /// its bytes: in place where it is the most recent allocation and the
    /// extra bytes fit below the cursor, else by a fresh allocation.
    pub fn grow(&mut self, ptr: usize, old_layout: Layout, new_layout: Layout) -> (r: Result<
        usize,
        AllocErr,
    >)
        requires
            old(self).wf(),
            old_layout.size() <= new_layout.size(),
            block_live(old(self)@, ptr as int, old_layout.size() as int),
        ensures
            final(self).wf(),
            grow_spec(
                old(self)@,
                ptr as int,
                old_layout.size() as int,
                new_layout.size() as int,
                new_layout.align() as int,
                false,
                r,
                final(self)@,
            ),
    {
        self.grow_impl(ptr, old_layout, new_layout, false)
    }

    /// Grows the block at `ptr` as `grow` does, and zeroes the added bytes.
    pub fn grow_zeroed(&mut self, ptr: usize, old_layout: Layout, new_layout: Layout) -> (r:
        Result<usize, AllocErr>)
        requires
            old(self).wf(),
            old_layout.size() <= new_layout.size(),
            block_live(old(self)@, ptr as int, old_layout.size() as int),
        ensures
            final(self).wf(),
            grow_spec(
                old(self)@,
                ptr as int,
                old_layout.size() as int,
                new_layout.size() as int,
                new_layout.align() as int,
                true,
                r,
                final(self)@,
            ),
    {
        self.grow_impl(ptr, old_layout, new_layout, true)
    }

    /// Finds the place of a grown block: in place where it is the most recent
    /// allocation and the extra bytes fit below the cursor, else a fresh
    /// allocation.
    fn grow_place(&mut self, ptr: usize, old_size: usize, new_layout: Layout) -> (r: Result<
        usize,
        AllocErr,
    >)
        requires
            old(self).wf(),
            old_size <= new_layout.size(),
            block_live(old(self)@, ptr as int, old_size as int),
        ensures
            final(self).wf(),
            ({
                let (q, m1) = grow_target(
                    old(self)@,
                    ptr as int,
                    old_size as int,
                    new_layout.size() as int,
                    new_layout.align() as int,
                );
                &&& r is Ok ==> {
                    &&& grow_possible(
                        old(self)@,
                        ptr as int,
                        old_size as int,
                        new_layout.size() as int,
                        new_layout.align() as int,
                    )
                    &&& r->Ok_0 == q
                    &&& final(self)@ == m1
                    &&& new_layout.size() > 0 ==> final(self)@.current().holds(
                        q,
                        new_layout.size() as int,
                    )
                }
                &&& r is Err ==> final(self)@ == old(self)@ && !grow_owed(
                    old(self)@,
                    ptr as int,
                    old_size as int,
                    new_layout.size() as int,
                    new_layout.align() as int,
                )
            }),
    {
        proof {
            use_type_invariant(&new_layout);
            lemma_pow2_range(new_layout.align());
        }
        let new_size = new_layout.size();
        let align = new_layout.align();
        let ghost m = self@;
        if self.is_last_allocation(ptr) {
            proof {
                lemma_tail_in_current(m, ptr as int, old_size as int);
            }
            match self.try_alloc_layout_fast(new_size - old_size, align) {
                Some(q) => {
                    proof {
                        assert(m.current().wf());
                        crate::layout::lemma_align_down(
                            m.current().cursor - (new_size - old_size),
                            align as int,
                        );
                    }
                    return Ok(q);
                },
                None => {},
            }
        }
        let q = self.try_alloc_layout(new_layout)?;
        proof {
            if new_size > 0 {
                lemma_served_in_current(m, new_size as int, align as int);
            }
        }
        Ok(q)
    }

    fn grow_impl(&mut self, ptr: usize, old_layout: Layout, new_layout: Layout, zero: bool) -> (r:
        Result<usize, AllocErr>)
        requires
            old(self).wf(),
            old_layout.size() <= new_layout.size(),
            block_live(old(self)@, ptr as int, old_layout.size() as int),
        ensures
            final(self).wf(),
            grow_spec(
                old(self)@,
                ptr as int,
                old_layout.size() as int,
                new_layout.size() as int,
                new_layout.align() as int,
                zero,
                r,
                final(self)@,
            ),
    {
        proof {
            use_type_invariant(&new_layout);
            lemma_pow2_range(new_layout.align());
        }
        let old_size = old_layout.size();
        let new_size = new_layout.size();
        let align = new_layout.align();
        if new_size == old_size && ptr % align == 0 {
            return Ok(ptr);
        }
        let ghost m = self@;
        let bytes = if old_size > 0 {
            self.read(ptr, old_size)
        } else {
            Vec::new()
        };
        assert(bytes@ == block_bytes(m, ptr as int, old_size as int));
        let q = match self.grow_place(ptr, old_size, new_layout) {
            Ok(q) => q,
            Err(e) => return Err(e),
        };
        let ghost m1 = self@;
        proof {
            assert(m1.chunks[m1.chunks.len() - 1].wf());
            if new_size > 0 {
                assert(m1.current().holds(q as int, new_size as int));
                lemma_current_holds(m1, q as int, new_size as int);
                if old_size > 0 {
                    lemma_current_holds(m1, q as int, old_size as int);
                }
            }
        }
        if old_size > 0 {
            self.write(q, bytes.as_slice());
        }
        if zero {
            proof {
                if new_size > old_size {
                    assert(m1.current().holds(q + old_size, new_size - old_size));
                    lemma_current_holds(m1, q + old_size, new_size - old_size);
                    lemma_filled_keeps_used(m1, q as int, bytes@, q + old_size, new_size - old_size);
                }
            }
            self.zero_fill(q + old_size, new_size - old_size);
        }
        Ok(q)
    }

    /// Shrinks the block at `ptr` from `old_layout` to `new_layout`, keeping
    /// its first bytes. The most recent allocation moves up where at least
    /// half of it is given back; any other block stays where it is. An
    /// error where the new alignment is larger than the old one.
    pub fn shrink(&mut self, ptr: usize, old_layout: Layout, new_layout: Layout) -> (r: Result<
        usize,
        AllocErr,
    >)
        requires
            old(self).wf(),
            new_layout.size() <= old_layout.size(),
            block_live(old(self)@, ptr as int, old_layout.size() as int),
        ensures
            final(self).wf(),
            shrink_spec(
                old(self)@,
                ptr as int,
                old_layout.size() as int,
                old_layout.align() as int,
                new_layout.size() as int,
                new_layout.align() as int,
                r,
                final(self)@,
            ),
    {
        proof {
            use_type_invariant(&old_layout);
            use_type_invariant(&new_layout);
            lemma_pow2_range(new_layout.align());
        }
        let old_size = old_layout.size();
        let new_size = new_layout.size();
        let align = new_layout.align();
        if align > old_layout.align() || ptr % align != 0 {
            return Err(AllocErr);
        }
        if self.is_last_allocation(ptr) && new_size <= old_size / 2 {
            let ghost m = self@;
            proof {
                lemma_tail_in_current(m, ptr as int, old_size as int);
                assert(m.current().wf());
                lemma_mask_is_align_down((old_size - new_size) as usize, align);
                crate::layout::lemma_align_down((old_size - new_size) as int, align as int);
            }
            let delta = (old_size - new_size) & !(align - 1);
            let bytes = if new_size > 0 {
                proof {
                    lemma_current_holds(m, ptr as int, new_size as int);
                }
                self.read(ptr, new_size)
            } else {
                Vec::new()
            };
            let q = ptr + delta;
            self.set_cursor(q);
            if new_size > 0 {
                proof {
                    lemma_current_holds(self@, q as int, new_size as int);
                }
                self.write(q, bytes.as_slice());
            }
            return Ok(q);
        }
        Ok(ptr)
    }

    /// Resizes the block at `ptr` described by `layout` to `new_size` bytes
    /// of the same alignment: shrinks it where `new_size` is not larger,
    /// grows it otherwise.
    pub fn realloc(&mut self, ptr: usize, layout: Layout, new_size: usize) -> (r: Result<
        usize,
        AllocErr,
    >)
        requires
            old(self).wf(),
            block_live(old(self)@, ptr as int, layout.size() as int),
            ptr % layout.align() == 0,
            valid_layout(new_size, layout.align()),
        ensures
            final(self).wf(),
            if new_size <= layout.size() {
                shrink_spec(
                    old(self)@,
                    ptr as int,
                    layout.size() as int,
                    layout.align() as int,
                    new_size as int,
                    layout.align() as int,
                    r,
                    final(self)@,
                )
            } else {
                grow_spec(
                    old(self)@,
                    ptr as int,
                    layout.size() as int,
                    new_size as int,
                    layout.align() as int,
                    false,
                    r,
                    final(self)@,
                )
            },
    {
        let new_layout = match Layout::from_size_align(new_size, layout.align()) {
            Ok(l) => l,
            Err(_) => return Err(AllocErr),
        };
        if new_size <= layout.size() {
            self.shrink(ptr, layout, new_layout)
        } else {
            self.grow(ptr, layout, new_layout)
        }
    }
}

} // verus!
