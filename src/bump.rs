//! The arena: its chunks, the fast and slow allocation paths, and reset.
use crate::error::AllocErr;
use crate::layout::{
    lemma_align_down, lemma_mask_is_align_down, lemma_pow2_range, round_up_to, Layout,
};
use crate::model::{
    after_alloc, alloc_possible, alloc_spec, capacity_chunk_size, capacity_fits,
    filled, find_chunk, fresh_chunk, grown_size, initial, lemma_find_chunk_holds,
    lemma_chunk_base_aligned, lemma_find_chunk_unique, lemma_footer_align_pow2,
    lemma_served_in_current, lemma_total_size_same_sizes, placed_chunk,
    served_at, total_size, zeros, BumpModel, ChunkModel, ADDRESS_SPACE_START, DEFAULT_CHUNK_SIZE,
    FOOTER_ALIGN, FOOTER_SIZE,
};
use vstd::arithmetic::power2::is_pow2;
use vstd::prelude::*;
use vstd::string::StringSliceAdditionalSpecFns;

verus! {

/// The chunks' sizes add up to no more than the end of the newest one.
proof fn lemma_total_size_bound(s: Seq<ChunkModel>)
    requires
        s.len() >= 1,
        forall|i: int| 0 <= i < s.len() ==> #[trigger] s[i].wf(),
        forall|i: int, j: int| 0 <= i < j < s.len() ==> #[trigger] s[i].end() <= #[trigger] s[j].base,
    ensures
        0 <= total_size(s) <= s.last().end(),
    decreases s.len(),
{
    if s.len() > 1 {
        let t = s.drop_last();
        assert(t.last() == s[s.len() - 2]);
        assert forall|i: int| 0 <= i < t.len() implies #[trigger] t[i].wf() by {
            assert(t[i] == s[i]);
        }
        assert forall|i: int, j: int| 0 <= i < j < t.len() implies #[trigger] t[i].end()
            <= #[trigger] t[j].base by {
            assert(t[i] == s[i] && t[j] == s[j]);
        }
        lemma_total_size_bound(t);
        assert(s[s.len() - 2].end() <= s[s.len() - 1].base);
        assert(s.last().wf());
        assert(total_size(s) == total_size(t) + s.last().size);
    } else {
        assert(s.drop_last().len() == 0);
        assert(total_size(s.drop_last()) == 0);
        assert(s.last() == s[0] && s[0].wf());
    }
}

/// A grown chunk has room for the request and its bookkeeping.
proof fn lemma_grown_size(prev_size: int, size: int)
    requires
        prev_size >= 0,
        size >= 0,
    ensures
        grown_size(prev_size, size) >= size + FOOTER_SIZE,
        grown_size(prev_size, size) % FOOTER_ALIGN as int == 0,
{
    let least = size + FOOTER_SIZE;
    let want = if 2 * prev_size > least {
        2 * prev_size
    } else {
        least
    };
    lemma_align_down(want + FOOTER_ALIGN - 1, FOOTER_ALIGN as int);
}

/// A served request is held by the arena that results from it.
proof fn lemma_current_held(m: BumpModel, m2: BumpModel, size: int, align: int)
    requires
        m.wf(),
        m2.wf(),
        size > 0,
        align > 0,
        alloc_possible(m, size, align),
        m2 == after_alloc(m, size, align),
    ensures
        m2.holds(served_at(m, size, align), size),
{
    lemma_served_in_current(m, size, align);
    lemma_find_chunk_unique(m2.chunks, served_at(m, size, align), size, m2.chunks.len() - 1);
}

/// A chunk can stand at `base`: aligned, above the start of the address
/// space, its end within it.
pub open spec fn placed_chunk_at(base: int, size: int, align: int) -> bool {
    &&& is_pow2(align)
    &&& align >= FOOTER_ALIGN
    &&& size >= FOOTER_SIZE
    &&& size % FOOTER_ALIGN as int == 0
    &&& base >= ADDRESS_SPACE_START
    &&& base % align == 0
    &&& base + size <= usize::MAX
}

/// The base of a chunk of `size` bytes aligned to `align`, placed at the
/// first suitable address from `after` on.
fn place_chunk(after: usize, size: usize, align: usize) -> (r: Option<usize>)
    requires
        is_pow2(align as int),
        align >= FOOTER_ALIGN,
        size >= FOOTER_SIZE,
        size % FOOTER_ALIGN == 0,
        after >= ADDRESS_SPACE_START,
    ensures
        match placed_chunk(after as int, size as int, align as int) {
            Some(c) => r is Some && c == fresh_chunk(r->Some_0 as int, size as int, align as int)
                && placed_chunk_at(r->Some_0 as int, size as int, align as int),
            None => r is None,
        },
{
    let base = match round_up_to(after, align) {
        Some(b) => b,
        None => return None,
    };
    proof {
        lemma_pow2_range(align);
        lemma_align_down(after + align - 1, align as int);
    }
    match base.checked_add(size) {
        Some(_) => Some(base),
        None => None,
    }
}

/// A chunk of the arena: the bookkeeping that the chunk's footer holds, and
/// the buffer behind its usable addresses.
#[derive(Debug)]
struct Chunk {
    data: Vec<u8>,
    base: usize,
    footer: usize,
    size: usize,
    align: usize,
    ptr: usize,
    end_of_first_allocation: Option<usize>,
}

impl View for Chunk {
    type V = ChunkModel;

    closed spec fn view(&self) -> ChunkModel {
        ChunkModel {
            base: self.base as int,
            size: self.size as int,
            align: self.align as int,
            cursor: self.ptr as int,
            first_end: match self.end_of_first_allocation {
                Some(e) => Some(e as int),
                None => None,
            },
            bytes: self.data@,
        }
    }
}

impl Chunk {
    closed spec fn inv(&self) -> bool {
        &&& self.footer == self.base + self.size - FOOTER_SIZE
        &&& self@.wf()
    }

    /// Acquires a chunk of `size` bytes at `base`. Where `fallible`, a
    /// refusal of the system allocator is an error; otherwise it ends the
    /// process.
    fn new(base: usize, size: usize, align: usize, fallible: bool) -> (r: Result<Chunk, AllocErr>)
        requires
            placed_chunk_at(base as int, size as int, align as int),
        ensures
            r is Ok ==> r->Ok_0.inv() && r->Ok_0@ == fresh_chunk(base as int, size as int, align as int),
            !fallible ==> r is Ok,
    {
        let capacity = size - FOOTER_SIZE;
        let mut data: Vec<u8>;
        if fallible {
            data = Vec::new();
            match data.try_reserve(capacity) {
                Ok(()) => {},
                Err(_) => return Err(AllocErr),
            }
        } else {
            data = Vec::with_capacity(capacity);
        }
        let mut i: usize = 0;
        while i < capacity
            invariant
                i <= capacity,
                data@.len() == i,
                forall|k: int| 0 <= k < i ==> data@[k] == 0u8,
            decreases capacity - i,
        {
            data.push(0u8);
            i = i + 1;
        }
        let footer = base + capacity;
        let chunk = Chunk {
            data,
            base,
            footer,
            size,
            align,
            ptr: footer,
            end_of_first_allocation: None,
        };
        assert(chunk.data@ =~= Seq::new(capacity as nat, |k: int| 0u8));
        assert(chunk@ == fresh_chunk(base as int, size as int, align as int));
        Ok(chunk)
    }

    /// Where the fast path would serve `size` bytes aligned to `align`.
    fn fast_fit(&self, size: usize, align: usize) -> (r: Option<usize>)
        requires
            self.inv(),
            is_pow2(align as int),
        ensures
            r is Some <==> self@.fast_fit(size as int, align as int) is Some,
            r is Some ==> r->Some_0 as int == self@.fast_fit(size as int, align as int)->Some_0,
            r is Some ==> self@.base <= r->Some_0 && r->Some_0 + size <= self@.cursor,
    {
        let ptr = match self.ptr.checked_sub(size) {
            Some(p) => p,
            None => return None,
        };
        proof {
            lemma_pow2_range(align);
            lemma_mask_is_align_down(ptr, align);
            lemma_align_down(ptr as int, align as int);
        }
        let aligned_ptr = ptr & !(align - 1);
        if aligned_ptr >= self.base {
            Some(aligned_ptr)
        } else {
            None
        }
    }

    /// Marks `[p, p + size)` as served: the cursor moves down to `p`.
    fn bump(&mut self, p: usize, size: usize)
        requires
            old(self).inv(),
            old(self)@.base <= p,
            p + size <= old(self)@.cursor,
        ensures
            final(self).inv(),
            final(self)@ == old(self)@.bump_to(p as int, size as int),
    {
        if self.ptr == self.footer {
            self.end_of_first_allocation = Some(p + size);
        }
        self.ptr = p;
    }

    /// The fast path: serves `size` bytes aligned to `align` below the
    /// cursor, where they fit.
    fn try_alloc_fast(&mut self, size: usize, align: usize) -> (r: Option<usize>)
        requires
            old(self).inv(),
            is_pow2(align as int),
        ensures
            final(self).inv(),
            match old(self)@.fast_fit(size as int, align as int) {
                Some(p) => r == Some(p as usize) && final(self)@ == old(self)@.bump_to(
                    p,
                    size as int,
                ),
                None => r is None && final(self)@ == old(self)@,
            },
    {
        match self.fast_fit(size, align) {
            Some(p) => {
                self.bump(p, size);
                Some(p)
            },
            None => None,
        }
    }

    /// Writes `src` at `addr`, in the used part of this chunk.
    fn write_at(&mut self, addr: usize, src: &[u8])
        requires
            old(self).inv(),
            old(self)@.holds(addr as int, src@.len() as int),
        ensures
            final(self).inv(),
            final(self)@ == old(self)@.written(addr as int, src@),
    {
        let off = addr - self.base;
        let mut k: usize = 0;
        while k < src.len()
            invariant
                self.inv(),
                self.base == old(self).base && self.footer == old(self).footer,
                self.size == old(self).size && self.align == old(self).align,
                self.ptr == old(self).ptr,
                self.end_of_first_allocation == old(self).end_of_first_allocation,
                old(self)@.holds(addr as int, src@.len() as int),
                off == addr - self.base,
                k <= src@.len(),
                self.data@.len() == old(self).data@.len(),
                forall|j: int|
                    0 <= j < self.data@.len() ==> #[trigger] self.data@[j] == if off <= j < off + k {
                        src@[j - off]
                    } else {
                        old(self).data@[j]
                    },
            decreases src@.len() - k,
        {
            self.data.set(off + k, src[k]);
            k = k + 1;
        }
        assert(self.data@ =~= old(self).data@.take(off as int) + src@ + old(self).data@.skip(
            off + src@.len(),
        ));
    }
}

/// A bump-allocation arena.
#[derive(Debug)]
pub struct Bump {
    /// The chunks, oldest first; the last one is the current chunk.
    chunks: Vec<Chunk>,
    allocation_limit: Option<usize>,
    allocated_bytes: usize,
}

impl View for Bump {
    type V = BumpModel;

    closed spec fn view(&self) -> BumpModel {
        BumpModel { chunks: self.chunks@.map_values(|c: Chunk| c@), limit: self.allocation_limit }
    }
}

impl Bump {
    /// The arena is well formed: its model is, and the bookkeeping agrees
    /// with it.
    pub open spec fn wf(&self) -> bool {
        self@.wf() && self.inv()
    }

    pub closed spec fn inv(&self) -> bool {
        &&& forall|i: int| 0 <= i < self.chunks@.len() ==> (#[trigger] self.chunks@[i]).inv()
        &&& self.allocated_bytes == self@.allocated()
    }

    /// A fresh arena whose single chunk is the one given.
    fn with_chunk(chunk: Chunk) -> (r: Bump)
        requires
            chunk.inv(),
        ensures
            r.wf(),
            r@ == (BumpModel { chunks: seq![chunk@], limit: None }),
    {
        let size = chunk.size;
        let mut chunks: Vec<Chunk> = Vec::new();
        chunks.push(chunk);
        let r = Bump { chunks, allocation_limit: None, allocated_bytes: size };
        assert(r@.chunks =~= seq![chunk@]);
        assert(total_size(seq![chunk@]) == chunk@.size) by {
            assert(seq![chunk@].drop_last() =~= Seq::<ChunkModel>::empty());
            assert(total_size(Seq::<ChunkModel>::empty()) == 0);
        }
        r
    }

    /// The index of the current chunk.
    fn last(&self) -> (r: usize)
        requires
            self.wf(),
        ensures
            r == self@.chunks.len() - 1,
    {
        self.chunks.len() - 1
    }

    /// The fast path on the current chunk.
    pub(crate) fn try_alloc_layout_fast(&mut self, size: usize, align: usize) -> (r: Option<usize>)
        requires
            old(self).wf(),
            is_pow2(align as int),
        ensures
            final(self).wf(),
            match old(self)@.current().fast_fit(size as int, align as int) {
                Some(p) => r == Some(p as usize) && final(self)@ == old(self)@.with_current(
                    old(self)@.current().bump_to(p, size as int),
                ),
                None => r is None && final(self)@ == old(self)@,
            },
    {
        let last = self.last();
        let ghost old_chunks = self.chunks@;
        let r = self.chunks[last].try_alloc_fast(size, align);
        proof {
            assert(old_chunks[last as int]@ == old(self)@.current());
            assert(self.chunks@ == old_chunks.update(last as int, self.chunks@[last as int]));
            assert(self@.chunks =~= old(self)@.chunks.update(last as int, self.chunks@[last as int]@));
            assert forall|i: int| 0 <= i < self.chunks@.len() implies (#[trigger] self.chunks@[i]).inv() by {
                if i != last {
                    assert(self.chunks@[i] == old_chunks[i]);
                }
            }
            if r is Some {
                assert(self@ == old(self)@.with_current(self.chunks@[last as int]@));
                let c = self.chunks@[last as int]@;
                assert forall|i: int, j: int|
                    0 <= i < j < self@.chunks.len() implies #[trigger] self@.chunks[i].end()
                    <= #[trigger] self@.chunks[j].base by {
                    assert(old(self)@.chunks[i].end() <= old(self)@.chunks[j].base);
                }
                assert(self@.allocated() == old(self)@.allocated()) by {
                    assert(self@.chunks.drop_last() =~= old(self)@.chunks.drop_last());
                }
            } else {
                assert(self@.chunks =~= old(self)@.chunks);
            }
        }
        r
    }

    /// The size of the chunk that the slow path acquires for a request of
    /// `size` bytes, where that neither overflows nor breaks the limit.
    fn next_chunk_size(&self, size: usize) -> (r: Option<usize>)
        requires
            self.wf(),
        ensures
            ({
                let s = grown_size(self@.current().size, size as int);
                &&& r is Some <==> s <= usize::MAX && self@.admits(s)
                &&& r is Some ==> r->Some_0 == s
            }),
    {
        let last = self.last();
        assert(self.chunks@[last as int]@ == self@.current());
        let prev_size = self.chunks[last].size;
        let ghost least_int = size + FOOTER_SIZE;
        let ghost want_int = if 2 * prev_size > least_int {
            2 * prev_size
        } else {
            least_int
        };
        proof {
            lemma_align_down(want_int + FOOTER_ALIGN - 1, FOOTER_ALIGN as int);
            lemma_footer_align_pow2();
        }
        let doubled = match prev_size.checked_mul(2) {
            Some(d) => d,
            None => return None,
        };
        let least = match size.checked_add(FOOTER_SIZE) {
            Some(l) => l,
            None => return None,
        };
        let want = if doubled > least {
            doubled
        } else {
            least
        };
        let new_size = match round_up_to(want, FOOTER_ALIGN) {
            Some(n) => n,
            None => return None,
        };
        match self.allocation_limit {
            Some(limit) => match self.allocated_bytes.checked_add(new_size) {
                Some(total) => {
                    if total > limit {
                        return None;
                    }
                },
                None => return None,
            },
            None => {},
        }
        Some(new_size)
    }

    /// The chunk that the slow path acquires for a request of `size` bytes
    /// aligned to `align`: its base, size and alignment.
    fn next_chunk(&self, size: usize, align: usize) -> (r: Option<(usize, usize, usize)>)
        requires
            self.wf(),
            is_pow2(align as int),
        ensures
            match self@.next_chunk(size as int, align as int) {
                Some(c) => r is Some && c == fresh_chunk(
                    r->Some_0.0 as int,
                    r->Some_0.1 as int,
                    r->Some_0.2 as int,
                ) && placed_chunk_at(r->Some_0.0 as int, r->Some_0.1 as int, r->Some_0.2 as int),
                None => r is None,
            },
    {
        let new_size = match self.next_chunk_size(size) {
            Some(n) => n,
            None => return None,
        };
        let new_align = if align > FOOTER_ALIGN {
            align
        } else {
            FOOTER_ALIGN
        };
        let last = self.last();
        assert(self.chunks@[last as int]@ == self@.current());
        let prev_end = self.chunks[last].base + self.chunks[last].size;
        proof {
            lemma_footer_align_pow2();
            lemma_grown_size(self@.current().size, size as int);
        }
        match place_chunk(prev_end, new_size, new_align) {
            Some(base) => Some((base, new_size, new_align)),
            None => None,
        }
    }

    /// Makes `chunk` the current chunk.
    fn push_chunk(&mut self, chunk: Chunk)
        requires
            old(self).wf(),
            chunk.inv(),
            chunk@.first_end is Some,
            old(self)@.current().end() <= chunk@.base,
        ensures
            final(self).wf(),
            final(self)@ == (BumpModel { chunks: old(self)@.chunks.push(chunk@), ..old(self)@ }),
    {
        proof {
            lemma_total_size_bound(self@.chunks);
        }
        let size = chunk.size;
        let ghost old_chunks = self.chunks@;
        self.chunks.push(chunk);
        self.allocated_bytes = self.allocated_bytes + size;
        proof {
            let m = old(self)@;
            let m2 = self@;
            assert(m2.chunks =~= m.chunks.push(chunk@));
            assert(m2.chunks.drop_last() =~= m.chunks);
            assert forall|i: int| 0 <= i < self.chunks@.len() implies (#[trigger] self.chunks@[i]).inv() by {
                if i < old_chunks.len() {
                    assert(self.chunks@[i] == old_chunks[i]);
                }
            }
            assert forall|i: int, j: int|
                0 <= i < j < m2.chunks.len() implies #[trigger] m2.chunks[i].end()
                <= #[trigger] m2.chunks[j].base by {
                if j < m.chunks.len() {
                    assert(m.chunks[i].end() <= m.chunks[j].base);
                } else if i < m.chunks.len() - 1 {
                    assert(m.chunks[i].end() <= m.chunks[m.chunks.len() - 1].base);
                    assert(m.chunks[m.chunks.len() - 1].wf());
                }
            }
            assert forall|i: int| 0 <= i < m2.chunks.len() implies #[trigger] m2.chunks[i].wf() by {
                if i < m.chunks.len() {
                    assert(m2.chunks[i] == m.chunks[i]);
                }
            }
            assert forall|i: int| 0 < i < m2.chunks.len() implies #[trigger] m2.chunks[i].first_end is Some by {
                if i < m.chunks.len() {
                    assert(m2.chunks[i] == m.chunks[i]);
                }
            }
        }
    }

    /// The slow path: acquires a chunk sized for the request, makes it
    /// current and serves the request from it.
    fn alloc_layout_slow(&mut self, size: usize, align: usize, fallible: bool) -> (r: Option<usize>)
        requires
            old(self).wf(),
            is_pow2(align as int),
        ensures
            final(self).wf(),
            match old(self)@.next_chunk(size as int, align as int) {
                None => r is None && final(self)@ == old(self)@,
                Some(c) => (fallible && r is None && final(self)@ == old(self)@) || (r == Some(
                    old(self)@.slow_fit(c, size as int, align as int) as usize,
                ) && final(self)@ == old(self)@.grown_with(c, size as int, align as int)),
            },
    {
        let (base, new_size, new_align) = match self.next_chunk(size, align) {
            Some(plan) => plan,
            None => return None,
        };
        let mut chunk = match Chunk::new(base, new_size, new_align, fallible) {
            Ok(c) => c,
            Err(_) => return None,
        };
        let ghost c = chunk@;
        proof {
            lemma_pow2_range(align);
            lemma_grown_size(self@.current().size, size as int);
            lemma_chunk_base_aligned(c.base, align as int);
            lemma_align_down(c.top() - size, align as int);
        }
        let start = chunk.footer - size;
        proof {
            lemma_mask_is_align_down(start, align);
        }
        let p = start & !(align - 1);
        chunk.bump(p, size);
        self.push_chunk(chunk);
        Some(p)
    }

    /// Serves `layout`, or reports that the arena could not.
    ///
    /// A request of size zero is served at its alignment and takes no space.
    /// A request that fits below the current chunk's cursor is always served.
    /// Otherwise the arena acquires a new chunk, which fails where its size or
    /// place overflows, where the limit forbids it, or where the system
    /// allocator refuses; the arena is then unchanged.
    pub fn try_alloc_layout(&mut self, layout: Layout) -> (r: Result<usize, AllocErr>)
        requires
            old(self).wf(),
        ensures
            final(self).wf(),
            alloc_spec(old(self)@, layout.size() as int, layout.align() as int, r, final(self)@),
    {
        proof {
            use_type_invariant(&layout);
        }
        let size = layout.size();
        let align = layout.align();
        if size == 0 {
            return Ok(align);
        }
        match self.try_alloc_layout_fast(size, align) {
            Some(p) => Ok(p),
            None => match self.alloc_layout_slow(size, align, true) {
                Some(p) => Ok(p),
                None => Err(AllocErr),
            },
        }
    }

    /// Serves `layout`. The request must be within the arena's bounds; a
    /// refusal of the system allocator ends the process.
    pub fn alloc_layout(&mut self, layout: Layout) -> (r: usize)
        requires
            old(self).wf(),
            alloc_possible(old(self)@, layout.size() as int, layout.align() as int),
        ensures
            final(self).wf(),
            alloc_spec(old(self)@, layout.size() as int, layout.align() as int, Ok(r), final(self)@),
    {
        proof {
            use_type_invariant(&layout);
        }
        let size = layout.size();
        let align = layout.align();
        if size == 0 {
            return align;
        }
        match self.try_alloc_layout_fast(size, align) {
            Some(p) => p,
            None => {
                let r = self.alloc_layout_slow(size, align, false);
                r.unwrap()
            },
        }
    }

    /// Can `layout` be served without the system allocator's say: does it
    /// fit, or is a new chunk for it within bounds?
    pub fn can_alloc_layout(&self, layout: Layout) -> (r: bool)
        requires
            self.wf(),
        ensures
            r == alloc_possible(self@, layout.size() as int, layout.align() as int),
    {
        proof {
            use_type_invariant(&layout);
        }
        let size = layout.size();
        let align = layout.align();
        if size == 0 {
            return true;
        }
        let last = self.last();
        assert(self.chunks@[last as int]@ == self@.current());
        self.chunks[last].fast_fit(size, align).is_some() || self.next_chunk(size, align).is_some()
    }

    /// A new arena whose single chunk has `size` bytes.
    fn first(size: usize, fallible: bool) -> (r: Result<Bump, AllocErr>)
        requires
            size >= FOOTER_SIZE,
            size % FOOTER_ALIGN == 0,
            ADDRESS_SPACE_START + size <= usize::MAX,
        ensures
            r is Ok ==> r->Ok_0.wf() && r->Ok_0@ == initial(size as int),
            !fallible ==> r is Ok,
    {
        proof {
            lemma_footer_align_pow2();
        }
        let chunk = Chunk::new(ADDRESS_SPACE_START, size, FOOTER_ALIGN, fallible)?;
        let r = Bump::with_chunk(chunk);
        assert(r@ == initial(size as int));
        Ok(r)
    }

    /// A new arena with a small first chunk.
    pub fn new() -> (r: Bump)
        ensures
            r.wf(),
            r@ == initial(DEFAULT_CHUNK_SIZE as int),
    {
        let r = Bump::first(DEFAULT_CHUNK_SIZE, false);
        r.unwrap()
    }

    /// A new arena with a small first chunk; an error where the system
    /// allocator refuses it.
    pub fn try_new() -> (r: Result<Bump, AllocErr>)
        ensures
            r is Ok ==> r->Ok_0.wf() && r->Ok_0@ == initial(DEFAULT_CHUNK_SIZE as int),
    {
        Bump::first(DEFAULT_CHUNK_SIZE, true)
    }

    /// The size of a first chunk with room for `capacity` bytes.
    fn capacity_size(capacity: usize) -> (r: Option<usize>)
        ensures
            r is Some <==> capacity_fits(capacity as int),
            r is Some ==> r->Some_0 == capacity_chunk_size(capacity as int),
    {
        proof {
            lemma_footer_align_pow2();
        }
        let least = match capacity.checked_add(FOOTER_SIZE) {
            Some(l) => l,
            None => return None,
        };
        let size = match round_up_to(least, FOOTER_ALIGN) {
            Some(s) => s,
            None => return None,
        };
        if size > usize::MAX - ADDRESS_SPACE_START {
            return None;
        }
        Some(size)
    }

    /// A new arena whose first chunk has room for `capacity` bytes.
    pub fn with_capacity(capacity: usize) -> (r: Bump)
        requires
            capacity_fits(capacity as int),
        ensures
            r.wf(),
            r@ == initial(capacity_chunk_size(capacity as int)),
    {
        let size = Bump::capacity_size(capacity).unwrap();
        proof {
            lemma_align_down(capacity + FOOTER_SIZE + FOOTER_ALIGN - 1, FOOTER_ALIGN as int);
        }
        Bump::first(size, false).unwrap()
    }

    /// A new arena whose first chunk has room for `capacity` bytes; an error
    /// where that does not fit the address space or the system allocator
    /// refuses it.
    pub fn try_with_capacity(capacity: usize) -> (r: Result<Bump, AllocErr>)
        ensures
            !capacity_fits(capacity as int) ==> r is Err,
            r is Ok ==> r->Ok_0.wf() && r->Ok_0@ == initial(capacity_chunk_size(capacity as int)),
    {
        let size = match Bump::capacity_size(capacity) {
            Some(s) => s,
            None => return Err(AllocErr),
        };
        proof {
            lemma_align_down(capacity + FOOTER_SIZE + FOOTER_ALIGN - 1, FOOTER_ALIGN as int);
        }
        Bump::first(size, true)
    }

    /// A new arena with a small first chunk and the given limit.
    pub fn with_allocation_limit(limit: usize) -> (r: Bump)
        ensures
            r.wf(),
            r@ == (BumpModel { limit: Some(limit), ..initial(DEFAULT_CHUNK_SIZE as int) }),
    {
        let mut r = Bump::new();
        r.set_allocation_limit(Some(limit));
        r
    }

    /// Sets or removes the bound on the bytes taken from the system
    /// allocator. A bound below what is already taken reclaims nothing; it
    /// only stops further growth.
    pub fn set_allocation_limit(&mut self, limit: Option<usize>)
        requires
            old(self).wf(),
        ensures
            final(self).wf(),
            final(self)@ == (BumpModel { limit, ..old(self)@ }),
    {
        self.allocation_limit = limit;
        proof {
            assert(self@.chunks == old(self)@.chunks);
        }
    }

    /// The bound on the bytes taken from the system allocator, if any.
    pub fn allocation_limit(&self) -> (r: Option<usize>)
        ensures
            r == self@.limit,
    {
        self.allocation_limit
    }

    /// The bytes taken from the system allocator: the sum of the sizes of
    /// the arena's chunks, bookkeeping included.
    pub fn allocated_bytes(&self) -> (r: usize)
        requires
            self.wf(),
        ensures
            r == self@.allocated(),
    {
        self.allocated_bytes
    }

    /// The bytes still free in the current chunk, below its cursor.
    pub fn chunk_capacity(&self) -> (r: usize)
        requires
            self.wf(),
        ensures
            r == self@.current().cursor - self@.current().base,
    {
        let last = self.last();
        assert(self.chunks@[last as int]@ == self@.current());
        assert(self@.current().wf());
        self.chunks[last].ptr - self.chunks[last].base
    }

    /// Frees every chunk but the current one and empties that: every
    /// allocation ends, the limit stays.
    pub fn reset(&mut self)
        requires
            old(self).wf(),
        ensures
            final(self).wf(),
            final(self)@ == old(self)@.reset(),
    {
        let mut current = self.chunks.pop().unwrap();
        proof {
            assert(current@ == old(self)@.current());
            assert(old(self).chunks@[old(self).chunks@.len() - 1] == current);
        }
        current.ptr = current.footer;
        current.end_of_first_allocation = None;
        let size = current.size;
        self.chunks.clear();
        self.chunks.push(current);
        self.allocated_bytes = size;
        proof {
            assert(self@.chunks =~= seq![current@]);
            assert(current@ == old(self)@.current().emptied());
            assert(total_size(seq![current@]) == current@.size) by {
                assert(seq![current@].drop_last() =~= Seq::<ChunkModel>::empty());
                assert(total_size(Seq::<ChunkModel>::empty()) == 0);
            }
        }
    }

    /// The index of the newest chunk whose used part holds `[addr, addr + len)`.
    fn find(&self, addr: usize, len: usize) -> (r: usize)
        requires
            self.wf(),
            self@.holds(addr as int, len as int),
        ensures
            r == find_chunk(self@.chunks, addr as int, len as int),
            r < self@.chunks.len(),
            self@.chunks[r as int].holds(addr as int, len as int),
    {
        let mut i: usize = self.chunks.len();
        assert(self@.chunks.take(i as int) =~= self@.chunks);
        proof {
            lemma_find_chunk_holds(self@.chunks, addr as int, len as int);
        }
        while i > 0
            invariant
                self.wf(),
                self@.holds(addr as int, len as int),
                i <= self@.chunks.len(),
                find_chunk(self@.chunks, addr as int, len as int) == find_chunk(
                    self@.chunks.take(i as int),
                    addr as int,
                    len as int,
                ),
            decreases i,
        {
            let ghost t = self@.chunks.take(i as int);
            assert(t.last() == self@.chunks[i - 1]);
            assert(self.chunks@[i - 1]@ == self@.chunks[i - 1]);
            let c = &self.chunks[i - 1];
            if c.ptr <= addr && len <= c.footer && addr <= c.footer - len {
                return i - 1;
            }
            assert(t.drop_last() =~= self@.chunks.take(i - 1));
            i = i - 1;
        }
        assert(self@.chunks.take(0) =~= Seq::<ChunkModel>::empty());
        0
    }

    /// The bytes at `[addr, addr + len)`, which must lie in the used part of
    /// a chunk.
    pub fn read(&self, addr: usize, len: usize) -> (r: Vec<u8>)
        requires
            self.wf(),
            self@.holds(addr as int, len as int),
        ensures
            r@ == self@.bytes_at(addr as int, len as int),
            r@.len() == len,
    {
        let i = self.find(addr, len);
        let c = &self.chunks[i];
        proof {
            assert(c@ == self@.chunks[i as int]);
            assert(c@.wf());
        }
        let off = addr - c.base;
        let mut out: Vec<u8> = Vec::with_capacity(len);
        let mut k: usize = 0;
        while k < len
            invariant
                c.inv(),
                c@.holds(addr as int, len as int),
                off == addr - c@.base,
                k <= len,
                out@ =~= c@.bytes_at(addr as int, k as int),
            decreases len - k,
        {
            out.push(c.data[off + k]);
            k = k + 1;
        }
        out
    }

    /// Writes `src` at `addr`; the range must lie in the used part of a chunk.
    pub fn write(&mut self, addr: usize, src: &[u8])
        requires
            old(self).wf(),
            old(self)@.holds(addr as int, src@.len() as int),
        ensures
            final(self).wf(),
            final(self)@ == old(self)@.written(addr as int, src@),
    {
        let i = self.find(addr, src.len());
        let ghost old_chunks = self.chunks@;
        proof {
            assert(self.chunks@[i as int]@ == self@.chunks[i as int]);
        }
        self.chunks[i].write_at(addr, src);
        proof {
            let m = old(self)@;
            let m2 = self@;
            assert(self.chunks@ == old_chunks.update(i as int, self.chunks@[i as int]));
            assert(m2.chunks =~= m.chunks.update(i as int, m.chunks[i as int].written(addr as int, src@)));
            assert forall|j: int| 0 <= j < self.chunks@.len() implies (#[trigger] self.chunks@[j]).inv() by {
                if j != i {
                    assert(self.chunks@[j] == old_chunks[j]);
                }
            }
            assert forall|j: int| 0 <= j < m2.chunks.len() implies #[trigger] m2.chunks[j].wf() by {
                assert(m.chunks[j].wf());
            }
            assert forall|a: int, b: int|
                0 <= a < b < m2.chunks.len() implies #[trigger] m2.chunks[a].end()
                <= #[trigger] m2.chunks[b].base by {
                assert(m.chunks[a].end() <= m.chunks[b].base);
            }
            assert forall|j: int| 0 < j < m2.chunks.len() implies #[trigger] m2.chunks[j].first_end is Some by {
                assert(m.chunks[j].first_end is Some);
            }
            lemma_total_size_same_sizes(m.chunks, m2.chunks);
        }
    }

    /// Is `ptr` the cursor of the current chunk, where the most recent
    /// allocation starts?
    pub fn is_last_allocation(&self, ptr: usize) -> (r: bool)
        requires
            self.wf(),
        ensures
            r == (ptr == self@.current().cursor),
    {
        let last = self.last();
        assert(self.chunks@[last as int]@ == self@.current());
        self.chunks[last].ptr == ptr
    }

    /// Moves the current chunk's cursor to `to`.
    pub(crate) fn set_cursor(&mut self, to: usize)
        requires
            old(self).wf(),
            old(self)@.current().base <= to <= old(self)@.current().top(),
            old(self)@.current().first_end is None ==> to == old(self)@.current().top(),
        ensures
            final(self).wf(),
            final(self)@ == old(self)@.with_current(old(self)@.current().with_cursor(to as int)),
    {
        let last = self.last();
        let ghost old_chunks = self.chunks@;
        proof {
            assert(old_chunks[last as int]@ == old(self)@.current());
        }
        self.chunks[last].ptr = to;
        proof {
            let m = old(self)@;
            let m2 = self@;
            assert(self.chunks@ == old_chunks.update(last as int, self.chunks@[last as int]));
            assert(m2.chunks =~= m.chunks.update(last as int, m.current().with_cursor(to as int)));
            assert forall|j: int| 0 <= j < self.chunks@.len() implies (#[trigger] self.chunks@[j]).inv() by {
                if j != last {
                    assert(self.chunks@[j] == old_chunks[j]);
                }
            }
            assert forall|j: int| 0 <= j < m2.chunks.len() implies #[trigger] m2.chunks[j].wf() by {
                assert(m.chunks[j].wf());
            }
            assert forall|a: int, b: int|
                0 <= a < b < m2.chunks.len() implies #[trigger] m2.chunks[a].end()
                <= #[trigger] m2.chunks[b].base by {
                assert(m.chunks[a].end() <= m.chunks[b].base);
            }
            assert forall|j: int| 0 < j < m2.chunks.len() implies #[trigger] m2.chunks[j].first_end is Some by {
                assert(m.chunks[j].first_end is Some);
            }
            lemma_total_size_same_sizes(m.chunks, m2.chunks);
        }
    }

    /// Serves one byte holding `val`.
    pub fn alloc_byte(&mut self, val: u8) -> (r: usize)
        requires
            old(self).wf(),
            alloc_possible(old(self)@, 1, 1),
        ensures
            final(self).wf(),
            r == served_at(old(self)@, 1, 1),
            final(self)@ == after_alloc(old(self)@, 1, 1).written(r as int, seq![val]),
    {
        let mut v: Vec<u8> = Vec::new();
        v.push(val);
        self.alloc_slice_copy(v.as_slice())
    }

    /// Serves one byte holding `val`, or reports that the arena could not.
    pub fn try_alloc(&mut self, val: u8) -> (r: Result<usize, AllocErr>)
        requires
            old(self).wf(),
        ensures
            final(self).wf(),
            r is Ok ==> alloc_possible(old(self)@, 1, 1) && r->Ok_0 == served_at(old(self)@, 1, 1)
                && final(self)@ == after_alloc(old(self)@, 1, 1).written(r->Ok_0 as int, seq![val]),
            r is Err ==> final(self)@ == old(self)@ && !crate::model::alloc_owed(old(self)@, 1, 1),
    {
        let layout = Layout::for_bytes(1);
        let p = self.try_alloc_layout(layout)?;
        let mut v: Vec<u8> = Vec::new();
        v.push(val);
        proof {
            lemma_current_held(old(self)@, self@, 1, 1);
        }
        self.write(p, v.as_slice());
        assert(v@ == seq![val]);
        Ok(p)
    }

    /// Serves a copy of `src`.
    pub fn alloc_slice_copy(&mut self, src: &[u8]) -> (r: usize)
        requires
            old(self).wf(),
            src@.len() <= isize::MAX,
            alloc_possible(old(self)@, src@.len() as int, 1),
        ensures
            final(self).wf(),
            r == served_at(old(self)@, src@.len() as int, 1),
            final(self)@ == filled(after_alloc(old(self)@, src@.len() as int, 1), r as int, src@),
    {
        let layout = Layout::for_bytes(src.len());
        let p = self.alloc_layout(layout);
        if src.len() > 0 {
            proof {
                lemma_current_held(old(self)@, self@, src@.len() as int, 1);
            }
            self.write(p, src);
        }
        p
    }

    /// Serves one byte holding the value that `f` returns.
    pub fn alloc_with<F: FnOnce() -> u8>(&mut self, f: F) -> (r: usize)
        requires
            old(self).wf(),
            alloc_possible(old(self)@, 1, 1),
            f.requires(()),
        ensures
            final(self).wf(),
            r == served_at(old(self)@, 1, 1),
            exists|v: u8|
                f.ensures((), v) && final(self)@ == after_alloc(old(self)@, 1, 1).written(
                    r as int,
                    seq![v],
                ),
    {
        let v = f();
        self.alloc_byte(v)
    }

    /// Serves `len` bytes, the one at index `i` holding `f(i)`.
    pub fn alloc_slice_fill_with<F: Fn(usize) -> u8>(&mut self, len: usize, f: F) -> (r: usize)
        requires
            old(self).wf(),
            len <= isize::MAX,
            alloc_possible(old(self)@, len as int, 1),
            forall|i: usize| i < len ==> f.requires((i,)),
        ensures
            final(self).wf(),
            r == served_at(old(self)@, len as int, 1),
            exists|s: Seq<u8>|
                {
                    &&& s.len() == len
                    &&& forall|i: int| 0 <= i < len ==> f.ensures((i as usize,), #[trigger] s[i])
                    &&& final(self)@ == filled(after_alloc(old(self)@, len as int, 1), r as int, s)
                },
    {
        let mut v: Vec<u8> = Vec::with_capacity(len);
        let mut k: usize = 0;
        while k < len
            invariant
                k <= len,
                v@.len() == k,
                forall|i: usize| i < len ==> f.requires((i,)),
                forall|i: int| 0 <= i < k ==> f.ensures((i as usize,), #[trigger] v@[i]),
            decreases len - k,
        {
            let b = f(k);
            v.push(b);
            k = k + 1;
        }
        self.alloc_slice_copy(v.as_slice())
    }

    /// Serves `len` bytes, each holding `value`.
    pub fn alloc_slice_fill_copy(&mut self, len: usize, value: u8) -> (r: usize)
        requires
            old(self).wf(),
            len <= isize::MAX,
            alloc_possible(old(self)@, len as int, 1),
        ensures
            final(self).wf(),
            r == served_at(old(self)@, len as int, 1),
            final(self)@ == filled(
                after_alloc(old(self)@, len as int, 1),
                r as int,
                Seq::new(len as nat, |i: int| value),
            ),
    {
        let mut v: Vec<u8> = Vec::with_capacity(len);
        let mut k: usize = 0;
        while k < len
            invariant
                k <= len,
                v@ =~= Seq::new(k as nat, |i: int| value),
            decreases len - k,
        {
            v.push(value);
            k = k + 1;
        }
        self.alloc_slice_copy(v.as_slice())
    }

    /// Serves a copy of the bytes of `s`.
    pub fn alloc_str(&mut self, s: &str) -> (r: usize)
        requires
            old(self).wf(),
            s.spec_bytes().len() <= isize::MAX,
            alloc_possible(old(self)@, s.spec_bytes().len() as int, 1),
        ensures
            final(self).wf(),
            r == served_at(old(self)@, s.spec_bytes().len() as int, 1),
            final(self)@ == filled(
                after_alloc(old(self)@, s.spec_bytes().len() as int, 1),
                r as int,
                s.spec_bytes(),
            ),
    {
        self.alloc_slice_copy(s.as_bytes())
    }

    /// Writes `len` zero bytes at `addr`, where there are any.
    pub(crate) fn zero_fill(&mut self, addr: usize, len: usize)
        requires
            old(self).wf(),
            len == 0 || old(self)@.holds(addr as int, len as int),
        ensures
            final(self).wf(),
            final(self)@ == filled(old(self)@, addr as int, zeros(len as int)),
    {
        if len > 0 {
            let mut v: Vec<u8> = Vec::with_capacity(len);
            let mut k: usize = 0;
            while k < len
                invariant
                    k <= len,
                    v@ =~= zeros(k as int),
                decreases len - k,
            {
                v.push(0u8);
                k = k + 1;
            }
            self.write(addr, v.as_slice());
        }
    }

    /// The used range of each chunk, newest chunk first: its start and its
    /// bytes, from the cursor to the end of the chunk's first allocation.
    /// The bytes may include padding between allocations. A chunk that has
    /// served nothing yet ends the list.
    pub fn iter_allocated_chunks(&self) -> (r: Vec<(usize, Vec<u8>)>)
        requires
            self.wf(),
        ensures
            r@.len() == self@.used_chunk_count(),
            forall|k: int|
                0 <= k < r@.len() ==> {
                    let c = #[trigger] self@.chunks[self@.chunks.len() - 1 - k];
                    r@[k].0 == c.cursor && r@[k].1@ == c.used_bytes()
                },
    {
        let mut out: Vec<(usize, Vec<u8>)> = Vec::new();
        let mut i: usize = self.chunks.len();
        while i > 0
            invariant
                self.wf(),
                i <= self@.chunks.len(),
                out@.len() == self@.chunks.len() - i,
                forall|j: int| i <= j < self@.chunks.len() ==> self@.chunks[j].first_end is Some,
                forall|k: int|
                    0 <= k < out@.len() ==> {
                        let c = #[trigger] self@.chunks[self@.chunks.len() - 1 - k];
                        out@[k].0 == c.cursor && out@[k].1@ == c.used_bytes()
                    },
            decreases i,
        {
            let c = &self.chunks[i - 1];
            proof {
                assert(c@ == self@.chunks[i - 1]);
                assert(c@.wf());
            }
            match c.end_of_first_allocation {
                Some(e) => {
                    let len = if e > c.ptr {
                        e - c.ptr
                    } else {
                        0
                    };
                    let mut bytes: Vec<u8> = Vec::with_capacity(len);
                    let off = c.ptr - c.base;
                    let mut k: usize = 0;
                    while k < len
                        invariant
                            c.inv(),
                            c@.first_end == Some(e as int),
                            len == (if e > c.ptr { e - c.ptr } else { 0 }),
                            off == c.ptr - c.base,
                            k <= len,
                            bytes@ =~= c@.bytes_at(c.ptr as int, k as int),
                        decreases len - k,
                    {
                        bytes.push(c.data[off + k]);
                        k = k + 1;
                    }
                    out.push((c.ptr, bytes));
                },
                None => {
                    proof {
                        assert(i - 1 == 0);
                    }
                    return out;
                },
            }
            i = i - 1;
        }
        out
    }
}

impl Default for Bump {
    /// A new arena with a small first chunk.
    fn default() -> (r: Bump)
        ensures
            r.wf(),
            r@ == initial(DEFAULT_CHUNK_SIZE as int),
    {
        Bump::new()
    }
}

} // verus!
