//! The mathematical model of an arena: its chunks, their cursors and bytes.
use crate::layout::{align_down, align_up};
use vstd::arithmetic::power2::is_pow2;
use vstd::prelude::*;

verus! {

/// Bytes of bookkeeping at the top of each chunk, counted in its size.
pub const FOOTER_SIZE: usize = 48;

/// The alignment of a chunk's bookkeeping, and the least alignment of a chunk.
pub const FOOTER_ALIGN: usize = 8;

/// The bytes that a system allocator typically keeps for itself per block.
pub const MALLOC_OVERHEAD: usize = 16;

/// The size of the chunk that a new arena starts with, bookkeeping included.
pub const DEFAULT_CHUNK_SIZE: usize = 512 - MALLOC_OVERHEAD;

/// The lowest address of an arena's address space: no chunk starts below
/// it, so no allocation is ever served at address zero.
pub const ADDRESS_SPACE_START: usize = 4096;

/// One chunk: the addresses `[base, base + size)`, of which the top
/// `FOOTER_SIZE` are bookkeeping. Allocations are served downward from the
/// top; `[cursor, top)` is in use and `[base, cursor)` is free.
pub struct ChunkModel {
    pub base: int,
    pub size: int,
    pub align: int,
    pub cursor: int,
    /// One past the end of the first allocation served from this chunk.
    pub first_end: Option<int>,
    /// The bytes at `[base, top)`.
    pub bytes: Seq<u8>,
}

impl ChunkModel {
    /// Where the bookkeeping starts: the end of the usable bytes.
    pub open spec fn top(self) -> int {
        self.base + self.size - FOOTER_SIZE
    }

    pub open spec fn end(self) -> int {
        self.base + self.size
    }

    pub open spec fn wf(self) -> bool {
        &&& is_pow2(self.align)
        &&& self.align >= FOOTER_ALIGN
        &&& self.base >= ADDRESS_SPACE_START
        &&& self.base % self.align == 0
        &&& self.size >= FOOTER_SIZE
        &&& self.size % FOOTER_ALIGN as int == 0
        &&& self.end() <= usize::MAX
        &&& self.base <= self.cursor <= self.top()
        &&& self.bytes.len() == self.size - FOOTER_SIZE
        &&& match self.first_end {
            Some(e) => self.base <= e <= self.top(),
            None => self.cursor == self.top(),
        }
    }

    /// The range `[addr, addr + len)` lies in the used part of this chunk.
    pub open spec fn holds(self, addr: int, len: int) -> bool {
        self.cursor <= addr && 0 <= len && addr + len <= self.top()
    }

    /// Where the fast path serves `size` bytes aligned to `align`, if they fit
    /// below the cursor.
    pub open spec fn fast_fit(self, size: int, align: int) -> Option<int> {
        if self.cursor - size >= 0 && align_down(self.cursor - size, align) >= self.base {
            Some(align_down(self.cursor - size, align))
        } else {
            None
        }
    }

    /// This chunk after serving `size` bytes at `p`.
    pub open spec fn bump_to(self, p: int, size: int) -> ChunkModel {
        ChunkModel {
            cursor: p,
            first_end: if self.cursor == self.top() {
                Some(p + size)
            } else {
                self.first_end
            },
            ..self
        }
    }

    /// This chunk with its cursor moved to `c`.
    pub open spec fn with_cursor(self, c: int) -> ChunkModel {
        ChunkModel { cursor: c, ..self }
    }

    /// This chunk with nothing in use.
    pub open spec fn emptied(self) -> ChunkModel {
        ChunkModel { cursor: self.top(), first_end: None, ..self }
    }

    /// This chunk with `src` written at `addr`.
    pub open spec fn written(self, addr: int, src: Seq<u8>) -> ChunkModel {
        let off = addr - self.base;
        ChunkModel {
            bytes: self.bytes.take(off) + src + self.bytes.skip(off + src.len()),
            ..self
        }
    }

    /// The bytes at `[addr, addr + len)`.
    pub open spec fn bytes_at(self, addr: int, len: int) -> Seq<u8> {
        self.bytes.subrange(addr - self.base, addr - self.base + len)
    }

    /// The range that chunk iteration reports: from the cursor to the end of
    /// the first allocation.
    pub open spec fn used_bytes(self) -> Seq<u8> {
        match self.first_end {
            Some(e) => if e > self.cursor {
                self.bytes_at(self.cursor, e - self.cursor)
            } else {
                Seq::empty()
            },
            None => Seq::empty(),
        }
    }
}

/// A chunk fresh from the system allocator: zeroed, nothing in use.
pub open spec fn fresh_chunk(base: int, size: int, align: int) -> ChunkModel {
    ChunkModel {
        base,
        size,
        align,
        cursor: base + size - FOOTER_SIZE,
        first_end: None,
        bytes: Seq::new((size - FOOTER_SIZE) as nat, |i: int| 0u8),
    }
}

/// A chunk of `size` bytes aligned to `align`, placed at the first suitable
/// address from `after` on; `None` where it would not fit the address space.
pub open spec fn placed_chunk(after: int, size: int, align: int) -> Option<ChunkModel> {
    if after + align - 1 <= usize::MAX && align_up(after, align) + size <= usize::MAX {
        Some(fresh_chunk(align_up(after, align), size, align))
    } else {
        None
    }
}

/// The size of the chunk that follows one of `prev_size` bytes when a request
/// of `request` bytes does not fit: double the previous, but at least enough
/// for the request and the bookkeeping.
pub open spec fn grown_size(prev_size: int, request: int) -> int {
    let doubled = 2 * prev_size;
    let least = request + FOOTER_SIZE;
    align_up(if doubled > least { doubled } else { least }, FOOTER_ALIGN as int)
}

/// The alignment of a chunk acquired for a request aligned to `align`.
pub open spec fn chunk_align(align: int) -> int {
    if align > FOOTER_ALIGN {
        align
    } else {
        FOOTER_ALIGN as int
    }
}

/// The total size of the chunks.
pub open spec fn total_size(s: Seq<ChunkModel>) -> int
    decreases s.len(),
{
    if s.len() == 0 {
        0
    } else {
        total_size(s.drop_last()) + s.last().size
    }
}

/// The index of the newest chunk whose used part holds `[addr, addr + len)`,
/// or -1.
pub open spec fn find_chunk(s: Seq<ChunkModel>, addr: int, len: int) -> int
    decreases s.len(),
{
    if s.len() == 0 {
        -1
    } else if s.last().holds(addr, len) {
        s.len() - 1
    } else {
        find_chunk(s.drop_last(), addr, len)
    }
}

/// An arena: its chunks, oldest first, and its allocation limit.
pub struct BumpModel {
    pub chunks: Seq<ChunkModel>,
    pub limit: Option<usize>,
}

impl BumpModel {
    pub open spec fn wf(self) -> bool {
        &&& self.chunks.len() >= 1
        &&& forall|i: int| 0 <= i < self.chunks.len() ==> #[trigger] self.chunks[i].wf()
        &&& forall|i: int, j: int|
            0 <= i < j < self.chunks.len() ==> #[trigger] self.chunks[i].end()
                <= #[trigger] self.chunks[j].base
        &&& forall|i: int| 0 < i < self.chunks.len() ==> #[trigger] self.chunks[i].first_end is Some
    }

    /// The chunk that allocations are served from.
    pub open spec fn current(self) -> ChunkModel {
        self.chunks.last()
    }

    pub open spec fn with_current(self, c: ChunkModel) -> BumpModel {
        BumpModel { chunks: self.chunks.update(self.chunks.len() - 1, c), ..self }
    }

    /// The bytes taken from the system allocator: the sum of the chunk sizes.
    pub open spec fn allocated(self) -> int {
        total_size(self.chunks)
    }

    /// The limit lets the arena take `extra` more bytes.
    pub open spec fn admits(self, extra: int) -> bool {
        match self.limit {
            Some(l) => self.allocated() + extra <= l,
            None => true,
        }
    }

    /// The chunk that the slow path acquires for a request of `size` bytes
    /// aligned to `align`; `None` where its size or place overflows or the
    /// limit forbids it.
    pub open spec fn next_chunk(self, size: int, align: int) -> Option<ChunkModel> {
        let s = grown_size(self.current().size, size);
        if s > usize::MAX || !self.admits(s) {
            None
        } else {
            placed_chunk(self.current().end(), s, chunk_align(align))
        }
    }

    /// The arena after the slow path served `size` bytes aligned to `align`
    /// from the fresh chunk `c`, with the address served.
    pub open spec fn grown_with(self, c: ChunkModel, size: int, align: int) -> BumpModel {
        BumpModel { chunks: self.chunks.push(c.bump_to(self.slow_fit(c, size, align), size)), ..self }
    }

    /// Where the slow path serves `size` bytes aligned to `align` in `c`.
    pub open spec fn slow_fit(self, c: ChunkModel, size: int, align: int) -> int {
        align_down(c.top() - size, align)
    }

    /// Some chunk's used part holds `[addr, addr + len)`.
    pub open spec fn holds(self, addr: int, len: int) -> bool {
        find_chunk(self.chunks, addr, len) >= 0
    }

    /// The bytes at `[addr, addr + len)`, for a range that the arena holds.
    pub open spec fn bytes_at(self, addr: int, len: int) -> Seq<u8> {
        self.chunks[find_chunk(self.chunks, addr, len)].bytes_at(addr, len)
    }

    /// The arena with `src` written at `addr`.
    pub open spec fn written(self, addr: int, src: Seq<u8>) -> BumpModel {
        let i = find_chunk(self.chunks, addr, src.len() as int);
        BumpModel { chunks: self.chunks.update(i, self.chunks[i].written(addr, src)), ..self }
    }

    /// The number of chunks that chunk iteration reports: all, but for a
    /// first chunk that has served nothing.
    pub open spec fn used_chunk_count(self) -> int {
        if self.chunks[0].first_end is Some {
            self.chunks.len() as int
        } else {
            self.chunks.len() - 1
        }
    }

    /// The arena after a reset: the current chunk alone, emptied.
    pub open spec fn reset(self) -> BumpModel {
        BumpModel { chunks: seq![self.current().emptied()], ..self }
    }
}

/// Where a successful request for `size` bytes aligned to `align` is served.
pub open spec fn served_at(m: BumpModel, size: int, align: int) -> int {
    if size == 0 {
        align
    } else {
        match m.current().fast_fit(size, align) {
            Some(p) => p,
            None => m.slow_fit(m.next_chunk(size, align)->Some_0, size, align),
        }
    }
}

/// The arena after a successful request for `size` bytes aligned to `align`.
pub open spec fn after_alloc(m: BumpModel, size: int, align: int) -> BumpModel {
    if size == 0 {
        m
    } else {
        match m.current().fast_fit(size, align) {
            Some(p) => m.with_current(m.current().bump_to(p, size)),
            None => m.grown_with(m.next_chunk(size, align)->Some_0, size, align),
        }
    }
}

/// The request is served without asking the system allocator: it takes no
/// space or fits below the current chunk's cursor.
pub open spec fn alloc_owed(m: BumpModel, size: int, align: int) -> bool {
    size == 0 || m.current().fast_fit(size, align) is Some
}

/// Serving the request needs no more than the system allocator can be asked
/// for: it is owed, or a new chunk for it is within bounds.
pub open spec fn alloc_possible(m: BumpModel, size: int, align: int) -> bool {
    alloc_owed(m, size, align) || m.next_chunk(size, align) is Some
}

/// What serving `size` bytes aligned to `align` does: on `Ok` the arena
/// moved from `m` to `m2`; on `Err` it stayed as it was. Success is owed
/// where `alloc_owed` holds, and impossible where `alloc_possible` fails;
/// in between the system allocator decides.
pub open spec fn alloc_spec(
    m: BumpModel,
    size: int,
    align: int,
    r: Result<usize, crate::error::AllocErr>,
    m2: BumpModel,
) -> bool {
    &&& r is Ok ==> {
        &&& alloc_possible(m, size, align)
        &&& r->Ok_0 == served_at(m, size, align)
        &&& m2 == after_alloc(m, size, align)
    }
    &&& r is Err ==> m2 == m && !alloc_owed(m, size, align)
}

/// The size of the first chunk of an arena made to hold `capacity` bytes.
pub open spec fn capacity_chunk_size(capacity: int) -> int {
    align_up(capacity + FOOTER_SIZE, FOOTER_ALIGN as int)
}

/// An arena made to hold `capacity` bytes fits the address space.
pub open spec fn capacity_fits(capacity: int) -> bool {
    &&& capacity + FOOTER_SIZE + FOOTER_ALIGN - 1 <= usize::MAX
    &&& ADDRESS_SPACE_START + capacity_chunk_size(capacity) <= usize::MAX
}

/// A new arena whose single chunk has `size` bytes.
pub open spec fn initial(size: int) -> BumpModel {
    BumpModel {
        chunks: seq![fresh_chunk(ADDRESS_SPACE_START as int, size, FOOTER_ALIGN as int)],
        limit: None,
    }
}

/// The chunk that `find_chunk` names holds the range.
pub proof fn lemma_find_chunk_holds(s: Seq<ChunkModel>, addr: int, len: int)
    ensures
        find_chunk(s, addr, len) >= 0 ==> find_chunk(s, addr, len) < s.len() && s[find_chunk(
            s,
            addr,
            len,
        )].holds(addr, len),
        find_chunk(s, addr, len) >= -1,
    decreases s.len(),
{
    if s.len() > 0 && !s.last().holds(addr, len) {
        lemma_find_chunk_holds(s.drop_last(), addr, len);
        let r = find_chunk(s.drop_last(), addr, len);
        if r >= 0 {
            assert(s.drop_last()[r] == s[r]);
        }
    }
}

/// In chunks that follow one another in the address space, the chunk whose
/// used part holds a range is the one that `find_chunk` names.
pub proof fn lemma_find_chunk_unique(s: Seq<ChunkModel>, addr: int, len: int, i: int)
    requires
        0 <= i < s.len(),
        forall|k: int| 0 <= k < s.len() ==> #[trigger] s[k].wf(),
        forall|a: int, b: int| 0 <= a < b < s.len() ==> #[trigger] s[a].end() <= #[trigger] s[b].base,
        s[i].holds(addr, len),
    ensures
        find_chunk(s, addr, len) == i,
    decreases s.len(),
{
    if i < s.len() - 1 {
        let l = s.len() - 1;
        assert(s[i].end() <= s[l].base);
        assert(s[l].wf() && s[i].wf());
        assert(!s.last().holds(addr, len));
        let t = s.drop_last();
        assert forall|k: int| 0 <= k < t.len() implies #[trigger] t[k].wf() by {
            assert(t[k] == s[k]);
        }
        assert forall|a: int, b: int| 0 <= a < b < t.len() implies #[trigger] t[a].end()
            <= #[trigger] t[b].base by {
            assert(t[a] == s[a] && t[b] == s[b]);
        }
        assert(t[i] == s[i]);
        lemma_find_chunk_unique(t, addr, len, i);
    }
}

/// A served request lies in the used part of the current chunk afterwards,
/// aligned, below the old cursor where it fit there.
pub proof fn lemma_served_in_current(m: BumpModel, size: int, align: int)
    requires
        m.wf(),
        size > 0,
        align > 0,
        alloc_possible(m, size, align),
    ensures
        ({
            let p = served_at(m, size, align);
            let m2 = after_alloc(m, size, align);
            &&& m2.current().holds(p, size)
            &&& p % align == 0
            &&& p > 0
            &&& m2.chunks.len() >= m.chunks.len()
            &&& m.current().fast_fit(size, align) is Some ==> m2.chunks.len() == m.chunks.len()
                && p + size <= m.current().cursor
        }),
{
    let l = m.chunks.len() - 1;
    assert(m.chunks[l].wf());
    match m.current().fast_fit(size, align) {
        Some(p) => {
            crate::layout::lemma_align_down(m.current().cursor - size, align);
        },
        None => {
            let c = m.next_chunk(size, align)->Some_0;
            let s = grown_size(m.current().size, size);
            let least = size + FOOTER_SIZE;
            let want = if 2 * m.current().size > least {
                2 * m.current().size
            } else {
                least
            };
            crate::layout::lemma_align_down(want + FOOTER_ALIGN - 1, FOOTER_ALIGN as int);
            let ca = chunk_align(align);
            crate::layout::lemma_align_down(m.current().end() + ca - 1, ca);
            assert(c.top() - size >= c.base);
            crate::layout::lemma_align_down(c.top() - size, align);
        },
    }
}

/// The arena with `src` written at `addr`, where there is anything to write.
pub open spec fn filled(m: BumpModel, addr: int, src: Seq<u8>) -> BumpModel {
    if src.len() == 0 {
        m
    } else {
        m.written(addr, src)
    }
}

/// The bytes of the block at `ptr` of `size` bytes; none for a block of size
/// zero.
pub open spec fn block_bytes(m: BumpModel, ptr: int, size: int) -> Seq<u8> {
    if size == 0 {
        Seq::empty()
    } else {
        m.bytes_at(ptr, size)
    }
}

/// `len` zero bytes.
pub open spec fn zeros(len: int) -> Seq<u8> {
    Seq::new(len as nat, |i: int| 0u8)
}

/// The block at `ptr` of `size` bytes was served by the arena and is still
/// in use: it lies in the used part of a chunk, or takes no space.
pub open spec fn block_live(m: BumpModel, ptr: int, size: int) -> bool {
    size == 0 || m.holds(ptr, size)
}

/// The arena after the block at `ptr` of `size` bytes is given back: the
/// space is reclaimed where the block is the most recent allocation, and
/// left in place otherwise.
pub open spec fn released(m: BumpModel, ptr: int, size: int) -> BumpModel {
    if ptr == m.current().cursor {
        m.with_current(m.current().with_cursor(ptr + size))
    } else {
        m
    }
}

/// Where a block at `ptr` grows in place from `old_size` to `new_size`
/// bytes aligned to `align`: only the most recent allocation can, and only
/// where the extra bytes fit below the cursor.
pub open spec fn grow_in_place(m: BumpModel, ptr: int, old_size: int, new_size: int, align: int) -> Option<int> {
    if ptr == m.current().cursor {
        m.current().fast_fit(new_size - old_size, align)
    } else {
        None
    }
}

/// Where `zero`, the arena with the bytes `[q + old_size, q + new_size)` zeroed.
pub open spec fn zero_tail(m: BumpModel, q: int, old_size: int, new_size: int, zero: bool) -> BumpModel {
    if zero {
        filled(m, q + old_size, zeros(new_size - old_size))
    } else {
        m
    }
}

/// Where a grown block lands and the arena after that, before its bytes
/// are copied: in place where it can grow there, else the fresh allocation.
pub open spec fn grow_target(m: BumpModel, ptr: int, old_size: int, new_size: int, align: int) -> (int, BumpModel) {
    match grow_in_place(m, ptr, old_size, new_size, align) {
        Some(q) => (q, m.with_current(m.current().bump_to(q, new_size - old_size))),
        None => (served_at(m, new_size, align), after_alloc(m, new_size, align)),
    }
}

/// Growing needs no more than the system allocator can be asked for.
pub open spec fn grow_possible(m: BumpModel, ptr: int, old_size: int, new_size: int, align: int) -> bool {
    grow_in_place(m, ptr, old_size, new_size, align) is Some || alloc_possible(m, new_size, align)
}

/// Growing is served without the system allocator's say.
pub open spec fn grow_owed(m: BumpModel, ptr: int, old_size: int, new_size: int, align: int) -> bool {
    grow_in_place(m, ptr, old_size, new_size, align) is Some || alloc_owed(m, new_size, align)
}

/// What growing the block at `ptr` from `old_size` to `new_size` bytes,
/// aligned to `align`, does: it stays where it is if nothing changes, grows
/// in place where it can, and moves to a fresh allocation otherwise. Its
/// bytes come along, and where `zero` the added bytes are zeroed; a failed
/// move leaves the arena as it was.
pub open spec fn grow_spec(
    m: BumpModel,
    ptr: int,
    old_size: int,
    new_size: int,
    align: int,
    zero: bool,
    r: Result<usize, crate::error::AllocErr>,
    m2: BumpModel,
) -> bool {
    if new_size == old_size && ptr % align == 0 {
        r == Ok::<usize, crate::error::AllocErr>(ptr as usize) && m2 == m
    } else {
        let (q, m1) = grow_target(m, ptr, old_size, new_size, align);
        &&& r is Ok ==> {
            &&& grow_possible(m, ptr, old_size, new_size, align)
            &&& r->Ok_0 == q
            &&& m2 == zero_tail(
                filled(m1, q, block_bytes(m, ptr, old_size)),
                q,
                old_size,
                new_size,
                zero,
            )
        }
        &&& r is Err ==> m2 == m && !grow_owed(m, ptr, old_size, new_size, align)
    }
}

/// Where a block shrinks: only the most recent allocation, and only where
/// at least half of it is given back, moves up by the freed bytes rounded
/// down to the alignment.
pub open spec fn shrink_target(m: BumpModel, ptr: int, old_size: int, new_size: int, align: int) -> Option<int> {
    if ptr == m.current().cursor && new_size <= old_size / 2 {
        Some(ptr + align_down(old_size - new_size, align))
    } else {
        None
    }
}

/// What shrinking the block at `ptr` from `old_size` bytes aligned to
/// `old_align` to `new_size` bytes aligned to `align` does: an error where
/// the new alignment is larger than the old one, or the block is not aligned
/// to it; otherwise the block moves up where that reclaims enough, keeping
/// its first `new_size` bytes, and stays in place otherwise.
pub open spec fn shrink_spec(
    m: BumpModel,
    ptr: int,
    old_size: int,
    old_align: int,
    new_size: int,
    align: int,
    r: Result<usize, crate::error::AllocErr>,
    m2: BumpModel,
) -> bool {
    if align > old_align || ptr % align != 0 {
        r is Err && m2 == m
    } else {
        match shrink_target(m, ptr, old_size, new_size, align) {
            Some(q) => r == Ok::<usize, crate::error::AllocErr>(q as usize) && m2 == filled(
                m.with_current(m.current().with_cursor(q)),
                q,
                block_bytes(m, ptr, new_size),
            ),
            None => r == Ok::<usize, crate::error::AllocErr>(ptr as usize) && m2 == m,
        }
    }
}

/// Sequences of chunks whose used parts agree: `find_chunk` agrees on them.
pub proof fn lemma_find_chunk_same_used(s: Seq<ChunkModel>, t: Seq<ChunkModel>, addr: int, len: int)
    requires
        s.len() == t.len(),
        forall|i: int|
            0 <= i < s.len() ==> #[trigger] s[i].cursor == t[i].cursor && s[i].top() == t[i].top(),
    ensures
        find_chunk(s, addr, len) == find_chunk(t, addr, len),
    decreases s.len(),
{
    if s.len() > 0 {
        assert(s.last() == s[s.len() - 1] && t.last() == t[t.len() - 1]);
        assert forall|i: int| 0 <= i < s.len() - 1 implies #[trigger] s.drop_last()[i].cursor
            == t.drop_last()[i].cursor && s.drop_last()[i].top() == t.drop_last()[i].top() by {
            assert(s.drop_last()[i] == s[i] && t.drop_last()[i] == t[i]);
        }
        lemma_find_chunk_same_used(s.drop_last(), t.drop_last(), addr, len);
    }
}

/// Writing bytes changes no chunk's used part.
pub proof fn lemma_filled_keeps_used(m: BumpModel, addr: int, src: Seq<u8>, a: int, l: int)
    requires
        src.len() == 0 || m.holds(addr, src.len() as int),
    ensures
        filled(m, addr, src).chunks.len() == m.chunks.len(),
        forall|i: int|
            0 <= i < m.chunks.len() ==> #[trigger] filled(m, addr, src).chunks[i].cursor
                == m.chunks[i].cursor && filled(m, addr, src).chunks[i].top() == m.chunks[i].top()
                && filled(m, addr, src).chunks[i].first_end == m.chunks[i].first_end,
        filled(m, addr, src).holds(a, l) == m.holds(a, l),
        filled(m, addr, src).limit == m.limit,
{
    if src.len() > 0 {
        lemma_find_chunk_holds(m.chunks, addr, src.len() as int);
        lemma_find_chunk_same_used(filled(m, addr, src).chunks, m.chunks, a, l);
    }
}

/// Chunk sequences with the same sizes have the same total.
pub proof fn lemma_total_size_same_sizes(s: Seq<ChunkModel>, t: Seq<ChunkModel>)
    requires
        s.len() == t.len(),
        forall|i: int| 0 <= i < s.len() ==> #[trigger] s[i].size == t[i].size,
    ensures
        total_size(s) == total_size(t),
    decreases s.len(),
{
    if s.len() > 0 {
        assert forall|i: int| 0 <= i < s.len() - 1 implies #[trigger] s.drop_last()[i].size
            == t.drop_last()[i].size by {
            assert(s.drop_last()[i] == s[i] && t.drop_last()[i] == t[i]);
        }
        lemma_total_size_same_sizes(s.drop_last(), t.drop_last());
    }
}

/// The powers of two up to the chunk alignment.
pub proof fn lemma_small_pow2(a: int)
    requires
        is_pow2(a),
        a <= FOOTER_ALIGN,
    ensures
        a == 1 || a == 2 || a == 4 || a == 8,
{
    assert(!is_pow2(3) && !is_pow2(5) && !is_pow2(6) && !is_pow2(7)) by {
        reveal_with_fuel(is_pow2, 3);
    }
    assert(a > 0) by {
        reveal(is_pow2);
    }
}

/// A multiple of the chunk alignment is a multiple of any smaller power of two.
pub proof fn lemma_chunk_base_aligned(base: int, align: int)
    requires
        is_pow2(align),
        base >= 0,
        base % chunk_align(align) == 0,
    ensures
        base % align == 0,
{
    if align <= FOOTER_ALIGN {
        lemma_small_pow2(align);
        assert(base % 8 == 0);
        if align == 4 {
            assert(base % 4 == 0);
        } else if align == 2 {
            assert(base % 2 == 0);
        }
    }
}

/// The chunk alignment is a power of two.
pub proof fn lemma_footer_align_pow2()
    ensures
        is_pow2(FOOTER_ALIGN as int),
{
    reveal_with_fuel(is_pow2, 4);
}

} // verus!
