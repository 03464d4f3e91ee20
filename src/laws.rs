//! What holds of every arena and every allocation, proved over the model.
use crate::layout::lemma_align_down;
use crate::model::{
    after_alloc, alloc_possible, block_bytes, chunk_align, filled, find_chunk, grow_target,
    lemma_filled_keeps_used, lemma_find_chunk_holds, lemma_find_chunk_unique,
    lemma_served_in_current, lemma_total_size_same_sizes, served_at, BumpModel,
    FOOTER_ALIGN, FOOTER_SIZE,
};
use vstd::arithmetic::power2::is_pow2;
use vstd::prelude::*;

verus! {

/// Serving a request keeps the arena well formed.
pub proof fn lemma_alloc_keeps_wf(m: BumpModel, size: int, align: usize)
    requires
        m.wf(),
        size > 0,
        is_pow2(align as int),
        alloc_possible(m, size, align as int),
    ensures
        after_alloc(m, size, align as int).wf(),
{
    crate::layout::lemma_pow2_range(align);
    lemma_served_in_current(m, size, align as int);
    let m2 = after_alloc(m, size, align as int);
    let l = m.chunks.len() - 1;
    assert(m.chunks[l].wf());
    match m.current().fast_fit(size, align as int) {
        Some(p) => {
            assert(m2.chunks[l] == m.current().bump_to(p, size));
            assert forall|i: int| 0 <= i < m2.chunks.len() implies #[trigger] m2.chunks[i].wf() by {
                if i != l {
                    assert(m.chunks[i].wf());
                }
            }
            assert forall|i: int, j: int|
                0 <= i < j < m2.chunks.len() implies #[trigger] m2.chunks[i].end()
                <= #[trigger] m2.chunks[j].base by {
                assert(m.chunks[i].end() <= m.chunks[j].base);
            }
            assert forall|i: int| 0 < i < m2.chunks.len() implies #[trigger] m2.chunks[i].first_end is Some by {
                assert(m.chunks[i].first_end is Some);
            }
        },
        None => {
            let c = m.next_chunk(size, align as int)->Some_0;
            let least = size + FOOTER_SIZE;
            let want = if 2 * m.current().size > least {
                2 * m.current().size
            } else {
                least
            };
            lemma_align_down(want + FOOTER_ALIGN - 1, FOOTER_ALIGN as int);
            let ca = chunk_align(align as int);
            lemma_align_down(m.current().end() + ca - 1, ca);
            crate::model::lemma_footer_align_pow2();
            crate::model::lemma_chunk_base_aligned(c.base, align as int);
            lemma_align_down(c.top() - size, align as int);
            assert(m2.chunks.len() == m.chunks.len() + 1);
            assert forall|i: int| 0 <= i < m2.chunks.len() implies #[trigger] m2.chunks[i].wf() by {
                if i < m.chunks.len() {
                    assert(m2.chunks[i] == m.chunks[i]);
                    assert(m.chunks[i].wf());
                }
            }
            assert forall|i: int, j: int|
                0 <= i < j < m2.chunks.len() implies #[trigger] m2.chunks[i].end()
                <= #[trigger] m2.chunks[j].base by {
                assert(m2.chunks[i] == m.chunks[i]);
                if j < m.chunks.len() {
                    assert(m2.chunks[j] == m.chunks[j]);
                    assert(m.chunks[i].end() <= m.chunks[j].base);
                } else if i < l {
                    assert(m.chunks[i].end() <= m.chunks[l].base);
                }
            }
            assert forall|i: int| 0 < i < m2.chunks.len() implies #[trigger] m2.chunks[i].first_end is Some by {
                if i < m.chunks.len() {
                    assert(m2.chunks[i] == m.chunks[i]);
                    assert(m.chunks[i].first_end is Some);
                }
            }
        },
    }
}

/// Every served block is aligned to its request's alignment.
pub proof fn lemma_alloc_aligned(m: BumpModel, size: int, align: usize)
    requires
        m.wf(),
        size >= 0,
        is_pow2(align as int),
        alloc_possible(m, size, align as int),
    ensures
        served_at(m, size, align as int) % (align as int) == 0,
{
    crate::layout::lemma_pow2_range(align);
    if size > 0 {
        lemma_served_in_current(m, size, align as int);
    } else {
        vstd::arithmetic::div_mod::lemma_mod_self_0(align as int);
    }
}

/// Every served block lies within a chunk, below its bookkeeping: in the used
/// part of the current chunk afterwards.
pub proof fn lemma_alloc_contained(m: BumpModel, size: int, align: usize)
    requires
        m.wf(),
        size > 0,
        is_pow2(align as int),
        alloc_possible(m, size, align as int),
    ensures
        ({
            let p = served_at(m, size, align as int);
            let c = after_alloc(m, size, align as int).current();
            c.base <= c.cursor <= p && p + size <= c.top()
        }),
{
    crate::layout::lemma_pow2_range(align);
    lemma_served_in_current(m, size, align as int);
    lemma_alloc_keeps_wf(m, size, align);
    let m2 = after_alloc(m, size, align as int);
    assert(m2.chunks[m2.chunks.len() - 1].wf());
}

/// A block served while another is in use does not overlap it, and the one
/// in use stays in use with its bytes unchanged.
pub proof fn lemma_alloc_disjoint(m: BumpModel, size: int, align: usize, addr: int, len: int)
    requires
        m.wf(),
        size > 0,
        is_pow2(align as int),
        alloc_possible(m, size, align as int),
        len > 0,
        m.holds(addr, len),
    ensures
        ({
            let p = served_at(m, size, align as int);
            let m2 = after_alloc(m, size, align as int);
            &&& p + size <= addr || addr + len <= p
            &&& m2.holds(addr, len)
            &&& m2.bytes_at(addr, len) == m.bytes_at(addr, len)
        }),
{
    crate::layout::lemma_pow2_range(align);
    lemma_served_in_current(m, size, align as int);
    lemma_alloc_keeps_wf(m, size, align);
    let m2 = after_alloc(m, size, align as int);
    let p = served_at(m, size, align as int);
    let l = m.chunks.len() - 1;
    lemma_find_chunk_holds(m.chunks, addr, len);
    let i = find_chunk(m.chunks, addr, len);
    assert(m.chunks[i].wf() && m.chunks[l].wf());
    if i < l {
        assert(m.chunks[i].end() <= m.chunks[l].base);
    }
    assert(m2.chunks[i].holds(addr, len));
    assert(m2.chunks[i].bytes == m.chunks[i].bytes);
    lemma_find_chunk_unique(m2.chunks, addr, len, i);
    match m.current().fast_fit(size, align as int) {
        Some(_) => {},
        None => {
            let c = m.next_chunk(size, align as int)->Some_0;
            let ca = chunk_align(align as int);
            lemma_align_down(m.current().end() + ca - 1, ca);
            let least = size + FOOTER_SIZE;
            let want = if 2 * m.current().size > least {
                2 * m.current().size
            } else {
                least
            };
            lemma_align_down(want + FOOTER_ALIGN - 1, FOOTER_ALIGN as int);
            lemma_align_down(c.top() - size, align as int);
            assert(m2.chunks[m2.chunks.len() - 1].base == c.base);
        },
    }
}

/// Allocation only moves cursors down: growth never raises one.
pub proof fn lemma_alloc_cursor_monotone(m: BumpModel, size: int, align: usize)
    requires
        m.wf(),
        size >= 0,
        is_pow2(align as int),
        alloc_possible(m, size, align as int),
    ensures
        ({
            let m2 = after_alloc(m, size, align as int);
            &&& m2.chunks.len() >= m.chunks.len()
            &&& forall|i: int| 0 <= i < m.chunks.len() ==> #[trigger] m2.chunks[i].cursor <= m.chunks[i].cursor
        }),
{
    if size > 0 {
        crate::layout::lemma_pow2_range(align);
        lemma_served_in_current(m, size, align as int);
        let m2 = after_alloc(m, size, align as int);
        assert forall|i: int| 0 <= i < m.chunks.len() implies #[trigger] m2.chunks[i].cursor
            <= m.chunks[i].cursor by {
            match m.current().fast_fit(size, align as int) {
                Some(p) => {
                    lemma_align_down(m.current().cursor - size, align as int);
                },
                None => {
                    assert(m2.chunks[i] == m.chunks[i]);
                },
            }
        }
    }
}

/// Growing a block only moves cursors down.
pub proof fn lemma_grow_cursor_monotone(m: BumpModel, ptr: int, old_size: int, new_size: int, align: usize)
    requires
        m.wf(),
        0 <= old_size <= new_size,
        is_pow2(align as int),
        crate::model::grow_possible(m, ptr, old_size, new_size, align as int),
    ensures
        ({
            let m2 = grow_target(m, ptr, old_size, new_size, align as int).1;
            &&& m2.chunks.len() >= m.chunks.len()
            &&& forall|i: int| 0 <= i < m.chunks.len() ==> #[trigger] m2.chunks[i].cursor <= m.chunks[i].cursor
        }),
{
    crate::layout::lemma_pow2_range(align);
    match crate::model::grow_in_place(m, ptr, old_size, new_size, align as int) {
        Some(q) => {
            lemma_align_down(m.current().cursor - (new_size - old_size), align as int);
        },
        None => {
            lemma_alloc_cursor_monotone(m, new_size, align);
        },
    }
}

/// Resetting twice does what resetting once does.
pub proof fn lemma_reset_idempotent(m: BumpModel)
    requires
        m.wf(),
    ensures
        m.reset().reset() == m.reset(),
{
    let r = m.reset();
    assert(r.current() == m.current().emptied());
    assert(r.reset().chunks =~= r.chunks);
}

/// A copy of a byte sequence, once served, reads back as that sequence.
pub proof fn lemma_slice_copy_round_trip(m: BumpModel, s: Seq<u8>)
    requires
        m.wf(),
        alloc_possible(m, s.len() as int, 1),
    ensures
        ({
            let p = served_at(m, s.len() as int, 1);
            let m3 = filled(after_alloc(m, s.len() as int, 1), p, s);
            block_bytes(m3, p, s.len() as int) == s
        }),
{
    if s.len() > 0 {
        assert(is_pow2(1)) by {
            reveal(is_pow2);
        }
        let len = s.len() as int;
        lemma_served_in_current(m, len, 1);
        lemma_alloc_keeps_wf(m, len, 1usize);
        let m2 = after_alloc(m, len, 1);
        let p = served_at(m, len, 1);
        let l = m2.chunks.len() - 1;
        lemma_find_chunk_unique(m2.chunks, p, len, l);
        let m3 = filled(m2, p, s);
        lemma_filled_keeps_used(m2, p, s, p, len);
        assert(m3.chunks[l].holds(p, len));
        assert forall|k: int| 0 <= k < m3.chunks.len() implies #[trigger] m3.chunks[k].wf() by {
            assert(m2.chunks[k].wf());
        }
        assert forall|a: int, b: int|
            0 <= a < b < m3.chunks.len() implies #[trigger] m3.chunks[a].end()
            <= #[trigger] m3.chunks[b].base by {
            assert(m2.chunks[a].end() <= m2.chunks[b].base);
        }
        lemma_find_chunk_unique(m3.chunks, p, len, l);
        let c = m2.chunks[l];
        assert(c.wf());
        let off = p - c.base;
        assert(m3.chunks[l].bytes =~= c.bytes.take(off) + s + c.bytes.skip(off + len));
        assert(m3.chunks[l].bytes_at(p, len) =~= s);
    }
}

/// Serving a request never takes the arena past its limit: where the
/// arena was within the limit, it stays within it, and any new chunk fits
/// under the limit.
pub proof fn lemma_alloc_respects_limit(m: BumpModel, size: int, align: usize)
    requires
        m.wf(),
        size >= 0,
        is_pow2(align as int),
        alloc_possible(m, size, align as int),
    ensures
        ({
            let m2 = after_alloc(m, size, align as int);
            &&& m2.limit == m.limit
            &&& m2.allocated() == m.allocated() || m.admits(m2.allocated() - m.allocated())
            &&& m.limit is Some && m.allocated() <= m.limit->Some_0 ==> m2.allocated()
                <= m.limit->Some_0
        }),
{
    if size > 0 {
        let m2 = after_alloc(m, size, align as int);
        match m.current().fast_fit(size, align as int) {
            Some(p) => {
                lemma_total_size_same_sizes(m.chunks, m2.chunks);
            },
            None => {
                assert(m2.chunks.drop_last() =~= m.chunks);
            },
        }
    }
}

} // verus!
