use bumpalo::boxed::Box;
use bumpalo::layout::round_up_to;
use bumpalo::model::{DEFAULT_CHUNK_SIZE, FOOTER_SIZE};
use bumpalo::{handle_alloc_error, AllocErr, Bump, Layout, LayoutErr, UnstableLayoutMethods};

#[test]
fn sequential_small_allocations() {
    let mut b = Bump::new();
    let mut addrs = Vec::new();
    for i in 0..10_000u32 {
        addrs.push(b.alloc_byte((i % 256) as u8));
    }
    for (i, a) in addrs.iter().enumerate() {
        assert_eq!(b.read(*a, 1), vec![(i % 256) as u8]);
    }
    assert!(b.allocated_bytes() >= 10_000);
}

#[test]
fn chunk_growth() {
    let mut b = Bump::with_capacity(64);
    let layout = Layout::from_size_align(16, 1).unwrap();
    let mut sizes = vec![b.allocated_bytes()];
    for _ in 0..20 {
        b.alloc_layout(layout);
        sizes.push(b.allocated_bytes());
    }
    // the first chunk holds four of them; the fifth takes a new chunk
    assert_eq!(sizes[4], sizes[0]);
    assert!(sizes[5] > sizes[4]);
    let regions = b.iter_allocated_chunks();
    assert!(regions.len() >= 2);
    // newest first: the newest chunk lies above the older ones
    for k in 1..regions.len() {
        assert!(regions[k - 1].0 > regions[k].0);
    }
}

#[test]
fn reset_retains_largest_chunk() {
    let mut b = Bump::new();
    let layout = Layout::from_size_align(100, 1).unwrap();
    let mut before_third = 0;
    while b.iter_allocated_chunks().len() < 3 {
        let prev = b.allocated_bytes();
        b.alloc_layout(layout);
        if b.iter_allocated_chunks().len() == 3 {
            before_third = prev;
        }
    }
    let total = b.allocated_bytes();
    let last_size = total - before_third;
    b.reset();
    assert_eq!(b.allocated_bytes(), last_size);
    assert!(b.allocated_bytes() < total);
    let cap = b.chunk_capacity();
    assert_eq!(cap, last_size - FOOTER_SIZE);
    b.alloc_layout(Layout::from_size_align(cap, 1).unwrap());
    assert_eq!(b.allocated_bytes(), last_size);
    assert_eq!(b.iter_allocated_chunks().len(), 1);
    assert_eq!(b.chunk_capacity(), 0);
}

#[test]
fn reset_twice_is_reset_once() {
    let mut b = Bump::new();
    for _ in 0..50 {
        b.alloc_slice_fill_copy(40, 7);
    }
    b.reset();
    let once = (b.allocated_bytes(), b.chunk_capacity(), b.iter_allocated_chunks());
    b.reset();
    let twice = (b.allocated_bytes(), b.chunk_capacity(), b.iter_allocated_chunks());
    assert_eq!(once, twice);
}

#[test]
fn tail_grow_in_place() {
    let mut b = Bump::new();
    let four = Layout::from_size_align(4, 4).unwrap();
    let p = b.alloc_layout(four);
    b.write(p, &[42, 42, 42, 42]);
    let used = b.chunk_capacity();
    let allocated = b.allocated_bytes();
    let q = b.grow(p, four, Layout::from_size_align(8, 4).unwrap()).unwrap();
    assert_eq!(b.read(q, 4), vec![42, 42, 42, 42]);
    assert_eq!(q % 4, 0);
    assert_eq!(q, p - 4);
    assert!(used - b.chunk_capacity() <= 4);
    assert_eq!(b.allocated_bytes(), allocated);
}

#[test]
fn non_tail_deallocate_leaks() {
    let mut b = Bump::new();
    let eight = Layout::from_size_align(8, 1).unwrap();
    let a = b.alloc_slice_copy(&[1, 2, 3, 4, 5, 6, 7, 8]);
    let bb = b.alloc_layout(eight);
    b.deallocate(a, eight);
    let c = b.alloc_layout(eight);
    assert_eq!(c + 8, bb);
    assert!(c != a);
    assert_eq!(b.read(a, 8), vec![1, 2, 3, 4, 5, 6, 7, 8]);
}

#[test]
fn tail_deallocate_reclaims() {
    let mut b = Bump::new();
    let eight = Layout::from_size_align(8, 1).unwrap();
    let cap = b.chunk_capacity();
    let a = b.alloc_layout(eight);
    assert_eq!(b.chunk_capacity(), cap - 8);
    b.deallocate(a, eight);
    assert_eq!(b.chunk_capacity(), cap);
    assert_eq!(b.alloc_layout(eight), a);
}

#[test]
fn allocation_limit_respected() {
    let limit: usize = 4096;
    let mut b = Bump::new();
    b.set_allocation_limit(Some(limit));
    let layout = Layout::from_size_align(limit / 16, 1).unwrap();
    let mut results = Vec::new();
    for _ in 0..32 {
        results.push(b.try_alloc_layout(layout).is_ok());
        assert!(b.allocated_bytes() <= limit);
    }
    let first_failure = results.iter().position(|ok| !ok).unwrap();
    assert!(first_failure > 0);
    assert!(results[first_failure..].iter().all(|ok| !ok));
}

#[test]
fn with_allocation_limit_sets_limit() {
    let b = Bump::with_allocation_limit(1000);
    assert_eq!(b.allocation_limit(), Some(1000));
    assert_eq!(b.allocated_bytes(), DEFAULT_CHUNK_SIZE);
}

#[test]
fn new_arena_starts_with_one_default_chunk() {
    let b = Bump::new();
    assert_eq!(b.allocated_bytes(), DEFAULT_CHUNK_SIZE);
    assert_eq!(b.chunk_capacity(), DEFAULT_CHUNK_SIZE - FOOTER_SIZE);
    assert!(b.iter_allocated_chunks().is_empty());
    let t = Bump::try_new().unwrap();
    assert_eq!(t.allocated_bytes(), DEFAULT_CHUNK_SIZE);
}

#[test]
fn with_capacity_rounds_to_footer_alignment() {
    let b = Bump::with_capacity(61);
    assert_eq!(b.allocated_bytes(), 112);
    assert_eq!(b.chunk_capacity(), 64);
    let z = Bump::try_with_capacity(0).unwrap();
    assert_eq!(z.allocated_bytes(), FOOTER_SIZE);
    assert!(Bump::try_with_capacity(usize::MAX).is_err());
}

#[test]
fn slice_copy_round_trip() {
    let mut b = Bump::new();
    let data: Vec<u8> = (0..200u32).map(|i| (i * 7 % 256) as u8).collect();
    let p = b.alloc_slice_copy(&data);
    assert_eq!(b.read(p, data.len()), data);
    let s = b.alloc_str("héllo");
    assert_eq!(b.read(s, 6), "héllo".as_bytes().to_vec());
    let f = b.alloc_slice_fill_copy(5, 9);
    assert_eq!(b.read(f, 5), vec![9; 5]);
}

#[test]
fn allocations_are_aligned_and_disjoint() {
    let mut b = Bump::with_capacity(100);
    let mut ranges: Vec<(usize, usize)> = Vec::new();
    for i in 0..200usize {
        let size = 1 + i % 37;
        let align = 1 << (i % 7);
        let p = b.alloc_layout(Layout::from_size_align(size, align).unwrap());
        assert_eq!(p % align, 0);
        for (q, len) in &ranges {
            assert!(p + size <= *q || q + len <= p);
        }
        ranges.push((p, size));
    }
}

#[test]
fn zero_sized_requests_take_no_space() {
    let mut b = Bump::new();
    let cap = b.chunk_capacity();
    let p = b.alloc_layout(Layout::from_size_align(0, 64).unwrap());
    assert_eq!(p, 64);
    assert_eq!(b.chunk_capacity(), cap);
}

#[test]
fn shrink_moves_only_worthwhile_tails() {
    let mut b = Bump::new();
    let big = Layout::from_size_align(16, 4).unwrap();
    let p = b.alloc_slice_copy(&[1, 2, 3, 4, 5, 6, 7, 8, 9, 10, 11, 12, 13, 14, 15, 16]);
    let q = b.shrink(p, Layout::from_size_align(16, 1).unwrap(), Layout::from_size_align(10, 1).unwrap()).unwrap();
    assert_eq!(q, p);
    let r = b.shrink(p, Layout::from_size_align(16, 1).unwrap(), Layout::from_size_align(5, 1).unwrap()).unwrap();
    assert_eq!(r, p + 11);
    assert_eq!(b.read(r, 5), vec![1, 2, 3, 4, 5]);
    let s = b.alloc_layout(big);
    let t = b.realloc(s, big, 6).unwrap();
    assert_eq!(t, s + 8);
}

#[test]
fn grow_moves_non_tail_blocks() {
    let mut b = Bump::new();
    let two = Layout::from_size_align(2, 1).unwrap();
    let a = b.alloc_slice_copy(&[5, 6]);
    let _ = b.alloc_layout(two);
    let g = b.grow(a, two, Layout::from_size_align(4, 1).unwrap()).unwrap();
    assert!(g != a);
    assert_eq!(b.read(g, 2), vec![5, 6]);
    let same = b.grow(g, Layout::from_size_align(4, 1).unwrap(), Layout::from_size_align(4, 1).unwrap()).unwrap();
    assert_eq!(same, g);
}

#[test]
fn grow_beyond_chunk_takes_new_chunk() {
    let mut b = Bump::with_capacity(16);
    let one = Layout::from_size_align(1, 1).unwrap();
    let p = b.alloc_slice_copy(&[3]);
    let before = b.allocated_bytes();
    let q = b.grow(p, one, Layout::from_size_align(100, 1).unwrap()).unwrap();
    assert!(b.allocated_bytes() > before);
    assert_eq!(b.read(q, 1), vec![3]);
}

#[test]
fn limit_refuses_growth() {
    let mut b = Bump::with_capacity(8);
    b.set_allocation_limit(Some(b.allocated_bytes()));
    assert_eq!(b.try_alloc_layout(Layout::from_size_align(16, 1).unwrap()), Err(AllocErr));
    assert!(b.try_alloc(1).is_ok());
    assert_eq!(b.allocate(Layout::from_size_align(16, 1).unwrap()), Err(AllocErr));
    assert!(!b.can_alloc_layout(Layout::from_size_align(16, 1).unwrap()));
    assert!(b.can_alloc_layout(Layout::from_size_align(4, 1).unwrap()));
}

#[test]
fn box_holds_its_bytes() {
    let mut b = Bump::new();
    let bx = Box::new_in(&[4, 5, 6], &mut b);
    assert_eq!(bx.len(), 3);
    assert_eq!(bx.get(&b), vec![4, 5, 6]);
}

#[test]
fn layout_validation() {
    assert_eq!(Layout::from_size_align(8, 3).unwrap_err(), LayoutErr);
    assert_eq!(Layout::from_size_align(8, 0).unwrap_err(), LayoutErr);
    assert!(Layout::from_size_align(isize::MAX as usize, 1).is_ok());
    assert_eq!(Layout::from_size_align(isize::MAX as usize, 2).unwrap_err(), LayoutErr);
    let l = Layout::from_size_align(5, 8).unwrap();
    assert_eq!((l.size(), l.align()), (5, 8));
}

#[test]
fn layout_arithmetic() {
    let l = Layout::from_size_align(5, 4).unwrap();
    assert_eq!(l.padding_needed_for(4), 3);
    assert_eq!(l.padding_needed_for(8), 3);
    assert_eq!(l.padding_needed_for(1), 0);
    let huge = Layout::from_size_align(isize::MAX as usize, 1).unwrap();
    assert_eq!(huge.padding_needed_for(1 << 63), 1);
    let (r, stride) = l.repeat(3).unwrap();
    assert_eq!((r.size(), r.align(), stride), (24, 4, 8));
    assert_eq!(l.repeat(usize::MAX).unwrap_err(), LayoutErr);
    let a = Layout::array::<u32>(6).unwrap();
    assert_eq!((a.size(), a.align()), (24, 4));
    assert_eq!(round_up_to(13, 8), Some(16));
    assert_eq!(round_up_to(usize::MAX, 2), None);
}

#[test]
fn alloc_error_message() {
    let l = Layout::from_size_align(1024, 16).unwrap();
    assert_eq!(handle_alloc_error(l), "encountered allocation error: size 1024, align 16");
}

#[test]
fn closures_fill_allocations() {
    let mut b = Bump::new();
    let p = b.alloc_with(|| 77);
    assert_eq!(b.read(p, 1), vec![77]);
    let s = b.alloc_slice_fill_with(6, |i| (i * 3) as u8);
    assert_eq!(b.read(s, 6), vec![0, 3, 6, 9, 12, 15]);
    assert_eq!(s + 6, p);
}
