use bumpalo::boxed::Box;
use bumpalo::model::FOOTER_SIZE;
use bumpalo::{AllocErr, Bump, Layout, UnstableLayoutMethods};

#[test]
fn chunk_footer_is_six_words() {
    assert_eq!(FOOTER_SIZE, std::mem::size_of::<usize>() * 6);
}

#[test]
fn test_realloc() {
    const CAPACITY: usize = 1000;
    let mut b = Bump::with_capacity(CAPACITY);

    // `realloc` doesn't shrink allocations that aren't "worth it".
    let layout = Layout::from_size_align(100, 1).unwrap();
    let p = b.alloc_layout(layout);
    let q = b.realloc(p, layout, 51).unwrap();
    assert_eq!(p, q);
    b.reset();

    // `realloc` will shrink allocations that are "worth it".
    let layout = Layout::from_size_align(100, 1).unwrap();
    let p = b.alloc_layout(layout);
    let q = b.realloc(p, layout, 50).unwrap();
    assert!(p != q);
    b.reset();

    // `realloc` will reuse the last allocation when growing.
    let layout = Layout::from_size_align(10, 1).unwrap();
    let p = b.alloc_layout(layout);
    let q = b.realloc(p, layout, 11).unwrap();
    assert_eq!(q, p - 1);
    b.reset();

    // `realloc` will allocate a new chunk when growing the last allocation, if need be.
    let layout = Layout::from_size_align(1, 1).unwrap();
    let p = b.alloc_layout(layout);
    let q = b.realloc(p, layout, CAPACITY + 1).unwrap();
    assert!(q != p - CAPACITY);

    b = Bump::with_capacity(CAPACITY);

    // `realloc` will allocate and copy when reallocating anything that
    // wasn't the last allocation.
    let layout = Layout::from_size_align(1, 1).unwrap();
    let p = b.alloc_layout(layout);
    let _ = b.alloc_layout(layout);
    let q = b.realloc(p, layout, 2).unwrap();
    assert!(q != p - 1);
    b.reset();
}

#[test]
fn alloc_fill_alloc_slice_fill_zero() {
    let mut b = Bump::new();
    let layout = Layout::new::<u8>();

    let ptr1 = b.alloc_layout(layout);

    b.alloc_slice_copy(&[]);
    b.alloc_slice_fill_copy(0, 42u8);
    b.alloc_str("");
    b.alloc_layout(Layout::new::<()>());

    let ptr2 = b.alloc_layout(layout);
    assert_eq!(ptr1, ptr2 + 1);
}

#[test]
fn allocator_api_allocator_grow_zeroed() {
    let mut bump = Bump::new();

    let first_layout = Layout::from_size_align(4, 4).expect("create a layout");
    let p = bump.allocate_zeroed(first_layout).expect("allocate a first chunk");
    let allocated = bump.allocated_bytes();
    bump.write(p, &[42, 42, 42, 42]);

    // Growing the last allocation reserves a few more bytes within the
    // current chunk.
    let second_layout = Layout::from_size_align(8, 4).expect("create a expanded layout");
    let p = bump.grow_zeroed(p, first_layout, second_layout).expect("should grow_zeroed okay");
    assert!(bump.allocated_bytes() <= allocated * 2);
    assert_eq!(bump.read(p, 8), vec![42, 42, 42, 42, 0, 0, 0, 0]);
}

#[test]
fn allocator_api_allocator_shrink_layout_change() {
    let mut b = Bump::with_capacity(1024);

    let layout_align4 = Layout::from_size_align(1024, 4).unwrap();
    let layout_align16 = Layout::from_size_align(256, 16).unwrap();

    // Shrinking while increasing the alignment is refused.
    let p4 = b.allocate(layout_align4).unwrap();
    let p16_res = b.shrink(p4, layout_align4, layout_align16);

    assert_eq!(p16_res, Err(AllocErr));
}

#[test]
fn try_with_capacity_too_large() {
    // Shouldn't panic even though the capacity is too large for a `Layout`.
    let _ = Bump::try_with_capacity(isize::MAX as usize + 1);
}

#[test]
fn boxed_into_raw_aliasing() {
    let mut bump = Bump::new();
    let boxed = Box::new_in(&[1], &mut bump);
    let raw = Box::into_raw(boxed);
    assert_eq!(bump.read(raw, 1), vec![1]);
}

fn i32_array(len: usize) -> Layout {
    Layout::array::<i32>(len).unwrap()
}

#[test]
fn change_allocation_limit_with_live_allocations() {
    let mut bump = Bump::new();

    bump.set_allocation_limit(Some(512));

    bump.alloc_layout(Layout::new::<i32>());

    assert!(bump.allocate_zeroed(i32_array(2048)).is_err());

    bump.set_allocation_limit(Some(16384));

    assert!(bump.allocate_zeroed(i32_array(2048)).is_ok());
    assert!(bump.allocation_limit().unwrap() >= bump.allocated_bytes());
}

#[test]
fn remove_allocation_limit_with_live_allocations() {
    let mut bump = Bump::new();

    bump.set_allocation_limit(Some(512));

    bump.alloc_layout(Layout::new::<i32>());

    assert!(bump.allocate_zeroed(i32_array(2048)).is_err());
    assert!(bump.allocation_limit().unwrap() >= bump.allocated_bytes());

    bump.set_allocation_limit(None);

    assert!(bump.allocate_zeroed(i32_array(2048)).is_ok());
}

#[test]
fn reset_preserves_allocation_limits() {
    let mut bump = Bump::new();

    bump.set_allocation_limit(Some(512));
    bump.reset();

    assert!(bump.allocate_zeroed(i32_array(2048)).is_err());
    assert!(bump.allocation_limit().unwrap() >= bump.allocated_bytes());
}

#[test]
fn reset_updates_allocated_bytes() {
    let mut bump = Bump::new();

    bump.allocate_zeroed(i32_array(1 << 9)).unwrap();

    // This second allocation should be a big enough one
    // after the first to force a new chunk allocation
    bump.allocate_zeroed(i32_array(1 << 9)).unwrap();

    let allocated_bytes_before_reset = bump.allocated_bytes();

    bump.reset();

    let allocated_bytes_after_reset = bump.allocated_bytes();

    assert!(allocated_bytes_after_reset < allocated_bytes_before_reset);
}

#[test]
fn small_allocation_limit() {
    let mut bump = Bump::new();

    bump.set_allocation_limit(Some(64));
    assert!(bump.allocate_zeroed(i32_array(1)).is_ok());
}

#[test]
fn can_iterate_over_allocated_things() {
    let mut bump = Bump::new();

    const MAX: u64 = 131072;

    // For each chunk, the lowest allocation in it: the chunk's cursor.
    let mut chunk_lows: Vec<usize> = vec![];
    let mut last: Option<usize> = None;

    for i in 0..MAX {
        let this = bump.alloc_layout(Layout::new::<u64>());
        bump.write(this, &i.to_le_bytes());
        let back = bump.read(this, 8);
        assert_eq!(u64::from_le_bytes([back[0], back[1], back[2], back[3], back[4], back[5], back[6], back[7]]), i);

        let same_chunk = match last {
            Some(last) => this + 8 == last,
            None => false,
        };
        if same_chunk {
            *chunk_lows.last_mut().unwrap() = this;
        } else {
            assert!(!chunk_lows.contains(&this), "should not have already allocated this chunk");
            chunk_lows.push(this);
        }
        last = Some(this);
    }

    let mut seen = vec![false; MAX as usize];
    let regions = bump.iter_allocated_chunks();
    assert_eq!(regions.len(), chunk_lows.len());
    for (k, (start, bytes)) in regions.iter().enumerate() {
        assert_eq!(
            *start,
            chunk_lows[chunk_lows.len() - 1 - k],
            "should iterate over each chunk once, newest first"
        );
        for word in bytes.chunks(8) {
            let v = u64::from_le_bytes([word[0], word[1], word[2], word[3], word[4], word[5], word[6], word[7]]);
            assert!(v < MAX, "{} < {} (aka {:x} < {:x})", v, MAX, v, MAX);
            seen[v as usize] = true;
        }
    }

    assert!(seen.iter().all(|s| *s));
}

#[test]
fn alloc_zeroed() {
    let mut b = Bump::new();
    let f = b.allocate_zeroed(Layout::new::<(u32, u8)>()).unwrap();
    assert_eq!(b.read(f, 4), vec![0, 0, 0, 0]);
    assert_eq!(b.read(f + 4, 1), vec![0]);
}

#[test]
fn alloc_slice_zeroed() {
    let mut b = Bump::new();
    let layout = Layout::array::<(u32, u8)>(10).unwrap();
    let s = b.allocate_zeroed(layout).unwrap();
    assert_eq!(layout.size() / 8, 10);
    assert_eq!(b.read(s, 4), vec![0, 0, 0, 0]);
    assert_eq!(b.read(s + 9 * 8, 4), vec![0, 0, 0, 0]);
}

#[test]
fn alloc_slice_zeroed_empty() {
    let mut b = Bump::new();
    let layout = Layout::array::<(u32, u8)>(0).unwrap();
    b.allocate_zeroed(layout).unwrap();
    assert_eq!(layout.size(), 0);
}

#[test]
fn alloc_slice_zeroed_external() {
    let mut b = Bump::new();
    let layout = Layout::array::<bool>(10).unwrap();
    let s = b.allocate_zeroed(layout).unwrap();
    assert_eq!(layout.size(), 10);
    assert_eq!(b.read(s, 1), vec![0]);
}

#[test]
fn alloc_zeroed_zst() {
    let mut b = Bump::new();
    b.allocate_zeroed(Layout::new::<()>()).unwrap();
}

#[test]
fn alloc_slice_zeroed_zst() {
    let mut b = Bump::new();
    let layout = Layout::array::<()>(10).unwrap();
    b.allocate_zeroed(layout).unwrap();
    assert_eq!(layout.size(), 0);
}

#[test]
fn alloc_slice_zeroed_zst_empty() {
    let mut b = Bump::new();
    let layout = Layout::array::<()>(0).unwrap();
    b.allocate_zeroed(layout).unwrap();
    assert_eq!(layout.size(), 0);
}

#[test]
fn alloc_zeroed_big() {
    let mut b = Bump::new();
    let layout = Layout::new::<[u32; 0x10000]>();
    let big = b.allocate_zeroed(layout).unwrap();
    assert_eq!(layout.size() / 4, 0x10000);
    assert_eq!(b.read(big + layout.size() - 4, 4), vec![0, 0, 0, 0]);
}
