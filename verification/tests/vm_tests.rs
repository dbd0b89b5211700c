use kcore::vm::{
    page_count, FrameAllocator, PageTable, Perms, Pte, VmError, MAX_FRAME, PAGE_SIZE,
};

fn user_rw() -> Perms {
    Perms { read: true, write: true, execute: false, user: true }
}

fn allocator_with(frames: &[u64]) -> FrameAllocator {
    let mut a = FrameAllocator::new();
    for f in frames {
        a.release(*f);
    }
    a
}

#[test]
fn empty_table_translates_nothing() {
    let t = PageTable::new(8);
    assert_eq!(t.limit(), 8);
    for page in 0..8u64 {
        assert_eq!(t.translate(page * PAGE_SIZE), Err(VmError::Unmapped));
    }
    assert_eq!(t.translate(8 * PAGE_SIZE), Err(VmError::Unmapped));
    assert_eq!(t.translate(u64::MAX), Err(VmError::Unmapped));
}

#[test]
fn map_then_translate_every_page() {
    let mut t = PageTable::new(16);
    let frames = vec![100u64, 7, 42];
    assert_eq!(t.map_pages(3, &frames, user_rw()), Ok(()));
    for (i, f) in frames.iter().enumerate() {
        let va = (3 + i as u64) * PAGE_SIZE;
        assert_eq!(t.translate(va), Ok(f * PAGE_SIZE));
        assert_eq!(t.translate(va + 4095), Ok(f * PAGE_SIZE + 4095));
        assert_eq!(t.lookup(3 + i), Some(Pte { frame: *f, perms: user_rw() }));
    }
    assert_eq!(t.translate(2 * PAGE_SIZE + 4095), Err(VmError::Unmapped));
    assert_eq!(t.translate(6 * PAGE_SIZE), Err(VmError::Unmapped));
}

#[test]
fn translate_exact_address() {
    let mut t = PageTable::new(4);
    assert_eq!(t.map_pages(1, &vec![5], user_rw()), Ok(()));
    assert_eq!(t.translate(4096 + 123), Ok(5 * 4096 + 123));
    assert_eq!(t.translate(0x1abc), Ok(0x5abc));
}

#[test]
fn unmap_then_translate_fails() {
    let mut t = PageTable::new(16);
    let frames = vec![9u64, 8, 7, 6];
    assert_eq!(t.map_pages(2, &frames, user_rw()), Ok(()));
    assert_eq!(t.unmap_pages(3, 2), Ok(vec![8, 7]));
    assert_eq!(t.translate(3 * PAGE_SIZE), Err(VmError::Unmapped));
    assert_eq!(t.translate(4 * PAGE_SIZE + 17), Err(VmError::Unmapped));
    assert_eq!(t.translate(2 * PAGE_SIZE), Ok(9 * PAGE_SIZE));
    assert_eq!(t.translate(5 * PAGE_SIZE), Ok(6 * PAGE_SIZE));
}

#[test]
fn unmap_of_unmapped_page_changes_nothing() {
    let mut t = PageTable::new(8);
    assert_eq!(t.map_pages(0, &vec![1, 2], user_rw()), Ok(()));
    assert_eq!(t.unmap_pages(1, 2), Err(VmError::Unmapped));
    assert_eq!(t.translate(PAGE_SIZE), Ok(2 * PAGE_SIZE));
    assert_eq!(t.unmap_pages(7, 2), Err(VmError::Unmapped));
    assert_eq!(t.unmap_pages(9, 0), Err(VmError::Unmapped));
    assert_eq!(t.unmap_pages(1, 0), Ok(vec![]));
}

#[test]
fn map_rejects_overlap_and_changes_nothing() {
    let mut t = PageTable::new(8);
    assert_eq!(t.map_pages(2, &vec![10, 11], user_rw()), Ok(()));
    assert_eq!(t.map_pages(1, &vec![20, 21], user_rw()), Err(VmError::Overlap));
    assert_eq!(t.lookup(1), None);
    assert_eq!(t.translate(2 * PAGE_SIZE), Ok(10 * PAGE_SIZE));
}

#[test]
fn map_rejects_range_outside_table() {
    let mut t = PageTable::new(4);
    assert_eq!(t.map_pages(3, &vec![1, 2], user_rw()), Err(VmError::OutOfRange));
    assert_eq!(t.map_pages(5, &vec![], user_rw()), Err(VmError::OutOfRange));
    assert_eq!(t.map_pages(4, &vec![], user_rw()), Ok(()));
    assert_eq!(t.lookup(3), None);
}

#[test]
fn map_rejects_frame_without_address() {
    let mut t = PageTable::new(4);
    assert_eq!(t.map_pages(0, &vec![1, MAX_FRAME + 1], user_rw()), Err(VmError::OutOfRange));
    assert_eq!(t.lookup(0), None);
    assert_eq!(t.map_pages(0, &vec![MAX_FRAME], user_rw()), Ok(()));
    assert_eq!(t.translate(4095), Ok(u64::MAX));
}

#[test]
fn allocator_is_a_stack() {
    let mut a = allocator_with(&[1, 2, 3]);
    assert_eq!(a.available(), 3);
    assert_eq!(a.allocate(), Some(3));
    assert_eq!(a.allocate(), Some(2));
    a.release(9);
    assert_eq!(a.allocate(), Some(9));
    assert_eq!(a.allocate(), Some(1));
    assert_eq!(a.allocate(), None);
    assert_eq!(a.available(), 0);
}

#[test]
fn duplicate_takes_one_frame_per_mapped_page() {
    let mut t = PageTable::new(8);
    let exec = Perms { read: true, write: false, execute: true, user: true };
    assert_eq!(t.map_pages(1, &vec![50], exec), Ok(()));
    assert_eq!(t.map_pages(4, &vec![60, 61], user_rw()), Ok(()));
    let mut a = allocator_with(&[10, 11, 12, 13]);
    let copy = t.duplicate(&mut a).expect("enough frames");
    assert_eq!(copy.limit(), 8);
    assert_eq!(copy.lookup(1), Some(Pte { frame: 13, perms: exec }));
    assert_eq!(copy.lookup(4), Some(Pte { frame: 12, perms: user_rw() }));
    assert_eq!(copy.lookup(5), Some(Pte { frame: 11, perms: user_rw() }));
    assert_eq!(copy.lookup(0), None);
    assert_eq!(copy.lookup(6), None);
    assert_eq!(a.available(), 1);
    assert_eq!(a.allocate(), Some(10));
    assert_eq!(t.lookup(4), Some(Pte { frame: 60, perms: user_rw() }));
}

#[test]
fn duplicate_without_frames_changes_nothing() {
    let mut t = PageTable::new(8);
    assert_eq!(t.map_pages(0, &vec![50, 51, 52], user_rw()), Ok(()));
    let mut a = allocator_with(&[10, 11]);
    assert!(matches!(t.duplicate(&mut a), Err(VmError::OutOfMemory)));
    assert_eq!(a.available(), 2);
    assert_eq!(a.allocate(), Some(11));
    assert_eq!(a.allocate(), Some(10));
}

#[test]
fn release_all_gives_each_frame_back_once() {
    let mut t = PageTable::new(8);
    assert_eq!(t.map_pages(2, &vec![30, 31], user_rw()), Ok(()));
    assert_eq!(t.map_pages(6, &vec![32], user_rw()), Ok(()));
    let mut a = allocator_with(&[1]);
    t.release_all(&mut a);
    assert_eq!(a.available(), 4);
    assert_eq!(a.allocate(), Some(32));
    assert_eq!(a.allocate(), Some(31));
    assert_eq!(a.allocate(), Some(30));
    assert_eq!(a.allocate(), Some(1));
    for page in 0..8 {
        assert_eq!(t.lookup(page), None);
    }
    t.release_all(&mut a);
    assert_eq!(a.available(), 0);
}

#[test]
fn page_count_rounds_up() {
    assert_eq!(page_count(0), 0);
    assert_eq!(page_count(1), 1);
    assert_eq!(page_count(4096), 1);
    assert_eq!(page_count(4097), 2);
    assert_eq!(page_count(u64::MAX), 0x10_0000_0000_0000);
}

#[test]
fn grow_maps_whole_pages_from_the_allocator() {
    let mut t = PageTable::new(8);
    let mut a = allocator_with(&[20, 21, 22, 23]);
    assert_eq!(t.grow(0, 4097, user_rw(), &mut a), Ok(4097));
    assert_eq!(t.lookup(0), Some(Pte { frame: 23, perms: user_rw() }));
    assert_eq!(t.lookup(1), Some(Pte { frame: 22, perms: user_rw() }));
    assert_eq!(t.lookup(2), None);
    assert_eq!(a.available(), 2);
    // Growing inside the last page needs no frame.
    assert_eq!(t.grow(4097, 100, user_rw(), &mut a), Ok(4197));
    assert_eq!(a.available(), 2);
    assert_eq!(t.grow(4197, 4096, user_rw(), &mut a), Ok(8293));
    assert_eq!(t.lookup(2), Some(Pte { frame: 21, perms: user_rw() }));
    assert_eq!(t.translate(8292), Ok(21 * 4096 + 100));
}

#[test]
fn grow_without_frames_or_room_changes_nothing() {
    let mut t = PageTable::new(4);
    let mut a = allocator_with(&[20]);
    assert_eq!(t.grow(0, 2 * 4096, user_rw(), &mut a), Err(VmError::OutOfMemory));
    assert_eq!(a.available(), 1);
    assert_eq!(t.lookup(0), None);
    let mut b = allocator_with(&[1, 2, 3, 4, 5, 6]);
    assert_eq!(t.grow(0, 5 * 4096, user_rw(), &mut b), Err(VmError::OutOfMemory));
    assert_eq!(t.grow(1, u64::MAX, user_rw(), &mut b), Err(VmError::OutOfMemory));
    assert_eq!(b.available(), 6);
    assert_eq!(t.map_pages(1, &vec![9], user_rw()), Ok(()));
    assert_eq!(t.grow(0, 2 * 4096, user_rw(), &mut b), Err(VmError::Overlap));
    assert_eq!(b.available(), 6);
    assert_eq!(t.lookup(0), None);
}

#[test]
fn shrink_frees_whole_pages_once() {
    let mut t = PageTable::new(8);
    let mut a = allocator_with(&[20, 21, 22]);
    assert_eq!(t.grow(0, 3 * 4096, user_rw(), &mut a), Ok(3 * 4096));
    assert_eq!(a.available(), 0);
    assert_eq!(t.shrink(3 * 4096, 4095, &mut a), Ok(2 * 4096 + 1));
    assert_eq!(a.available(), 0);
    assert_eq!(t.shrink(2 * 4096 + 1, 4097, &mut a), Ok(4096));
    assert_eq!(a.available(), 2);
    assert_eq!(t.lookup(0), Some(Pte { frame: 22, perms: user_rw() }));
    assert_eq!(t.lookup(1), None);
    assert_eq!(t.lookup(2), None);
    assert_eq!(a.allocate(), Some(20));
    assert_eq!(a.allocate(), Some(21));
    assert_eq!(t.shrink(4096, 4097, &mut a), Err(VmError::BelowMinimum));
    assert_eq!(t.shrink(4096, 4096, &mut a), Ok(0));
    assert_eq!(a.allocate(), Some(22));
}

#[test]
fn shrink_of_unmapped_pages_changes_nothing() {
    let mut t = PageTable::new(4);
    let mut a = allocator_with(&[]);
    assert_eq!(t.shrink(4096, 4096, &mut a), Err(VmError::Unmapped));
    assert_eq!(t.shrink(5 * 4096, 1, &mut a), Err(VmError::Unmapped));
    assert_eq!(a.available(), 0);
}

#[test]
fn resize_by_signed_delta() {
    let mut t = PageTable::new(8);
    let mut a = allocator_with(&[20, 21, 22]);
    assert_eq!(t.resize(0, 8192, user_rw(), &mut a), Ok(8192));
    assert_eq!(a.available(), 1);
    assert_eq!(t.resize(8192, -4096, user_rw(), &mut a), Ok(4096));
    assert_eq!(a.available(), 2);
    assert_eq!(t.resize(4096, 0, user_rw(), &mut a), Ok(4096));
    assert_eq!(t.resize(4096, -4097, user_rw(), &mut a), Err(VmError::BelowMinimum));
    assert_eq!(t.resize(4096, i64::MIN, user_rw(), &mut a), Err(VmError::BelowMinimum));
    assert_eq!(t.resize(4096, 3 * 4096, user_rw(), &mut a), Err(VmError::OutOfMemory));
    assert_eq!(a.available(), 2);
    assert_eq!(t.lookup(0), Some(Pte { frame: 22, perms: user_rw() }));
    assert_eq!(t.lookup(1), None);
}

#[test]
fn kernel_stacks_lie_below_guard_pages() {
    let kernel_rw = Perms { read: true, write: true, execute: false, user: false };
    let mut t = PageTable::new(8);
    let mut a = allocator_with(&[1, 2, 3]);
    assert_eq!(t.map_kernel_stacks(3, &mut a), Ok(()));
    assert_eq!(t.lookup(6), Some(Pte { frame: 3, perms: kernel_rw }));
    assert_eq!(t.lookup(4), Some(Pte { frame: 2, perms: kernel_rw }));
    assert_eq!(t.lookup(2), Some(Pte { frame: 1, perms: kernel_rw }));
    for guard in [7usize, 5, 3, 1, 0] {
        assert_eq!(t.lookup(guard), None);
    }
    assert_eq!(a.available(), 0);
}

#[test]
fn kernel_stacks_need_room_and_frames() {
    let mut t = PageTable::new(8);
    let mut a = allocator_with(&[1, 2, 3]);
    assert_eq!(t.map_kernel_stacks(5, &mut a), Err(VmError::OutOfRange));
    assert_eq!(t.map_kernel_stacks(4, &mut a), Err(VmError::OutOfMemory));
    assert_eq!(a.available(), 3);
    assert_eq!(t.map_pages(7, &vec![9], user_rw()), Ok(()));
    assert_eq!(t.map_kernel_stacks(1, &mut a), Err(VmError::Overlap));
    assert_eq!(t.map_kernel_stacks(0, &mut a), Ok(()));
    assert_eq!(a.available(), 3);
    assert_eq!(t.lookup(6), None);
}
