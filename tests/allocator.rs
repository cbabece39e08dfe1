use boot_core::allocator::{Allocator, ReserveError};
use boot_core::region::MemoryRegion;

fn r(start: u64, length: u64) -> MemoryRegion {
    MemoryRegion::new(start, length)
}

fn scenario_heap() -> Allocator {
    let mut a = Allocator::init(r(0x10000, 0x10000));
    assert_eq!(a.reserve(r(0x10000, 0x1000)), Ok(()));
    a
}

#[test]
fn init_gives_one_free_block() {
    let a = Allocator::init(r(0x10000, 0x10000));
    assert_eq!(a.free_blocks().clone(), vec![r(0x10000, 0x10000)]);
    assert!(a.allocated_blocks().is_empty());
    assert!(a.reserved_blocks().is_empty());
    assert_eq!(a.heap_region(), r(0x10000, 0x10000));
}

#[test]
fn init_empty_region_has_no_free_block() {
    let a = Allocator::init(r(0x10000, 0));
    assert!(a.free_blocks().is_empty());
}

#[test]
fn reserve_image_leaves_one_free_block() {
    let a = scenario_heap();
    assert_eq!(a.free_blocks().clone(), vec![r(0x11000, 0xF000)]);
    assert_eq!(a.reserved_blocks().clone(), vec![r(0x10000, 0x1000)]);
}

#[test]
fn allocate_after_reserve_splits_free_block() {
    let mut a = scenario_heap();
    let h = a.allocate(0x100, 0x10).unwrap();
    assert!(h.start >= 0x11000 && h.start + h.length <= 0x20000);
    assert_eq!(h, r(0x11000, 0x100));
    assert_eq!(a.free_blocks().clone(), vec![r(0x11100, 0xEF00)]);
    assert_eq!(a.allocated_blocks().clone(), vec![h]);
}

#[test]
fn extend_upper_bound_appends_one_block() {
    let mut a = scenario_heap();
    let h = a.allocate(0x100, 0x10).unwrap();
    a.extend_upper_bound(0x30000);
    assert_eq!(a.free_blocks().clone(), vec![r(0x11100, 0xEF00), r(0x20000, 0x10000)]);
    assert_eq!(a.allocated_blocks().clone(), vec![h]);
    assert_eq!(a.heap_region(), r(0x10000, 0x20000));
}

#[test]
fn extend_upper_bound_below_end_changes_nothing() {
    let mut a = scenario_heap();
    a.extend_upper_bound(0x18000);
    assert_eq!(a.free_blocks().clone(), vec![r(0x11000, 0xF000)]);
    assert_eq!(a.heap_region(), r(0x10000, 0x10000));
}

#[test]
fn allocate_honours_alignment() {
    let mut a = scenario_heap();
    a.allocate(0x100, 0x10).unwrap();
    let h = a.allocate(0x80, 0x1000).unwrap();
    assert_eq!(h, r(0x12000, 0x80));
    assert_eq!(a.free_blocks().clone(), vec![r(0x11100, 0xF00), r(0x12080, 0xDF80)]);
}

#[test]
fn allocate_is_first_fit() {
    let mut a = Allocator::init(r(0x1000, 0x3000));
    let x = a.allocate(0x800, 0x10).unwrap();
    let _y = a.allocate(0x800, 0x10).unwrap();
    a.deallocate(x);
    // two free blocks now: [0x1000, 0x1800) and [0x2000, 0x4000)
    let z = a.allocate(0x400, 0x10).unwrap();
    assert_eq!(z, r(0x1000, 0x400));
    let w = a.allocate(0x1000, 0x10).unwrap();
    assert_eq!(w, r(0x2000, 0x1000));
}

#[test]
fn exhaustion_fails_without_change() {
    let mut a = scenario_heap();
    a.allocate(0x100, 0x10).unwrap();
    let before_free = a.free_blocks().clone();
    let before_alloc = a.allocated_blocks().clone();
    assert_eq!(a.allocate(0xF000, 0x10), None);
    assert_eq!(a.allocate(0x10000, 1), None);
    assert_eq!(a.free_blocks().clone(), before_free);
    assert_eq!(a.allocated_blocks().clone(), before_alloc);
}

#[test]
fn exhaustion_by_alignment() {
    let mut a = Allocator::init(r(0x1010, 0x100));
    assert_eq!(a.allocate(0x100, 0x20), None);
    assert_eq!(a.allocate(0x100, 0x10), Some(r(0x1010, 0x100)));
    assert!(a.free_blocks().is_empty());
}

#[test]
fn round_trip_restores_free_list() {
    let mut a = scenario_heap();
    let before = a.free_blocks().clone();
    let h1 = a.allocate(0x100, 0x10).unwrap();
    let h2 = a.allocate(0x200, 0x100).unwrap();
    let h3 = a.allocate(0x30, 0x8).unwrap();
    a.deallocate(h2);
    a.deallocate(h3);
    a.deallocate(h1);
    assert_eq!(a.free_blocks().clone(), before);
    assert!(a.allocated_blocks().is_empty());
}

#[test]
fn deallocate_merges_both_neighbours() {
    let mut a = Allocator::init(r(0x1000, 0x300));
    let x = a.allocate(0x100, 1).unwrap();
    let y = a.allocate(0x100, 1).unwrap();
    let z = a.allocate(0x100, 1).unwrap();
    a.deallocate(x);
    a.deallocate(z);
    assert_eq!(a.free_blocks().clone(), vec![r(0x1000, 0x100), r(0x1200, 0x100)]);
    a.deallocate(y);
    assert_eq!(a.free_blocks().clone(), vec![r(0x1000, 0x300)]);
}

#[test]
fn deallocate_without_free_neighbour_inserts_block() {
    let mut a = Allocator::init(r(0x1000, 0x300));
    let _x = a.allocate(0x100, 1).unwrap();
    let y = a.allocate(0x100, 1).unwrap();
    let _z = a.allocate(0x100, 1).unwrap();
    assert!(a.free_blocks().is_empty());
    a.deallocate(y);
    assert_eq!(a.free_blocks().clone(), vec![r(0x1100, 0x100)]);
}

#[test]
fn reservation_conflict_is_refused() {
    let mut a = Allocator::init(r(0x10000, 0x10000));
    let h = a.allocate(0x100, 0x10).unwrap();
    let before = a.free_blocks().clone();
    assert_eq!(a.reserve(r(0x10080, 0x1000)), Err(ReserveError::ReservationConflict));
    assert_eq!(a.free_blocks().clone(), before);
    assert!(a.reserved_blocks().is_empty());
    assert_eq!(a.allocated_blocks().clone(), vec![h]);
}

#[test]
fn reservation_is_never_handed_out() {
    let mut a = Allocator::init(r(0x10000, 0x1000));
    let reserved = r(0x10400, 0x400);
    assert_eq!(a.reserve(reserved), Ok(()));
    assert_eq!(a.free_blocks().clone(), vec![r(0x10000, 0x400), r(0x10800, 0x800)]);
    while let Some(h) = a.allocate(0x100, 0x10) {
        assert!(h.start + h.length <= reserved.start || h.start >= reserved.start + reserved.length);
    }
    assert_eq!(a.allocated_blocks().len(), 12);
}

#[test]
fn reserve_keeps_region_whole() {
    let mut a = Allocator::init(r(0x10000, 0x1000));
    assert_eq!(a.reserve(r(0xF000, 0x1800)), Ok(()));
    assert_eq!(a.reserved_blocks().clone(), vec![r(0xF000, 0x1800)]);
    assert_eq!(a.free_blocks().clone(), vec![r(0x10800, 0x800)]);
    assert_eq!(a.reserve(r(0x20000, 0x100)), Ok(()));
    assert_eq!(a.reserved_blocks().clone(), vec![r(0xF000, 0x1800), r(0x20000, 0x100)]);
}

#[test]
fn reserve_twice_adds_only_new_part() {
    let mut a = Allocator::init(r(0x10000, 0x1000));
    assert_eq!(a.reserve(r(0x10200, 0x200)), Ok(()));
    assert_eq!(a.reserve(r(0x10100, 0x400)), Ok(()));
    assert_eq!(a.reserved_blocks().clone(), vec![r(0x10200, 0x200), r(0x10100, 0x100), r(0x10400, 0x100)]);
    assert_eq!(a.free_blocks().clone(), vec![r(0x10000, 0x100), r(0x10500, 0xB00)]);
}

#[test]
fn extend_skips_reserved_region_beyond_end() {
    let mut a = Allocator::init(r(0x10000, 0x1000));
    assert_eq!(a.reserve(r(0x18000, 0x1000)), Ok(()));
    assert_eq!(a.free_blocks().clone(), vec![r(0x10000, 0x1000)]);
    a.extend_upper_bound(0x20000);
    assert_eq!(a.free_blocks().clone(), vec![r(0x10000, 0x1000), r(0x11000, 0x7000), r(0x19000, 0x7000)]);
    while let Some(h) = a.allocate(0x800, 0x800) {
        assert!(h.start + h.length <= 0x18000 || h.start >= 0x19000);
    }
}

#[test]
fn allocate_zero_size_fails_without_change() {
    let mut a = scenario_heap();
    assert_eq!(a.allocate(0, 0x10), None);
    assert_eq!(a.free_blocks().clone(), vec![r(0x11000, 0xF000)]);
    assert!(a.allocated_blocks().is_empty());
}

#[test]
fn reserve_empty_region_changes_nothing() {
    let mut a = Allocator::init(r(0x10000, 0x1000));
    assert_eq!(a.reserve(r(0x10800, 0)), Ok(()));
    assert_eq!(a.free_blocks().clone(), vec![r(0x10000, 0x1000)]);
}

#[test]
fn free_allocated_reserved_add_up_to_heap() {
    let mut a = scenario_heap();
    let _h1 = a.allocate(0x100, 0x10).unwrap();
    let h2 = a.allocate(0x340, 0x40).unwrap();
    let _h3 = a.allocate(0x20, 0x1000).unwrap();
    a.deallocate(h2);
    let sum = |v: &Vec<MemoryRegion>| v.iter().map(|b| b.length).sum::<u64>();
    let total = sum(a.free_blocks()) + sum(a.allocated_blocks()) + sum(a.reserved_blocks());
    assert_eq!(total, 0x10000);
    let free = a.free_blocks();
    for w in free.windows(2) {
        assert!(w[0].start + w[0].length < w[1].start);
    }
}
