use boot_core::boot::{
    alloc_error, bring_up, core_entry, heap_region, image_region, prepare_memory, uncaught_fault, zero_fill, BootError,
    CoreAction, FaultResponse, SecondaryPolicy, IMAGE_LOAD_ADDRESS,
};
use boot_core::region::MemoryRegion;
use boot_core::stack::{core_id_from_affinity, stack_top, CORE_COUNT, STACK_SIZE};

#[test]
fn stack_table_tops() {
    assert_eq!(stack_top(0), 0x800000);
    assert_eq!(stack_top(1), 0x700000);
    assert_eq!(stack_top(2), 0x600000);
    assert_eq!(stack_top(3), 0x500000);
}

#[test]
fn stacks_do_not_overlap() {
    for i in 0..CORE_COUNT {
        for j in 0..CORE_COUNT {
            if i != j {
                let (ti, tj) = (stack_top(i), stack_top(j));
                assert!(ti <= tj - STACK_SIZE || tj <= ti - STACK_SIZE);
            }
        }
    }
}

#[test]
fn core_id_is_low_two_bits() {
    assert_eq!(core_id_from_affinity(0x8000_0000), 0);
    assert_eq!(core_id_from_affinity(0x8000_0003), 3);
    assert_eq!(core_id_from_affinity(0x0000_0106), 2);
}

#[test]
fn primary_core_brings_up() {
    let s = core_entry(0x8000_0000, SecondaryPolicy::Parked);
    assert_eq!(s.core_id, 0);
    assert_eq!(s.stack_top, 0x800000);
    assert_eq!(s.action, CoreAction::BringUp);
}

#[test]
fn secondary_cores_follow_policy() {
    let p = core_entry(0x8000_0002, SecondaryPolicy::Parked);
    assert_eq!(p.action, CoreAction::Park);
    assert_eq!(p.stack_top, 0x600000);
    let q = core_entry(0x8000_0003, SecondaryPolicy::Registered);
    assert_eq!(q.action, CoreAction::Register(3));
    assert_eq!(q.stack_top, 0x500000);
}

#[test]
fn zero_fill_clears_only_the_range() {
    let mut mem = vec![0xAAu8; 32];
    zero_fill(&mut mem, 8, 16);
    for (i, b) in mem.iter().enumerate() {
        if (8..24).contains(&i) {
            assert_eq!(*b, 0);
        } else {
            assert_eq!(*b, 0xAA);
        }
    }
}

#[test]
fn zero_fill_empty_range() {
    let mut mem = vec![7u8; 4];
    zero_fill(&mut mem, 4, 0);
    assert_eq!(mem, vec![7u8; 4]);
}

#[test]
fn heap_region_raises_start_to_floor() {
    let h = heap_region(MemoryRegion::new(0, 0x3b40_0000)).unwrap();
    assert_eq!(h, MemoryRegion::new(0x1000, 0x3b40_0000));
}

#[test]
fn heap_region_aligns_down() {
    let h = heap_region(MemoryRegion::new(0x1234_5678, 0x1005)).unwrap();
    assert_eq!(h, MemoryRegion::new(0x1234_5670, 0x1000));
}

#[test]
fn heap_region_too_small_is_fault() {
    assert_eq!(heap_region(MemoryRegion::new(0x2000, 0xF)), Err(BootError::PreHeapFault));
}

#[test]
fn heap_region_past_address_space_is_fault() {
    assert_eq!(heap_region(MemoryRegion::new(u64::MAX - 0xFF, 0x1000)), Err(BootError::PreHeapFault));
}

#[test]
fn image_region_at_load_address() {
    assert_eq!(image_region(0x4000), MemoryRegion::new(IMAGE_LOAD_ADDRESS, 0x4000));
}

#[test]
fn prepare_memory_reserves_image() {
    let plan = match prepare_memory(MemoryRegion::new(0, 0x3b40_0000), 0x4000) {
        Ok(p) => p,
        Err(e) => panic!("bring-up failed: {:?}", e),
    };
    assert_eq!(plan.stack_pointer, 0x3b40_1000);
    assert_eq!(
        plan.allocator.free_blocks().clone(),
        vec![MemoryRegion::new(0x1000, 0x7F_F000), MemoryRegion::new(0x80_4000, 0x3b40_1000 - 0x80_4000)]
    );
    assert_eq!(plan.allocator.reserved_blocks().clone(), vec![MemoryRegion::new(0x80_0000, 0x4000)]);
}

#[test]
fn prepare_memory_unusable_extent() {
    assert!(matches!(prepare_memory(MemoryRegion::new(0, 8), 0x4000), Err(BootError::PreHeapFault)));
}

#[test]
fn allocation_failure_halts_silently() {
    assert!(matches!(alloc_error(0x100, 0x10), FaultResponse::Halt));
}

#[test]
fn uncaught_fault_reports_description() {
    match uncaught_fault(Some("index out of bounds")) {
        FaultResponse::HaltWithMessage(m) => assert_eq!(m, "Panic occured !\n\rindex out of bounds"),
        other => panic!("unexpected response {:?}", other),
    }
    match uncaught_fault(None) {
        FaultResponse::HaltWithFixedMessage(m) => assert_eq!(m, "Panic occured !"),
        other => panic!("unexpected response {:?}", other),
    }
}

#[test]
fn bring_up_zeroes_then_prepares() {
    let mut mem = vec![0xFFu8; 64];
    let plan = match bring_up(&mut mem, 16, 32, MemoryRegion::new(0x2000, 0x10_0000), 0x1000) {
        Ok(p) => p,
        Err(e) => panic!("bring-up failed: {:?}", e),
    };
    assert!(mem[16..48].iter().all(|b| *b == 0));
    assert!(mem[..16].iter().chain(mem[48..].iter()).all(|b| *b == 0xFF));
    assert_eq!(plan.stack_pointer, 0x10_2000);
    assert_eq!(plan.allocator.free_blocks().clone(), vec![MemoryRegion::new(0x2000, 0x10_0000)]);
    assert_eq!(plan.allocator.reserved_blocks().clone(), vec![MemoryRegion::new(0x80_0000, 0x1000)]);
}

#[test]
fn bring_up_fault_still_zeroes() {
    let mut mem = vec![1u8; 8];
    assert!(matches!(bring_up(&mut mem, 0, 8, MemoryRegion::new(0, 0), 0x1000), Err(BootError::PreHeapFault)));
    assert_eq!(mem, vec![0u8; 8]);
}

#[test]
fn image_beyond_small_heap_stays_reserved_after_extension() {
    let mut plan = match prepare_memory(MemoryRegion::new(0, 0x10_0000), 0x4000) {
        Ok(p) => p,
        Err(e) => panic!("bring-up failed: {:?}", e),
    };
    assert_eq!(plan.allocator.reserved_blocks().clone(), vec![MemoryRegion::new(0x80_0000, 0x4000)]);
    plan.allocator.extend_upper_bound(0x90_0000);
    assert_eq!(
        plan.allocator.free_blocks().clone(),
        vec![
            MemoryRegion::new(0x1000, 0x10_0000),
            MemoryRegion::new(0x10_1000, 0x80_0000 - 0x10_1000),
            MemoryRegion::new(0x80_4000, 0x90_0000 - 0x80_4000),
        ]
    );
    assert_eq!(plan.allocator.allocate(0x4000, 0x80_0000), None);
}
