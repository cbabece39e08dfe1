//! Bring-up decisions: core dispatch at entry, zero-filling, sizing the heap
//! region, preparing the allocator, and the fault hooks.
use vstd::prelude::*;
use vstd::string::*;
use crate::allocator::{Allocator, ReserveError, conflicts};
use crate::region::{MemoryRegion, subtract_all};
use crate::stack::{core_id_from_affinity, stack_top, stack_top_spec};

verus! {

/// Lowest address the heap may start at: below it lie fixed hardware
/// structures.
pub const MIN_HEAP_START: u64 = 0x1000;

/// Boundary to which the heap's start and length are aligned down.
pub const HEAP_ALIGN: u64 = 16;

/// Address at which the program image is loaded.
pub const IMAGE_LOAD_ADDRESS: u64 = 0x80_0000;

/// What every core other than the primary does once its stack is set.
#[derive(Clone, Copy, Debug, PartialEq, Eq, Structural)]
pub enum SecondaryPolicy {
    /// Idle forever.
    Parked,
    /// Report to the work-registration facility and wait for work there.
    Registered,
}

/// Where a core goes after its stack is active.
#[derive(Clone, Copy, Debug, PartialEq, Eq, Structural)]
pub enum CoreAction {
    /// The primary core runs the bring-up sequence.
    BringUp,
    /// Enter the idle loop for good.
    Park,
    /// Register this core identifier with the work-registration facility.
    Register(usize),
}

/// The decision taken at entry for one core.
#[derive(Clone, Copy, Debug, PartialEq, Eq, Structural)]
pub struct CoreStart {
    pub core_id: usize,
    pub stack_top: u64,
    pub action: CoreAction,
}

/// Errors of the bring-up sequence; each one ends in a halt.
#[derive(Clone, Copy, Debug, PartialEq, Eq, Structural)]
pub enum BootError {
    /// The memory extent reported by the platform is unusable.
    PreHeapFault,
    /// The image region overlaps a block already handed out.
    ReservationConflict,
}

/// What a fault hook asks of the machine: a halt, with or without a
/// diagnostic to write first. A fixed diagnostic needs no allocation.
#[derive(Clone, Debug)]
pub enum FaultResponse {
    Halt,
    HaltWithMessage(String),
    HaltWithFixedMessage(&'static str),
}

/// The action of core `id` under `policy`.
pub open spec fn action_of(id: int, policy: SecondaryPolicy) -> CoreAction {
    if id == 0 {
        CoreAction::BringUp
    } else {
        match policy {
            SecondaryPolicy::Parked => CoreAction::Park,
            SecondaryPolicy::Registered => CoreAction::Register(id as usize),
        }
    }
}

/// Entry of every core: the identifier comes from the two low bits of the
/// affinity register, the stack from the table; core 0 goes on to bring-up,
/// the others follow `policy`.
pub fn core_entry(affinity: u64, policy: SecondaryPolicy) -> (r: CoreStart)
    ensures
        r.core_id == affinity % 4,
        r.stack_top == stack_top_spec(r.core_id as int),
        r.action == action_of(r.core_id as int, policy),
{
    let core_id = core_id_from_affinity(affinity);
    let top = stack_top(core_id);
    let action = if core_id == 0 {
        CoreAction::BringUp
    } else {
        match policy {
            SecondaryPolicy::Parked => CoreAction::Park,
            SecondaryPolicy::Registered => CoreAction::Register(core_id),
        }
    };
    CoreStart { core_id, stack_top: top, action }
}

/// Writes zero over `mem[start .. start + len)`; every other byte is kept.
pub fn zero_fill(mem: &mut Vec<u8>, start: usize, len: usize)
    requires
        start + len <= old(mem).len(),
    ensures
        final(mem).len() == old(mem).len(),
        forall|i: int| start <= i < start + len ==> #[trigger] final(mem)[i] == 0u8,
        forall|i: int| 0 <= i < old(mem).len() && !(start <= i < start + len) ==> #[trigger] final(mem)[i] == old(mem)[i],
{
    let mut k: usize = 0;
    while k < len
        invariant
            start + len <= mem.len(),
            mem.len() == old(mem).len(),
            0 <= k <= len,
            forall|i: int| start <= i < start + k ==> #[trigger] mem[i] == 0u8,
            forall|i: int| 0 <= i < mem.len() && !(start <= i < start + k) ==> #[trigger] mem[i] == old(mem)[i],
        decreases len - k,
    {
        mem.set(start + k, 0u8);
        k += 1;
    }
}

/// `x` rounded down to a multiple of the heap alignment.
pub open spec fn align_down(x: int) -> int {
    x - x % (HEAP_ALIGN as int)
}

/// Start of the heap for the reported extent: raised to the floor, then
/// aligned down.
pub open spec fn heap_start_of(extent: MemoryRegion) -> int {
    align_down(if extent.start >= MIN_HEAP_START { extent.start as int } else { MIN_HEAP_START as int })
}

/// Length of the heap for the reported extent, aligned down.
pub open spec fn heap_length_of(extent: MemoryRegion) -> int {
    align_down(extent.length as int)
}

/// The extent gives a usable heap: not empty, and its end fits in 64 bits.
pub open spec fn heap_ok(extent: MemoryRegion) -> bool {
    heap_length_of(extent) > 0 && heap_start_of(extent) + heap_length_of(extent) <= u64::MAX
}

/// The heap region for the memory extent the platform reports. An empty
/// heap, or one whose end does not fit in 64 bits, is a pre-heap fault.
pub fn heap_region(extent: MemoryRegion) -> (r: Result<MemoryRegion, BootError>)
    ensures
        r is Ok <==> heap_ok(extent),
        r is Err ==> r == Err::<MemoryRegion, BootError>(BootError::PreHeapFault),
        r matches Ok(h) ==> h.start == heap_start_of(extent) && h.length == heap_length_of(extent),
{
    let floor = if extent.start >= MIN_HEAP_START { extent.start } else { MIN_HEAP_START };
    let start = floor - floor % HEAP_ALIGN;
    let length = extent.length - extent.length % HEAP_ALIGN;
    if length == 0 {
        return Err(BootError::PreHeapFault);
    }
    match start.checked_add(length) {
        Some(_) => Ok(MemoryRegion { start, length }),
        None => Err(BootError::PreHeapFault),
    }
}

/// The region the loaded program image occupies.
pub fn image_region(image_size: u64) -> (r: MemoryRegion)
    ensures
        r.start == IMAGE_LOAD_ADDRESS,
        r.length == image_size,
{
    MemoryRegion { start: IMAGE_LOAD_ADDRESS, length: image_size }
}

/// The allocator and the stack pointer that bring-up hands on.
pub struct BootPlan {
    pub allocator: Allocator,
    pub stack_pointer: u64,
}

/// What bring-up leaves behind for the reported extent and image size: an
/// allocator over the heap region with the whole image reserved (also any
/// part beyond the heap's end) and nothing handed out, and the stack
/// pointer at the heap's top.
pub open spec fn prepared(plan: BootPlan, extent: MemoryRegion, image_size: u64) -> bool {
    let heap = MemoryRegion { start: heap_start_of(extent) as u64, length: heap_length_of(extent) as u64 };
    let image = MemoryRegion { start: IMAGE_LOAD_ADDRESS, length: image_size };
    &&& plan.allocator.wf()
    &&& plan.allocator.heap_start() == heap.start
    &&& plan.allocator.heap_end() == heap.end()
    &&& plan.stack_pointer == heap.end()
    &&& plan.allocator.free_view() == subtract_all(seq![heap], image)
    &&& plan.allocator.allocated_view() == Seq::<MemoryRegion>::empty()
    &&& plan.allocator.free_set() == heap.addrs().difference(image.addrs())
    &&& plan.allocator.reserved_set() == image.addrs()
}

/// Bring-up steps after zero-filling: size the heap from the reported
/// extent, set up the allocator over it, move the stack to the heap's top,
/// and reserve the program image.
pub fn prepare_memory(extent: MemoryRegion, image_size: u64) -> (r: Result<BootPlan, BootError>)
    requires
        IMAGE_LOAD_ADDRESS + image_size <= u64::MAX,
    ensures
        r is Ok <==> heap_ok(extent),
        r is Err ==> r matches Err(BootError::PreHeapFault),
        r matches Ok(plan) ==> prepared(plan, extent, image_size),
{
    let heap = match heap_region(extent) {
        Ok(h) => h,
        Err(e) => return Err(e),
    };
    let mut allocator = Allocator::init(heap);
    let stack_pointer = heap.start + heap.length;
    let image = image_region(image_size);
    proof {
        assert(!conflicts(allocator.allocated_view(), image));
        assert(allocator.free_set() =~= heap.addrs()) by {
            assert(allocator.free_view()[0] == heap);
        }
        assert(allocator.reserved_set() =~= Set::<int>::empty());
        assert(allocator.heap_set() =~= heap.addrs());
    }
    match allocator.reserve(image) {
        Ok(()) => {},
        Err(ReserveError::ReservationConflict) => return Err(BootError::ReservationConflict),
    }
    proof {
        assert(allocator.reserved_set() =~= image.addrs());
    }
    Ok(BootPlan { allocator, stack_pointer })
}

/// The whole bring-up of the primary core: zero the uninitialized-data
/// segment `mem[bss_start .. bss_start + bss_len)` first, then prepare the
/// heap, the allocator and the stack as `prepare_memory` does.
pub fn bring_up(mem: &mut Vec<u8>, bss_start: usize, bss_len: usize, extent: MemoryRegion, image_size: u64) -> (r: Result<BootPlan, BootError>)
    requires
        bss_start + bss_len <= old(mem).len(),
        IMAGE_LOAD_ADDRESS + image_size <= u64::MAX,
    ensures
        final(mem).len() == old(mem).len(),
        forall|i: int| bss_start <= i < bss_start + bss_len ==> #[trigger] final(mem)[i] == 0u8,
        forall|i: int| 0 <= i < old(mem).len() && !(bss_start <= i < bss_start + bss_len) ==> #[trigger] final(mem)[i] == old(mem)[i],
        r is Ok <==> heap_ok(extent),
        r is Err ==> r matches Err(BootError::PreHeapFault),
        r matches Ok(plan) ==> prepared(plan, extent, image_size),
{
    zero_fill(mem, bss_start, bss_len);
    prepare_memory(extent, image_size)
}

/// The allocation-failure hook: no diagnostic, since the output channel may
/// not be ready; the machine halts.
pub fn alloc_error(size: usize, align: usize) -> (r: FaultResponse)
    ensures
        r is Halt,
{
    FaultResponse::Halt
}

/// The uncaught-fault hook: a diagnostic naming the fault, or, when no
/// description could be built, a fixed minimal one that allocates nothing;
/// then a halt.
pub fn uncaught_fault(description: Option<&str>) -> (r: FaultResponse)
    ensures
        match description {
            Some(d) => r matches FaultResponse::HaltWithMessage(m) && m@ == "Panic occured !\n\r"@ + d@,
            None => r matches FaultResponse::HaltWithFixedMessage(m) && m@ == "Panic occured !"@,
        },
{
    match description {
        Some(d) => {
            let m = String::from_str("Panic occured !\n\r");
            FaultResponse::HaltWithMessage(m.concat(d))
        },
        None => FaultResponse::HaltWithFixedMessage("Panic occured !"),
    }
}

} // verus!
