//! The stack table: one private stack per core, fixed at link time.
use vstd::prelude::*;

verus! {

/// Number of entries in the stack table (the hardware's maximum core count).
pub const CORE_COUNT: usize = 4;

/// Size in bytes of the stack given to each core; stacks grow downward from
/// their top address.
pub const STACK_SIZE: u64 = 0x10_0000;

/// Top address of the stack of core `id`, as the table holds it.
pub open spec fn stack_top_spec(id: int) -> int {
    0x80_0000 - id * 0x10_0000
}

/// The addresses `[top - STACK_SIZE, top)` that core `id` may use as stack.
pub open spec fn stack_range(id: int) -> Set<int> {
    Set::new(|a: int| stack_top_spec(id) - STACK_SIZE <= a < stack_top_spec(id))
}

/// Looks up the stack top of core `id` in the table.
pub fn stack_top(id: usize) -> (r: u64)
    requires
        id < CORE_COUNT,
    ensures
        r == stack_top_spec(id as int),
{
    let table: [u64; 4] = [0x80_0000, 0x70_0000, 0x60_0000, 0x50_0000];
    table[id]
}

/// Extracts the core identifier from the processor affinity register: its two
/// lowest bits.
pub fn core_id_from_affinity(mpidr: u64) -> (r: usize)
    ensures
        r == mpidr % 4,
        r < CORE_COUNT,
{
    (mpidr % 4) as usize
}

/// Two different cores of the table never share a stack byte.
pub proof fn lemma_stack_isolation(i: int, j: int)
    requires
        0 <= i < CORE_COUNT,
        0 <= j < CORE_COUNT,
        i != j,
    ensures
        stack_range(i).disjoint(stack_range(j)),
{
    assert forall|a: int| !(stack_range(i).contains(a) && stack_range(j).contains(a)) by {
        if stack_range(i).contains(a) && stack_range(j).contains(a) {
            assert(stack_top_spec(i) - STACK_SIZE <= a < stack_top_spec(i));
            assert(stack_top_spec(j) - STACK_SIZE <= a < stack_top_spec(j));
        }
    }
}

} // verus!
