//! Cold-start logic of a freestanding multi-core program: per-core stacks,
//! core dispatch, heap-region sizing, a verified free-list allocator and the
//! fault hooks; also the composite shapes of the rendering demo.
pub mod allocator;
pub mod boot;
pub mod region;
pub mod shapes;
pub mod stack;
