//! An embeddable memory allocator: size classes, arena pages with local and
//! foreign free lists, per-thread heaps and the aligned-mapping protocol, as
//! verified state machines over plain addresses and offsets.
pub mod arena;
pub mod bins;
pub mod heap;
pub mod slab;
pub mod layout;
pub mod mapping;
pub mod heap_manager;
pub mod timer;
pub mod wake_op;
pub mod numbers;
