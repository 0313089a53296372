//! Memory-management building blocks: sequential containers, pools, an arena,
//! a singly linked list, and a Treiber stack with hazard-slot reclamation.

pub mod stack;
pub mod lock_free;
pub mod linked_list;
pub mod ring_buffer;
pub mod circular_buffer;
pub mod queue;
pub mod reverse;
pub mod arena;
pub mod chunk_pool;
pub mod block_pool;
pub mod rc_gc;
pub mod arc_gc;
