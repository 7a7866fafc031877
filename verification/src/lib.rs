//! A sparse voxel octree with a flat-arena layout, paired with a model of its
//! GPU-resident mirror: a capacity-bounded bump allocator with a free list,
//! a publish step that transfers a CPU tree into the GPU arenas, and the
//! per-depth draw-protocol state machine.

pub mod gpu_buffer_allocator;
pub mod math;
pub mod render;
pub mod voxel_tree;
