use vstd::prelude::*;

pub mod accounts;
pub mod allocated_in_self_list;
pub mod allocation;
pub mod allocator_for_self_allocations;
pub mod blocks;
pub mod btree_map;
pub mod buddy;
pub mod carving;
pub mod chunk_buffer;
pub mod chunk_manager;
pub mod chunks;
pub mod commitment;
pub mod deallocation;
pub mod destruction;
pub mod failures;
pub mod hints;
pub mod incoming;
pub mod info_for_size;
pub mod inner;
pub mod laws;
pub mod limit;
pub mod manager;
pub mod map_entries;
pub mod non_local_ptr_manager;
pub mod numa;
pub mod os;
pub mod ownership;
pub mod placement;
pub mod powers;
pub mod preparation;
pub mod region;
pub mod self_alloc;
pub mod self_blocks;
pub mod self_box;
pub mod self_vec;
pub mod sizes;
pub mod state;
pub mod stats;
pub mod steps;
pub mod takeover;
pub mod thread_local_allocator;
pub mod used_objects;
pub mod vec_in_os;
pub mod vectors;
