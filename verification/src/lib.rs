//! A memory allocator over explicit address-space regions.

pub mod api;
pub mod arena;
pub mod dllmain;
pub mod huge;
pub mod memory;
pub mod platform;
pub mod size_class;
pub mod slab;
pub mod thread_cache;
pub mod tlsf;
