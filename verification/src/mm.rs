//! Virtual memory: addresses, page tables, frames and address spaces.

pub mod address;
pub mod frame_allocator;
pub mod memory_set;
pub mod page_table;
pub mod user_buffer;
