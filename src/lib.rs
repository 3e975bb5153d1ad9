//! Memory management core of a small x86-64 kernel: a buddy allocator of
//! physical frames and a four-level page-table mapper.
use vstd::prelude::*;

pub mod frame_alloc;
pub mod paging;
pub mod vga_buffer;
pub mod buddy;
pub mod buddy_alloc;
pub mod frame;
