//! A three-granularity page allocator indexed by hierarchical bitmaps.
//!
//! Physical memory is split into small pages, big blocks of 512 small pages
//! and huge blocks of 512 big blocks. Three bit-trees record, at each
//! granularity, where an allocation is still possible; an array of tags
//! records what was handed out at which base index. Every operation keeps
//! the trees consistent with the tags, and its contract says what it does to
//! the tags.
pub mod allocator;
pub mod bit_tree;
pub mod bits;
pub mod laws;
pub mod page_state;
pub mod stats;

pub use allocator::{BuddyAllocator, Level, TreeType};
pub use bits::{bsf, find_first_one, trailing_zeros};
pub use page_state::PageType;
pub use stats::stat_free_memory;
