//! A segregated-bin memory allocator over a single contiguous backing region.
//!
//! Requests are classified into a static table of size classes. Small
//! ("fixed") classes are served from per-class free lists of previously
//! released blocks; medium and large ("variable") classes are served by four
//! dedicated first-fit sub-heaps, each owning a fixed slice of the region; a
//! general first-fit fallback heap backs everything else, including the fresh
//! blocks that prime the fixed bins.
//!
//! The allocator manages addresses: it hands out and reclaims address ranges
//! of the region given to `init`, and never touches the bytes themselves.

pub mod first_fit;
pub mod rusty_heaper;
pub mod size_class;

pub use size_class::{get_alignment, size_index};
