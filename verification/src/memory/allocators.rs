//! Memory allocators.

pub mod heap;
pub mod phys;
