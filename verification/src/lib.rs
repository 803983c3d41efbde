//! A verified model of the virtual-memory subsystem of a small 64-bit kernel.
//!
//! Physical memory is modelled as an arena of page-table frames indexed by
//! physical frame number, and the hardware's page-table base register as a
//! plain frame index, so that the recursive-mapping trick, the mapper, the
//! temporary page and the kernel remap protocol can all be stated and proved
//! over ordinary data.  The thin layer that reads the real boot information
//! and pokes the real control registers lives outside this crate.

pub mod frame;
pub mod page;
pub mod table;
pub mod mapper;
pub mod allocator;
pub mod paging;
