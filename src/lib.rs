//! Address spaces made of named, non-overlapping memory regions.
//!
//! A [`Space`] keeps its regions ordered by base address, resolves an
//! absolute address to the region that covers it, and forwards typed
//! little-endian accesses to that region. A [`SpaceTable`] is a registry
//! that hands out one space per name.

use vstd::prelude::*;

mod le;
mod region;
mod space;
mod table;
mod text;

pub use le::{le_bytes, le_value};
pub use region::{Region, RegionInfo, RegionModel};
pub use space::{Error, Space};
pub use table::{SpaceId, SpaceTable};
