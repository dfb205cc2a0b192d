//! Reading and writing region files of a chunked voxel world: bit-packed
//! block storage over per-section palettes, and the sector-addressed
//! container that holds up to 1024 compressed chunks.
pub mod bits;
pub mod types;
pub mod palette;
pub mod section;
pub mod chunk;
pub mod region;
pub mod util;
