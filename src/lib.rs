//! Reading, editing and writing Litematica schematics: named regions of
//! cells, each cell holding an index into a palette of block states, packed
//! into 64-bit words with a variable number of bits per cell.
pub mod block;
pub mod file;
pub mod packing;
pub mod region;
pub mod resource_location;

pub use block::{BlockState, BlockStateBuilder, BlockStatePattern};
pub use file::{LitematicaFile, Metadata};
pub use region::{Coordinates, Region, RegionError};
pub use resource_location::{ParseError, ResourceLocation};
