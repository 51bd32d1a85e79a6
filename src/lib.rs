//! Compiles many small tile sheets into one packed atlas image and a lookup
//! table from format and item identifier to pixel coordinates in the atlas.

pub mod format;
pub mod capacity;
pub mod raster;
pub mod cursor;
pub mod tile_set;
pub mod compile;

pub use capacity::{atlas_side, floor_sqrt, plan_atlas, AtlasPlan};
pub use compile::{compile, flatten_parts, pack_atlas};
pub use cursor::TileSetCursor;
pub use format::{
    num_tiles, try_num_tiles, validate_group, Error, GroupFormats, InputTileFormat,
    OutputTileFormat, TileSetSource, TileSetSourceGroup, TileSetSourceItem, TileSource,
};
pub use raster::Raster;
pub use tile_set::{insert_item, TileSet, TileSetItems};
