//! Satellite map tiles: which to download, where they lie, and the metadata of the datasets made
//! of them.
//!
//! The library decides and computes on plain values. Reading and writing files, the network and
//! everything that takes floating point arithmetic is left to the programs that use it: they hand
//! over coordinates as the bit patterns of double precision numbers, and the contents of files as
//! bytes.
pub mod cli;
pub mod dataset;
pub mod demo;
pub mod discover;
pub mod double;
pub mod download;
pub mod geojson;
pub mod ids;
pub mod image_header;
pub mod json;
pub mod manifest;
pub mod options;
pub mod order;
pub mod patches;
pub mod places;
pub mod polygon;
pub mod prepared;
pub mod records;
pub mod render;
pub mod server;
pub mod text;
pub mod tile;
pub mod validate;

pub use crate::dataset::{
    DatasetPlan, DatasetStamp, PrepareReport, PreparedDataset, SUPPORTED_IMAGE_EXTENSIONS,
    plan_dataset, prepare_dataset,
};
pub use crate::discover::{DiscoverError, SourceFile, TileRecord, discover_tiles};
pub use crate::double::Double;
pub use crate::download::{DownloadProgress, DownloadReport, DownloadedTile};
pub use crate::geojson::{
    GeoJsonError, GeoJsonTextError, polygon_from_geojson, polygon_from_geojson_str,
};
pub use crate::ids::{ImageRoot, tile_path};
pub use crate::json::{Json, JsonNumber, parse_json, parse_json_bytes};
pub use crate::manifest::{PatchGeometry, TileGeometry};
pub use crate::options::{
    DownloadOptions, OptionsError, PrepareOptions, PrepareOptionsError, Selection,
    count_tiles_for_options, count_tiles_for_options_with_progress, scan_for_options,
    selection_for_options, tiles_for_options, validate_options, validate_prepare_options,
    visit_tile,
};
pub use crate::patches::{Patch, patch_bounds, patch_last_tile};
pub use crate::polygon::{TileProbe, tile_grid_for_polygon};
pub use crate::render::{
    RenderError, RenderReport, RenderRequest, render_dataset, render_report, render_request,
};
pub use crate::tile::{
    Coordinate, MAX_ZOOM, SelectionProgress, TILE_SIZE, Tile, TileBounds, TileScan, tile_grid,
    tile_grid_between,
};
pub use crate::validate::{
    Dataset, LoadError, ValidationCounts, ValidationReport, load_dataset, validate_dataset,
};
