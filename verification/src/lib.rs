//! A tiled associative-scan engine: the inclusive prefix sum of a sequence,
//! computed by splitting the input into fixed-size tiles, combining per-tile
//! summaries through a small sequential carry scan, and correcting each tile
//! with its carry. Two strategies are provided — scan-scan-transform and
//! reduce-scan-scan — and both are proved to produce the flat prefix scan.

pub mod engine;
pub mod model;
pub mod passes;
pub mod tiles;

pub use engine::default_tile_size;
pub use engine::flat_scan;
pub use engine::scan_rss_tiled;
pub use engine::scan_sst_tiled;
pub use engine::sum_scan_rss;
pub use engine::sum_scan_ssm;
pub use passes::add_to_each;
pub use passes::exclusive_scan;
pub use passes::reduce_tile;
pub use passes::scan_seeded;
pub use tiles::flatten;
pub use tiles::split_tiles;
