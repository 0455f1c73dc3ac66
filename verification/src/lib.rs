//! The logic of a terminal treemap of source code: scanning rules, the folder
//! tree, the treemap layout, and everything that is drawn, as functions from
//! plain values to plain values.

pub mod alloc_track;
pub mod app;
pub mod bench;
pub mod bench_report;
pub mod bitmap_font;
pub mod cli;
pub mod double;
pub mod format;
pub mod grid;
pub mod input;
pub mod lang;
pub mod ledger;
pub mod near;
pub mod order;
pub mod path;
pub mod path_index;
pub mod path_table;
pub mod perf;
pub mod scanner;
pub mod session;
pub mod text;
pub mod tile_areas;
pub mod tile_bounds;
pub mod tile_cover;
pub mod tile_rows;
pub mod tile_squares;
pub mod time;
pub mod tree;
pub mod treemap;
pub mod ui;
pub mod view;
pub mod watcher;
