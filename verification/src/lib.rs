//! Disk-usage analysis: an arena tree of directory sizes, a squarified
//! treemap painted into a pixel raster with labels that never overlap,
//! navigation of the interactive view, and the formatting and parsing
//! around them.
pub mod app;
pub mod arena;
pub mod civil;
pub mod fmt;
pub mod labels;
pub mod maintenance;
pub mod nav;
pub mod palette;
pub mod raster;
pub mod report;
pub mod scan;
pub mod text;
pub mod tiles;
pub mod top;
pub mod treemap;
pub mod version;
