pub mod tile;
pub mod raster;
pub mod codec;
pub mod processor;
pub mod payload;
pub mod ring;
pub mod identity;
pub mod models;
pub mod screenshare;
