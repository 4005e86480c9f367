//! Turns animated images into Factorio blueprints: a grid of lamps driven by
//! combinators that hold the pixel data of every frame.
pub mod blueprint;
pub mod constants;
pub mod image_processing;
pub mod image_utils;
pub mod models;
pub mod signals;
pub mod streaming_writer;
