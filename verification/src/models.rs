//! Options that drive blueprint generation.
use crate::blueprint::models::Quality;
use vstd::prelude::*;

verus! {

/// Everything the user chose for one conversion.
pub struct BlueprintArgs {
    pub name: Option<String>,
    pub comb_pos_json: String,
    pub custom_height: Option<u32>,
    pub custom_width: Option<u32>,
    pub flipped_axes: FlippedAxes,
    pub grayscale_bits: u32,
    pub image_metadata: ImageMetadata,
    pub image_rotation: ImageRotation,
    pub lamp_margin_y: u32,
    pub max_group_size: Option<u32>,
    pub max_size: u32,
    pub mode: Mode,
    pub output_format: OutputFormat,
    pub prefer_green_wires: bool,
    pub prefer_horizontal_wires: bool,
    pub sampling_filter: ResamplingFilter,
    pub signal_compression: Option<SignalCompression>,
    pub signal_sorting: SignalSorting,
    pub substation_quality: Option<Quality>,
    pub target_fps: u32,
    pub use_dlc: bool,
}

/// What is known of the input image before decoding it.
#[derive(Debug)]
pub struct ImageMetadata {
    pub image_type: Option<String>,
    pub image_size: Option<(u32, u32)>,
}

/// Rotation applied to every frame.
#[derive(Clone, Copy, Debug, PartialEq, Eq, Structural)]
pub enum ImageRotation {
    Deg0,
    Deg90,
    Deg180,
    Deg270,
}

/// Axes along which every frame is mirrored.
#[derive(Clone, Copy, Debug, PartialEq, Eq, Structural)]
pub enum FlippedAxes {
    Neither,
    X,
    Y,
    Both,
}

/// What kind of blueprint to build.
#[derive(Clone, Copy, Debug, PartialEq, Eq, Structural)]
pub enum Mode {
    Full,
    Lamps,
    LampGrid,
    Static { const_cb: bool, combs: bool, timer: bool },
}

/// Order in which signals are handed out to lamps.
#[derive(Clone, Copy, Debug, PartialEq, Eq, Structural)]
pub enum SignalSorting {
    Unsorted,
    Compression,
    Json,
}

/// Filter used when scaling frames.
#[derive(Clone, Copy, Debug, PartialEq, Eq, Structural)]
pub enum ResamplingFilter {
    Catrom,
    Gaussian,
    Lanczos3,
    Nearest,
    Triangle,
    Thumbnail,
}

/// How pixel data is spread over data combinators.
#[derive(Clone, Copy, Debug, PartialEq, Eq, Structural)]
pub enum SignalCompression {
    Temporal { window: u32 },
    Delta,
}

/// Whether the output is an encoded blueprint string or plain JSON.
#[derive(Clone, Copy, Debug, PartialEq, Eq, Structural)]
pub enum OutputFormat {
    Blueprint,
    Json,
}

} // verus!
