//! Raster analysis for turning sprite sheets and line drawings into vector
//! artwork: alpha handling, cropping, contact-sheet segmentation, centreline
//! skeletons and stroke graphs, the integer core of input classification
//! and colour quantization, and the bookkeeping of semantic regrouping.

pub mod counting;
pub mod decode;
pub mod quant;
pub mod preprocess;
pub mod raster;
pub mod resample;
pub mod semantic;
pub mod sheet;
pub mod stroke;

pub use raster::{apply_alpha_mode, crop, get_alpha, get_rgb, AlphaMode, RasterImage, Rgb};

pub use sheet::chroma::{chroma_mask, saturation, ChromaConfig, Mask};
