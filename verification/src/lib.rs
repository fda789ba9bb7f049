//! Verified slices of array, graph, image, text, extraction, validation,
//! evidence, frame and label-metric utilities.
pub mod numrs;
pub mod graph;
pub mod image;
pub mod text;
pub mod display;
pub mod media;
pub mod timing;
pub mod learn;
pub mod evidence;
pub mod frame;
pub mod validate;
