//! Line features for images: a Gaussian pyramid of octaves, line records
//! carried between octave and image coordinates, the sampling of a line's
//! support region, the line band descriptor computed from it, its
//! binarization into a 256-bit code, and a multi-index hash matcher over
//! those codes.

pub mod code;
pub mod mih;
pub mod matcher;
pub mod binarize;
pub mod pyramid;
pub mod draw;
pub mod band;
pub mod keyline;
pub mod descriptor;
pub mod region;
pub mod detect;
