//! Verified core of a non-destructive photo editor: panorama logic (descriptor matching, sample
//! draws, match graph, panorama groups, auto-crop, seams and the graph-cut seam), RGBA8 buffer
//! utilities and encoding, and the preset-import front end (Lightroom `.lrtemplate` and `.xmp`
//! readers, format detection, import report, module scope).

pub mod align;
pub mod crop;
pub mod crs;
pub mod cut;
pub mod detect;
pub mod encode;
pub mod graph;
pub mod lr_template;
pub mod mask;
pub mod matching;
pub mod lr_xmp;
pub mod lua;
pub mod pano_error;
pub mod pixels;
pub mod preset_error;
pub mod ransac;
pub mod registry;
pub mod report;
pub mod rng;
pub mod scope;
pub mod seam;
pub mod text;
pub mod unionfind;
pub mod xml;

pub use pano_error::PanoError;
