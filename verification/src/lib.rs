//! HDR gain maps: reading them, describing them and writing them into HEIC files.

pub mod binary32;
pub mod bytes;
pub mod colour;
pub mod encode;
pub mod heif;
pub mod iso21496;
pub mod jpeg;
pub mod laws;
pub mod meta;
pub mod opaque;
pub mod orient;
pub mod par;
pub mod portable;
pub mod rounding;
pub mod size;
pub mod text;
pub mod xmp;
