//! Hiding text in the low bits of PPM images, with the header parsing,
//! bit packing and planning that the tools around it rely on.
pub mod bytes;
pub mod header;
pub mod stego;
pub mod plan;
pub mod decode;
pub mod single;
pub mod slices;
pub mod names;
pub mod directory;
