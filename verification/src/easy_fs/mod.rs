//! The easy file system: allocation bitmaps and the directory layer.
pub mod bitmap;
pub mod vfs;
