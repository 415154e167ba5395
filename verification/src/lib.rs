//! Tools for Husqvarna/Viking Designer 1 embroidery media: the design model,
//! the SHV writer and reader, preview bitmaps, disk menu files and FAT12
//! floppy images for Gotek drives.

pub mod disk;
pub mod fat;
pub mod gotek;
pub mod inkstitch;
pub mod model;
pub mod order;
pub mod preview;
pub mod raster;
pub mod readback;
pub mod roundtrip;
pub mod shv;
pub mod stream;
pub mod text;
