//! Disc image parsing.

pub mod agreement;
pub mod audio;
pub mod bytes;
pub mod calendar;
pub mod ccd;
pub mod cdi;
pub mod chd;
pub mod cue;
pub mod detect;
pub mod device;
pub mod drives;
pub mod error;
pub mod gdi;
pub mod image;
pub mod laws;
pub mod listing;
pub mod mds;
pub mod mdx;
pub mod mount;
pub mod nrg;
pub mod progress;
pub mod sector;
pub mod seek;
pub mod sort;
pub mod stability;
pub mod text;
pub mod track;
pub mod volume;
pub mod wbfs_reader;
pub mod wii_partition;
