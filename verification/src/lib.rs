//! Font table containers: reading the table directory, decoding a few
//! fixed-layout tables, rebuilding a container with replaced tables, and
//! turning glyph outline data into vector paths.

pub mod bytes;
pub mod checksum;
pub mod codec;
pub mod contour;
pub mod directory;
pub mod outline;
pub mod patch;
pub mod pen;
pub mod rebuild;
