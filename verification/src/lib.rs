//! Directory index of a tiled-data archive: a compact binary table mapping
//! monotonically increasing tile identifiers to byte ranges, together with
//! the delta/varint wire codec and the point-lookup algorithm over
//! run-length-compressed entries.

pub mod codec;
pub mod directory;
pub mod varint;
