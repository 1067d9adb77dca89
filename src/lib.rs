use vstd::prelude::*;

pub mod bitio;
pub mod compress;
pub mod compressor;
pub mod decompress;
pub mod header;
pub mod packager;
pub mod round_trip;

