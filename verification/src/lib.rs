//! A bidirectional bit-to-raster codec: a payload of bytes is framed with a
//! 32-bit big-endian length header, expanded to one bit per macropixel cell,
//! and rasterized into fixed-size black-and-white frames; an ordered sequence
//! of such frames is sampled back into bits and reassembled into the payload.

pub mod bits;
pub mod codec;
pub mod config;
pub mod frames;
pub mod raster;
pub mod sample;
