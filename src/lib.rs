pub mod bitstream;
pub mod crc;
pub mod decoder;
pub mod demuxer;
pub mod error;
pub mod frame;
pub mod metadata;
pub mod subframe;
