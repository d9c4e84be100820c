pub mod bits;
pub mod error;
pub mod huffman;
pub mod inflate;
pub mod adler;
pub mod endian;
pub mod crc;
pub mod header;
pub mod chunk;
pub mod image;
pub mod ancillary;
pub mod flac;
