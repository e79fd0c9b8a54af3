//! A PNG decoder that writes plain PGM and PPM text.
//!
//! [`png::Png::read_png`] takes the bytes of a file apart: [`stream`] reads its chunks,
//! [`zlib`] decompresses the image data and [`filter`] takes the filters off its lines.
//! [`png::Png::write_to_ppm`], in [`ppm`], gives the text of the decoded image.
//!
//! The modules whose names end in `_laws` hold what is proved of all this from outside: they
//! say in terms of bits, bytes and numbers which files are read and what they are read as.

pub mod acceptance_laws;
pub mod arith;
pub mod batch;
pub mod bit_laws;
pub mod bits;
pub mod checksum_laws;
pub mod chunk;
pub mod content_laws;
pub mod crc;
pub mod description_laws;
pub mod error;
pub mod filter;
pub mod filter_laws;
pub mod header;
pub mod huffman;
pub mod huffman_laws;
pub mod inflate;
pub mod inflate_laws;
pub mod palette;
pub mod png;
pub mod png_laws;
pub mod ppm;
pub mod ppm_laws;
pub mod reader;
pub mod sample_laws;
pub mod samples;
pub mod sbit;
pub mod scanline;
pub mod stream;
pub mod stream_laws;
pub mod text_laws;
pub mod zlib;
pub mod zlib_laws;
