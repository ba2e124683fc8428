//! A verified implementation of the bzip2 compression format.
pub mod bitstream;
pub mod blocksort;
pub mod bzfile;
pub mod bzlib;
pub mod cli;
pub mod compress;
pub mod crc;
pub mod decompress;
pub mod huffman;
pub mod randtable;
pub mod recover;
