//! Sprite and tile-map codecs: decoders for the run-length encoded ASF and MPC
//! sprite formats, an encoder and two decoders for the MSF container, the
//! MAP to MMF tile-map conversion, and a pixel-exact comparison of decoded
//! frames. Every function carries a contract over byte sequences.
//!
//! * `bytes`: bounds-checked little-endian reads and writes.
//! * `msf`, `encode`, `decode`: the MSF container, written and read.
//! * `asf`, `mpc`: the two source formats.
//! * `bbox`, `palette`: the tight bounding box and the nearest-colour lookup.
//! * `convert`: ASF and MPC sprites to MSF files.
//! * `mmf`, `traps`: tile maps and their trap definitions.
//! * `compare`, `pairs`, `scan`: comparing decoded frames; checking a
//!   converted sprite against its source; counting alpha usage.
//! * `roundtrip`, `layout`, `padding`, `truncation`: what is proved of
//!   encoding followed by decoding, of the two ways to read a palette, and of
//!   files that were cut short.
//! * `compression`: the Zstandard calls, which are trusted, not proved.

pub mod asf;
pub mod bbox;
pub mod bytes;
pub mod compare;
pub mod compression;
pub mod convert;
pub mod decode;
pub mod encode;
pub mod layout;
pub mod mmf;
pub mod mpc;
pub mod msf;
pub mod padding;
pub mod pairs;
pub mod palette;
pub mod roundtrip;
pub mod scan;
pub mod traps;
pub mod truncation;
