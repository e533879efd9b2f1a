//! Reading the on-disk demo format (HL2DEMO, demo protocol 3).
//!
//! This layer knows how NT;RE `.dem` files are laid out and nothing about
//! gameplay: the fixed header, the frames, and the bit-packed contents of
//! the frame kinds that are decoded (usercmds, net messages, string
//! tables). Interpreting them as gameplay facts belongs in `crate::extract`.

pub mod bits;
pub mod frames;
pub mod header;
pub mod net;
pub mod stringtables;
pub mod usercmd;
