//! Decoding of a compressed branch trace and replay of the executed
//! instruction stream against a disassembled program image.
pub mod bcode;
pub mod tcode;
pub mod bitfield;
pub mod error;
pub mod packet;
pub mod offset;
pub mod index;
pub mod replay;
pub mod trace;
pub mod image;
pub mod encoding;
