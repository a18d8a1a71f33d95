//! A codec for snapshots of an entity-component world: a tagged binary
//! encoding of dynamic values, a compact encoding of component references,
//! and the text-framed blocks that assemble them into a world document.
//!
//! The codec works on bytes in memory: a decoder reads a slice, an encoder
//! fills a vector. IEEE-754 numbers are held as bit patterns. Every
//! decoder is specified by a function on the input bytes, every encoder by
//! the bytes that it writes, and the two are proved to undo each other.
//!
//! - [`decode`] and [`encode`]: the cursor and the sink, and integers of
//!   fixed width
//! - [`ieee`]: 32-bit and 64-bit patterns of one number
//! - [`value`]: the dynamic value and its encoding
//! - [`text`]: header lines, their words and numbers
//! - [`entity`]: component indices, entities and the entity array
//! - [`component`]: component arrays and the global component
//! - [`world`]: the world and its document
//! - [`roundtrip`] and [`lossless`]: what holds between encoding and
//!   decoding
//! - [`error`]: the errors under one roof

pub mod decode;
pub mod encode;
pub mod ieee;
pub mod value;
pub mod roundtrip;
pub mod lossless;
pub mod text;
pub mod entity;
pub mod component;
pub mod world;
pub mod error;

pub use world::World as WorldContext;
