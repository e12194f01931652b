//! A verified storage engine for a voxel world: it maps 2D chunk coordinates
//! to variable-size, compressed, palette-encoded blocks of world data, backed
//! by fixed-size region container files with an in-file sector allocator.
//!
//! The engine itself is pure: region files are handled as in-memory byte
//! images, so every table update, allocation decision and codec step is
//! verified. The thin I/O shell that moves those images to and from disk
//! lives outside this crate.

pub mod byteops;
pub mod anvil;
pub mod nbt;
pub mod palette;
pub mod region;
pub mod compression;
pub mod format;
pub mod store;
pub mod vector2;
pub mod vector3;
pub mod position;
pub mod gamemode;
pub mod block;
