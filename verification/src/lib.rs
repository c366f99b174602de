//! RustVoxel's data formats and rules, with their contracts proved by Verus:
//! the vanilla wire protocol primitives, the framed LAN protocol, NBT and
//! JSON reading, checksums, DEFLATE compression and decompression, zlib and
//! gzip, PNG and ZIP, Anvil region files and long packing, the texture pack
//! index, the pixel font, the mob kind table, the chunk loading order, the
//! decoding of chunk packets into block states, the saved server list and the
//! entity texture atlas.
#![allow(unused_imports)]

pub mod anvil;
pub mod bytes;
pub mod client;
pub mod entity_models;
pub mod font;
pub mod json;
pub mod mcproto;
pub mod mobs;
pub mod nbt;
pub mod net;
pub mod noise;
pub mod pack;
pub mod png;
pub mod renderer;
pub mod servers;
pub mod session;
pub mod text;
pub mod view;
