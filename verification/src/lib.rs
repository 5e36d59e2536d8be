//! Conversion of Minecraft worlds from the 1.4.7 chunk layout to the 1.20.1 one,
//! and the bookkeeping of Anvil region files that hold the chunks.

pub mod nbt;
pub mod chunk147;
pub mod chunk1201;
pub mod conversion;
pub mod packing;
pub mod region;
pub mod text;
