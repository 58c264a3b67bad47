//! A SwissTable-style open-addressing hash map, with its control-byte
//! layer (control bytes, 16-slot groups and their bitmasks) and two map
//! front ends: `Miso`, which probes one slot at a time, and `HashMap`,
//! which probes a group of sixteen control bytes at a time.

pub mod bitmask;
pub mod control;
pub mod group;
pub mod scalar;
pub mod neon;
mod hashing;
pub mod slots;
pub mod miso;
pub mod table;
pub mod laws;
