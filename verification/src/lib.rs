//! Host-side logic for ANT Esports IceStorm / Antec iUnity LCD coolers.

pub mod float_bits;
pub mod frame;
pub mod sensors;
pub mod device;
pub mod text;

