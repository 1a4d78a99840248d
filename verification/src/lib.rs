//! Verified core of the Turing Complete save manager and circuit SDK.
pub mod backup;
pub mod binary;
pub mod character;
pub mod codec;
pub mod config;
pub mod dll;
pub mod equality;
pub mod format;
pub mod gen;
pub mod hook;
pub mod legacy;
pub mod levels;
pub mod model;
pub mod mods;
pub mod pins;
pub mod roundtrip;
pub mod schematics;
pub mod snappy;
pub mod test_si;
pub mod text;
pub mod translations;
