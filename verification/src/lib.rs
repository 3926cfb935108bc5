//! A Solana shred sniper: transactions read straight off the shred stream.
//!
//! This crate holds everything the sniper decides and computes. Sockets,
//! threads and exporters belong to the program around it.

pub mod addresses;
pub mod aged;
pub mod clock;
pub mod config;
pub mod decoder;
pub mod delivery;
pub mod entries;
pub mod erasure;
pub mod fec;
pub mod fire;
pub mod keys;
pub mod leaders;
pub mod maps;
pub mod metrics;
pub mod netstat;
pub mod pipeline;
pub mod race;
pub mod receiver;
pub mod shred;
pub mod slot;
pub mod starts;
pub mod sums;
pub mod text;
pub mod tpu;
pub mod verify;
pub mod wire;
