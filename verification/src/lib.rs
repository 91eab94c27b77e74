//! Napa previz volume receiver.
//!
//! A loopback Art-Net sidecar: one UDP socket per virtual controller (per the
//! companion `config.json`), reassembly of the voxel volume with the same
//! mapping as the hardware simulator, a latch on ArtSync, and publication to a
//! shared-memory region read by Unreal Engine.
//!
//! This crate holds the verified core: datagram decoding (`artnet`), the
//! configuration resolver (`config`), the universe-to-voxel mapping
//! (`volume`), the shared-memory region layout and seqlock protocol over a
//! byte buffer (`shmem`), and the command-line decisions of the sidecar
//! (`cli`). Sockets, threads, `mmap` and JSON text live in the program around
//! it.

pub mod artnet;
pub mod decimal;
pub mod cli;
pub mod config;
pub mod shmem;
pub mod volume;
