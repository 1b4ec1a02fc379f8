//! Board support: each board's name and memory map.
pub mod qemu;
pub mod unmatched;
pub mod visionfive;
