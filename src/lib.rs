//! A secure boot loader's core: a first-fit heap allocator over an
//! address-range ledger, and the kernel image verification pipeline.

pub mod ledger;
pub mod allocator;
pub mod verification;
pub mod synchronisation;
pub mod driver;
pub mod console;
pub mod bsp;
pub mod heap_vec;
pub mod run_time_checks;
