//! Board support for the SiFive HiFive Unmatched.
use vstd::prelude::*;

verus! {

/// Start of the Unmatched UART's registers.
pub const UNMATCHED_UART_START: usize = 0x1001_0000;

/// Where the kernel image is loaded.
pub const KERNEL: usize = 0x4020_0000;

/// Where the device tree blob is loaded; the kernel image region ends here.
pub const DTB: usize = 0x43a0_0000;

/// Where the initial RAM file system is loaded.
pub const RAMFS: usize = 0x4400_0000;

/// The hart that the kernel is started on.
pub const HART: usize = 1;

/// The board's name.
pub fn board_name() -> (r: &'static str)
    ensures
        r@ == "HiFive Unmatched"@,
{
    "HiFive Unmatched"
}

/// The number of bytes of the kernel image region, from `KERNEL` up to
/// `DTB`, that the header of the image is read from.
pub fn kernel_image_len() -> (r: usize)
    ensures
        r == DTB - KERNEL,
{
    DTB - KERNEL
}

} // verus!
