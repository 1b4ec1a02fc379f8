//! Board support for the StarFive VisionFive.
use vstd::prelude::*;

verus! {

/// Start of the DW8250 UART's registers.
pub const DW8250_UART_START: usize = 0x1000_0000;

/// Where the kernel image is loaded.
pub const KERNEL: usize = 0x4020_0000;

/// Where the device tree blob is loaded; the kernel image region ends here.
pub const DTB: usize = 0x44A0_0000;

/// Where the initial RAM file system is loaded.
pub const RAMFS: usize = 0x4500_0000;

/// The hart that the kernel is started on.
pub const HART: usize = 1;

/// Where the kernel image's 64-byte signature is stored.
pub const SIGNATURE: usize = 0x401F_FF00;

/// The board's name.
pub fn board_name() -> (r: &'static str)
    ensures
        r@ == "VisionFive"@,
{
    "VisionFive"
}

/// The number of bytes of the kernel image region, from `KERNEL` up to
/// `DTB`, that the header of the image is read from.
pub fn kernel_image_len() -> (r: usize)
    ensures
        r == DTB - KERNEL,
{
    DTB - KERNEL
}

} // verus!
