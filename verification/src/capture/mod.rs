//! Capture-side types shared by the platform back ends.

use vstd::prelude::*;

pub mod windows;

verus! {

/// Pixel layout of a frame held in CPU-accessible shared memory.
/// Layout is little-endian XRGB8888 or ARGB8888.
#[derive(Debug, Clone, Copy, PartialEq, Eq, Structural)]
pub enum ShmPixelFormat {
    Xrgb8888,
    Argb8888,
}

/// Pixel layout of a frame exported as a DMA-BUF.
#[derive(Debug, Clone, Copy, PartialEq, Eq, Structural)]
pub enum DmabufPixelFormat {
    Xrgb8888,
    Argb8888,
}

} // verus!
