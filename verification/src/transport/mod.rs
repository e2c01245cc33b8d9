//! Network transport.

pub mod video_tx;
