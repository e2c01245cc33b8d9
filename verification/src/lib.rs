//! Verified core of the streamd host: capture-side frame handling and
//! display bookkeeping, and the fragmentation of encoded video into UDP
//! datagrams.

pub mod capture;
pub mod text;
pub mod transport;
