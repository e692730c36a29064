//! Partial decoder for a packet-based, entropy-coded audio bitstream.
//!
//! The crate covers the two subsystems that demand bit-exact reproduction of
//! the standardized algorithm: a renormalizing binary arithmetic decoder
//! ([`range::Decoder`]) and a packet parser ([`packet::Packet`]) that splits a
//! received packet into its elementary coded frames without copying.

pub mod packet;
pub mod range;
pub mod types;
pub mod util;
