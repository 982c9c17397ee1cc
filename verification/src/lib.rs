//! Wake-on-LAN magic packets.
//!
//! A hardware address (EUI-48) written as text is parsed into its six octets,
//! and the octets are laid out as the 102-byte payload that wakes a sleeping
//! device: six bytes of `0xFF`, then the address sixteen times over.
//!
//! The library only produces the bytes. Sending them is the caller's business.

pub mod error;
pub mod hex;
pub mod address;
pub mod packet;

pub use error::ParseError;
pub use address::parse_mac;
pub use packet::{create_magic_packet, encode};
