//! Wake-on-LAN magic packets.
//!
//! A textual EUI-48 hardware address is validated and turned into a 48-bit
//! integer, and the integer into the fixed 102-byte payload that wakes the
//! device it names.
pub mod eui48;
pub mod hex;
pub mod packet;

pub use eui48::{parse_eui48, Eui48, ParseError};
pub use packet::{create_magic_packet, MagicPacket};
