//! Byte-level transport for SD/MMC cards driven over a full-duplex serial
//! link: CRC7 command-frame checksums, six-byte command framing, fixed-width
//! response reads, raw data exchange, busy detection and bus flushing.

pub mod crc;
pub mod scripted;
pub mod transport;

pub use crc::crc7;
pub use crc::crc7_check;
pub use scripted::LinkFault;
pub use scripted::ScriptedSpi;
pub use transport::SpiDevice;
pub use transport::SpiTransport;
pub use transport::Transport;
