//! A DNS message codec for fixed 512-byte UDP frames, and the decisions of a
//! single-hop forwarding resolver built on it.

pub mod error;
pub mod flags;
pub mod wire;
pub mod header;
pub mod name;
pub mod question;
pub mod answer;
pub mod packet;
pub mod forward;

pub use answer::Answer;
pub use error::DnsError;
pub use flags::{pack_flags, unpack_flags, Flags};
pub use forward::Forwarder;
pub use header::Header;
pub use packet::Packet;
pub use question::Question;
