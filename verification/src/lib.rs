//! Muster's scan engine: the wire formats, parsers and decisions of a local
//! network scanner, each with a contract.
//!
//! Everything here is a function of values. Reading the operating system,
//! sending packets, sleeping and spawning threads happen around this crate,
//! and hand it plain values.

pub mod text;
pub mod search;
pub mod addr;
pub mod v6text;
pub mod prefix;
pub mod sysinfo;
pub mod survey;
pub mod discover;
pub mod portscan;
pub mod kind;
pub mod procfs;
pub mod platform;
pub mod mac;
pub mod siphash;
pub mod vendor;
pub mod dhcp;
pub mod dns;
pub mod identify;
pub mod netbios;
