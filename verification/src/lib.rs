//! A reliable, ordered byte pipe tunnelled through ICMP Echo packets.
//!
//! Two layers make up the core: a link layer (the [`framer`]) that wraps
//! payload bytes in an ICMP Echo frame with an endpoint id and an Internet
//! checksum, and a reliable-delivery layer ([`odp`]) that adds sequence
//! numbers, cumulative acknowledgements, resend requests and a small
//! sliding send window on top of it.
//!
//! The core is sans-io: it builds and interprets frames and decides the
//! protocol's state transitions, while the host performs the actual raw
//! socket reads and writes and hands the bytes back in.

pub mod checksum;
pub mod framer;
pub mod laws;
pub mod odp;
pub mod privs;
