//! Connection-establishment core of a WebSocket client.
//!
//! Given a domain name, this library decides which IP addresses to connect
//! to, in what order and with what staggered start delays, drawing on an
//! explicit per-domain override store, a process-wide cache, a "last
//! connected" cell, and per-domain candidate lists annotated with measured
//! connection costs.  It also provides the byte-level state machine for
//! tunnelling a TCP connection through an HTTP forward proxy (`CONNECT`).
//!
//! The library performs no I/O itself: callers feed it resolved addresses
//! and measured costs, race the plans it returns, and drive the tunnel state
//! machine against their own streams.

pub mod addr;
pub mod rank;
pub mod registry;
pub mod plan;
pub mod tunnel;
pub mod hint;
