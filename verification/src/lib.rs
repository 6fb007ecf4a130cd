//! A minimal durable counter store.
//!
//! Each counter holds a signed 32-bit value with a fixed floor; every
//! mutation is recorded as a fixed-width, newline-terminated line in that
//! counter's append-only log. The store serializes all writes through one
//! ordered queue, reads back the last records of a log by seek arithmetic,
//! and decodes the fixed-size binary command frames of the socket
//! transports.

pub mod clock;
pub mod codec;
pub mod errors;
pub mod store;
pub mod tail;
pub mod wire;
