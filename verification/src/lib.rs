//! Resolution of laboratory-instrument address strings — GPIB, VISA network
//! sockets, VXI-11 and plain host:port endpoints — into canonical, typed
//! addresses, together with the decision logic of the transport layer that
//! binds an address to a live connection: the load-once driver registry and
//! the connection lifecycle with its termination-framing rules.

pub mod address;
pub mod communication;
pub mod connection;
pub mod err;
pub mod laws;
pub mod socket;
pub mod termination_bytes;
pub mod termination_string;
pub mod text;
pub mod visa;
