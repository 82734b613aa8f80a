//! A single-threaded reactor core for a non-blocking TCP server.
//!
//! The kernel's readiness facility, the sockets and the request handler stay
//! with the caller. This crate holds everything that is decided in between:
//! which records wait in which readiness queue, which of them a set of
//! notifications wakes, and where a connection goes once an accept, a read or
//! a write has returned.

pub mod buffer;
pub mod kernel;
pub mod queue;
pub mod reactor;
pub mod record;
