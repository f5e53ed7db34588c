//! Core logic for establishing a long-lived request/response session to a
//! remote server over a WebSocket-framed transport.
//!
//! The crate models the connection-establishment pipeline as verified state
//! machines and pure decision functions: candidate routes are raced under a
//! staggered schedule informed by a registry of past outcomes, a handler task
//! multiplexes requests over the winning connection, and a registration
//! session client retries transient connect failures with a bounded backoff.
//! Asynchronous I/O (sockets, timers, channels) is supplied by the embedding
//! application, which drives these machines with events.

use vstd::prelude::*;

pub mod chat;
pub mod codec;
pub mod connect_state;
pub mod curve;
pub mod errors;
pub mod fake;
pub mod handler;
pub mod monitor;
pub mod outcome;
pub mod prekey;
pub mod racer;
pub mod registration;
pub mod route;
pub mod session_json;
pub mod sim;

