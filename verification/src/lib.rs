//! Lifecycle coordination for a small network service.
//!
//! The heart of it are two primitives: a forest of cancellation contexts, in
//! which cancelling a context cancels everything derived from it
//! ([`util::context`]), and a wait group that tells when all outstanding work
//! is done ([`util::wait_group`]). Around them stand the decisions of the
//! subsystems that use them: the remote control ([`service::control`]) and
//! the logger ([`util::logger`]).
//!
//! Everything here is a plain value or a function of plain values. Sockets,
//! files, locks, timers and the runtime belong to the program that uses the
//! library: it performs what the library decides, and reports back what
//! happened.

pub mod config;
pub mod service;
pub mod util;
