//! The subsystems of the service, as far as they decide anything.

pub mod control;
