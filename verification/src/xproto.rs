//! Requests of the core protocol.

pub mod create_window;
