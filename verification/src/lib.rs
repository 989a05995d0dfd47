//! Client-side building blocks for an X11-style binary display protocol:
//! request encoding, reply correlation and authority-file parsing.
//!
//! Every executable function carries a contract that the verifier proves;
//! the few calls into `byteorder` are wrapped and their contracts are stated
//! next to them.

pub mod correlator;
pub mod error;
pub mod protocol;
pub mod value_list;
pub mod wire;
pub mod xauth;
pub mod xproto;
