//! The peer wire protocol: frames, their byte codec and session decisions.
pub mod connection;
pub mod frame;
pub mod session;
