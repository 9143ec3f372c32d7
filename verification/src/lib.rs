//! Client-side logic for a scanning daemon's wire protocol (the `clamd`
//! protocol): building the `PING` and `INSTREAM` request byte streams, and
//! classifying the daemon's response text.
//!
//! The crate holds no I/O. It produces the exact bytes a caller must write to
//! an open connection, and interprets the bytes the daemon sends back; the
//! caller owns the sockets and files.

pub mod classify;
pub mod codec;

pub use classify::clean;
