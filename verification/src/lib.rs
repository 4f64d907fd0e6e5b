//! A verified codec for the mux wire protocol: a binary, length-framed,
//! multiplexed RPC protocol in which a single duplex byte stream carries
//! tagged requests and responses.
//!
//! The crate transforms between byte buffers and typed messages in both
//! directions and reports success or failure of that transformation.  The
//! on-wire layout of every message kind is given by the specification
//! functions in [`wire`]; the decoders in [`reader`] and the encoders in
//! [`writer`] are proved to follow them exactly, and [`laws`] proves the
//! round-trip statements that tie the two directions together.

pub use proto::{MsgType, Rmsg, Tag, Tmsg};

pub mod laws;
pub mod misc;
pub mod proto;
pub mod reader;
pub mod wire;
pub mod writer;
