//! Client-side codec for a line-oriented, type-tagged request/reply wire
//! protocol (the Redis serialization protocol, RESP) over a byte stream.
//!
//! The crate holds the protocol logic only: encoding a command into wire
//! bytes, and decoding one tagged reply frame out of received bytes. The
//! socket itself is owned by the caller, which feeds received bytes to the
//! decoder and writes encoded bytes out.

pub mod command;
pub mod decode;
pub mod error;
pub mod laws;
pub mod numbers;
pub mod reply;
pub mod wire;

pub use command::Command;
pub use decode::decode_frame;
pub use decode::DecodeError;
pub use error::Error;
pub use error::ErrorV;
pub use reply::Reply;
pub use reply::ReplyKind;
pub use reply::ReplyV;
