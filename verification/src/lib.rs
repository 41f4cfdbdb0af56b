//! A WebSocket packet-intake server core.
//!
//! The library is split in three parts. [`wire`] is the envelope codec: a
//! length-delimited protocol-buffer wire encoding of a [`wire::Packet`]
//! envelope, with a proved round trip. [`items`] holds a sample application
//! record, [`items::Car`], serialized through the same codec. [`driver`] is
//! the per-connection intake logic: it classifies each inbound frame, decodes
//! binary payloads into packets, and terminates the connection on the first
//! fatal condition. The WebSocket handshake and the frame I/O themselves live
//! outside the library; they hand frames in and carry errors out.

pub mod driver;
pub mod items;
pub mod wire;

pub use driver::Server;
pub use items::create_car;
pub use items::create_val;
pub use items::deserialize_car;
pub use items::serialize_car;
