//! The first version of the messenger frames messages the same way as the
//! protocol: a big-endian length, then the payload.
pub use crate::messenger::protocol::network_message::NetworkMessage;
