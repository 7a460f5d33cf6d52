use vstd::prelude::*;

use super::protocol::client_message::ClientMessage;

verus! {

/// The query of a request that sends a message to one user.
pub struct SendMessageQuery {
    pub msg: String,
}

/// Whether a message from the server is shown on the admin panel:
/// keep-alive messages are not.
pub fn is_shown_on_panel(msg: &ClientMessage) -> (shown: bool)
    ensures
        shown == !(msg is KeepAlive),
{
    match msg {
        ClientMessage::KeepAlive(_) => false,
        _ => true,
    }
}

} // verus!
