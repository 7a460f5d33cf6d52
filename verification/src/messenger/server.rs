use vstd::prelude::*;

use super::protocol::client_message::{
    ClientMessage, ClientMessageCommon, ClientMessageReceiver, username_of,
};

verus! {

/// The user that a new connection announces: its first message must say
/// that the user has connected.
pub fn retrieve_client_username(msg: ClientMessage) -> (username: Option<String>)
    ensures
        match msg {
            ClientMessage::Connected(common) => username == Some(common.username),
            _ => username is None,
        },
{
    match msg {
        ClientMessage::Connected(common) => Some(common.username),
        _ => None,
    }
}

/// What the part of the server that writes to one client does with a
/// message meant for everybody.
pub enum MessageHandlingResult {
    /// Send the message to the client.
    Message(ClientMessage),
    /// The message came from the client itself, or is private to somebody
    /// else: leave it.
    IgnoreForeignMessage,
}

/// Whether the client `username` should not get `msg`: it sent the message
/// itself, or the message is private to another user.
pub open spec fn is_foreign(msg: ClientMessage, username: Seq<char>) -> bool {
    ||| username_of(msg) == username
    ||| msg matches ClientMessage::Data(_, ClientMessageReceiver::Unicast(to), _) && to@ != username
}

/// Decides what the writer for the client `username` does with a message
/// that the server hands to every client.
pub fn handle_broadcast_message(msg: ClientMessage, username: &String) -> (result:
    MessageHandlingResult)
    ensures
        is_foreign(msg, username@) ==> result is IgnoreForeignMessage,
        !is_foreign(msg, username@) ==> result == MessageHandlingResult::Message(msg),
{
    if *msg.get_username() == *username {
        return MessageHandlingResult::IgnoreForeignMessage;
    }
    if let ClientMessage::Data(_, ClientMessageReceiver::Unicast(to_username), _) = &msg {
        if *to_username != *username {
            return MessageHandlingResult::IgnoreForeignMessage;
        }
    }
    MessageHandlingResult::Message(msg)
}

/// Which broadcast messages reach the client `me`: every message that
/// another user sent for everybody, every message that another user sent to
/// `me` alone, and every notice about another user (joined, left, still
/// there). The client gets none of its own messages back, and no message
/// that another user sent privately to someone else.
pub proof fn law_who_gets_a_broadcast(
    from: ClientMessageCommon,
    to: String,
    data: String,
    me: Seq<char>,
)
    ensures
        from.username@ != me ==> !is_foreign(
            ClientMessage::Data(from, ClientMessageReceiver::Broadcast, data),
            me,
        ),
        from.username@ != me && to@ == me ==> !is_foreign(
            ClientMessage::Data(from, ClientMessageReceiver::Unicast(to), data),
            me,
        ),
        from.username@ != me ==> !is_foreign(ClientMessage::Connected(from), me),
        from.username@ != me ==> !is_foreign(ClientMessage::Disconnected(from), me),
        from.username@ != me ==> !is_foreign(ClientMessage::KeepAlive(from), me),
        from.username@ == me ==> is_foreign(
            ClientMessage::Data(from, ClientMessageReceiver::Broadcast, data),
            me,
        ),
        from.username@ == me ==> is_foreign(
            ClientMessage::Data(from, ClientMessageReceiver::Unicast(to), data),
            me,
        ),
        from.username@ == me ==> is_foreign(ClientMessage::Connected(from), me),
        from.username@ == me ==> is_foreign(ClientMessage::Disconnected(from), me),
        from.username@ == me ==> is_foreign(ClientMessage::KeepAlive(from), me),
        to@ != me ==> is_foreign(
            ClientMessage::Data(from, ClientMessageReceiver::Unicast(to), data),
            me,
        ),
{
}

} // verus!
