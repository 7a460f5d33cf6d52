use vstd::prelude::*;

verus! {

/// What every client message carries: the user it is about.
#[derive(Clone, Debug)]
pub struct ClientMessageCommon {
    pub username: String,
}

/// Who a data message is for: one user, or everybody.
#[derive(Clone, Debug)]
pub enum ClientMessageReceiver {
    Unicast(String),
    Broadcast,
}

/// A message between a client and the server.
#[derive(Clone, Debug)]
pub enum ClientMessage {
    Disconnected(ClientMessageCommon),
    Connected(ClientMessageCommon),
    Data(ClientMessageCommon, ClientMessageReceiver, String),
    KeepAlive(ClientMessageCommon),
}

/// The user a message is about.
pub open spec fn username_of(msg: ClientMessage) -> Seq<char> {
    match msg {
        ClientMessage::Disconnected(common) => common.username@,
        ClientMessage::Connected(common) => common.username@,
        ClientMessage::Data(common, _, _) => common.username@,
        ClientMessage::KeepAlive(common) => common.username@,
    }
}

impl ClientMessage {
    /// `username` has left.
    pub fn disconnected(username: String) -> (msg: Self)
        ensures
            msg == ClientMessage::Disconnected(ClientMessageCommon { username }),
    {
        Self::Disconnected(ClientMessageCommon { username })
    }

    /// `username` has joined.
    pub fn connected(username: String) -> (msg: Self)
        ensures
            msg == ClientMessage::Connected(ClientMessageCommon { username }),
    {
        Self::Connected(ClientMessageCommon { username })
    }

    /// `data` from `username` for everybody.
    pub fn data(username: String, data: String) -> (msg: Self)
        ensures
            msg == ClientMessage::Data(
                ClientMessageCommon { username },
                ClientMessageReceiver::Broadcast,
                data,
            ),
    {
        Self::Data(ClientMessageCommon { username }, ClientMessageReceiver::Broadcast, data)
    }

    /// `data` from `from` for `to` alone.
    pub fn data_private(from: String, to: String, data: String) -> (msg: Self)
        ensures
            msg == ClientMessage::Data(
                ClientMessageCommon { username: from },
                ClientMessageReceiver::Unicast(to),
                data,
            ),
    {
        Self::Data(ClientMessageCommon { username: from }, ClientMessageReceiver::Unicast(to), data)
    }

    /// `username` is still there.
    pub fn keepalive(username: String) -> (msg: Self)
        ensures
            msg == ClientMessage::KeepAlive(ClientMessageCommon { username }),
    {
        Self::KeepAlive(ClientMessageCommon { username })
    }

    /// The user the message is about.
    pub fn get_username(&self) -> (username: &String)
        ensures
            username@ == username_of(*self),
    {
        match self {
            Self::Disconnected(common)
            | Self::Connected(common)
            | Self::KeepAlive(common)
            | Self::Data(common, ..) => &common.username,
        }
    }
}

} // verus!
