use vstd::prelude::*;

verus! {

/// What every message of the first messenger version carries: the number
/// of the client it is about.
#[derive(Clone, Copy, Debug, PartialEq, Eq, Structural)]
pub struct ClientMessageCommon {
    id: u8,
}

/// A message of the first messenger version.
#[derive(Clone, Debug)]
pub enum ClientMessage {
    Disconnected(ClientMessageCommon),
    Connected(ClientMessageCommon),
    Data(ClientMessageCommon, String),
}

/// The client a message is about.
pub closed spec fn id_of(msg: ClientMessage) -> u8 {
    match msg {
        ClientMessage::Disconnected(common) => common.id,
        ClientMessage::Connected(common) => common.id,
        ClientMessage::Data(common, _) => common.id,
    }
}

/// The message with its client number replaced by `id`.
pub closed spec fn with_id(msg: ClientMessage, id: u8) -> ClientMessage {
    match msg {
        ClientMessage::Disconnected(_) => ClientMessage::Disconnected(ClientMessageCommon { id }),
        ClientMessage::Connected(_) => ClientMessage::Connected(ClientMessageCommon { id }),
        ClientMessage::Data(_, data) => ClientMessage::Data(ClientMessageCommon { id }, data),
    }
}

impl ClientMessage {
    /// Client `id` has left.
    pub fn disconnected(id: u8) -> (msg: Self)
        ensures
            msg is Disconnected,
            id_of(msg) == id,
    {
        ClientMessage::Disconnected(ClientMessageCommon { id })
    }

    /// Client `id` has joined.
    pub fn connected(id: u8) -> (msg: Self)
        ensures
            msg is Connected,
            id_of(msg) == id,
    {
        ClientMessage::Connected(ClientMessageCommon { id })
    }

    /// `data` from client `id`.
    pub fn data(id: u8, data: String) -> (msg: Self)
        ensures
            msg matches ClientMessage::Data(_, d) && d == data,
            id_of(msg) == id,
    {
        ClientMessage::Data(ClientMessageCommon { id }, data)
    }

    /// The client the message is about.
    pub fn get_id(&self) -> (id: u8)
        ensures
            id == id_of(*self),
    {
        match self {
            ClientMessage::Disconnected(common)
            | ClientMessage::Connected(common)
            | ClientMessage::Data(common, ..) => common.id,
        }
    }

    /// Makes the message be about client `id`; its kind and data stay.
    pub fn set_id(&mut self, id: u8)
        ensures
            *final(self) == with_id(*old(self), id),
            id_of(*final(self)) == id,
            (*final(self) is Disconnected) == (*old(self) is Disconnected),
            (*final(self) is Connected) == (*old(self) is Connected),
            (*final(self) is Data) == (*old(self) is Data),
            *old(self) matches ClientMessage::Data(_, d) ==> *final(self) matches ClientMessage::Data(
                _,
                e,
            ) && e == d,
    {
        match self {
            ClientMessage::Disconnected(common) => common.id = id,
            ClientMessage::Connected(common) => common.id = id,
            ClientMessage::Data(common, ..) => common.id = id,
        }
    }
}

/// Reading the client number after setting it gives the number set,
/// setting it keeps the kind of the message and its data, and setting it
/// again overrides the first setting.
pub proof fn law_set_then_get_id(msg: ClientMessage, id: u8, other: u8)
    ensures
        id_of(with_id(msg, id)) == id,
        (with_id(msg, id) is Disconnected) == (msg is Disconnected),
        (with_id(msg, id) is Connected) == (msg is Connected),
        (with_id(msg, id) is Data) == (msg is Data),
        msg matches ClientMessage::Data(_, d) ==> with_id(msg, id) matches ClientMessage::Data(
            _,
            e,
        ) && e == d,
        with_id(with_id(msg, other), id) == with_id(msg, id),
{
}

} // verus!
