use vstd::prelude::*;

use bytes::BytesMut;

use super::byte_buffer::{
    buffer_as_slice, buffer_extend_from_slice, buffer_new, buffer_put_slice, buffer_put_u64,
    bytes_mut_contents, u64_be_bytes,
};

verus! {

/// The bytes that frame `payload` for the network: its length as eight
/// big-endian bytes, then the payload itself.
pub open spec fn framed(payload: Seq<u8>) -> Seq<u8> {
    u64_be_bytes(payload.len() as u64) + payload
}

/// The number that eight big-endian bytes stand for.
pub open spec fn u64_from_be(b: Seq<u8>) -> u64 {
    ((b[0] as u64) << 56u64) | ((b[1] as u64) << 48u64) | ((b[2] as u64) << 40u64) | ((
    b[3] as u64) << 32u64) | ((b[4] as u64) << 24u64) | ((b[5] as u64) << 16u64) | ((b[6] as u64)
        << 8u64) | (b[7] as u64)
}

/// A payload on its way over the network. Built for sending, it holds the
/// framed payload (length, then payload); read from the network, it holds
/// the payload that followed the length.
pub struct NetworkMessage {
    payload: BytesMut,
}

impl NetworkMessage {
    /// The bytes the message holds.
    pub closed spec fn view(&self) -> Seq<u8> {
        bytes_mut_contents(self.payload)
    }

    /// Frames `payload` for sending: its length as eight big-endian bytes,
    /// then the payload.
    pub fn new(payload: &[u8]) -> (message: Self)
        requires
            payload@.len() + 8 <= isize::MAX,
        ensures
            message@ == framed(payload@),
    {
        let mut bytes = buffer_new();
        buffer_put_u64(&mut bytes, payload.len() as u64);
        buffer_put_slice(&mut bytes, payload);
        proof {
            assert(Seq::<u8>::empty() + u64_be_bytes(payload@.len() as u64) =~= u64_be_bytes(
                payload@.len() as u64,
            ));
        }
        NetworkMessage { payload: bytes }
    }

    /// The bytes the message holds.
    pub fn get_payload(&self) -> (payload: &[u8])
        ensures
            payload@ == self@,
    {
        buffer_as_slice(&self.payload)
    }
}

impl Default for NetworkMessage {
    /// A message that holds no bytes.
    fn default() -> (message: Self)
        ensures
            message@ == Seq::<u8>::empty(),
    {
        NetworkMessage { payload: buffer_new() }
    }
}

/// The largest number of payload bytes that one read asks for: the size
/// of the reader's buffer.
pub const MESSAGE_BUFFER_SIZE: usize = 512;

/// The payload length that the eight bytes of a frame header announce
/// (big-endian).
pub fn frame_len(header: &[u8]) -> (len: u64)
    requires
        header@.len() == 8,
    ensures
        len == u64_from_be(header@),
{
    ((header[0] as u64) << 56u64) | ((header[1] as u64) << 48u64) | ((header[2] as u64) << 40u64)
        | ((header[3] as u64) << 32u64) | ((header[4] as u64) << 24u64) | ((header[5] as u64)
        << 16u64) | ((header[6] as u64) << 8u64) | (header[7] as u64)
}

/// Reading the payload of a message whose header announced `msg_len`
/// bytes: the reader asks for the bytes still missing, a buffer at a time,
/// and collects what it is given.
pub struct MessageReader {
    msg_len: u64,
    read: u64,
    message: NetworkMessage,
}

impl MessageReader {
    /// The announced payload length.
    pub closed spec fn msg_len(&self) -> nat {
        self.msg_len as nat
    }

    /// The payload bytes collected so far.
    pub closed spec fn collected(&self) -> Seq<u8> {
        self.message@
    }

    /// The reader's invariant: it has collected no more than was announced.
    pub closed spec fn wf(&self) -> bool {
        &&& self.read <= self.msg_len
        &&& self.message@.len() == self.read
    }

    /// A reader for a payload of `msg_len` bytes that has collected nothing.
    pub fn new(msg_len: u64) -> (reader: Self)
        ensures
            reader.wf(),
            reader.msg_len() == msg_len,
            reader.collected() == Seq::<u8>::empty(),
    {
        MessageReader { msg_len, read: 0, message: NetworkMessage::default() }
    }

    /// How many payload bytes to read next: the bytes still missing, at
    /// most `MESSAGE_BUFFER_SIZE` of them (the size of the buffer they are
    /// read into), or `None` once the payload is complete.
    pub fn next_read_size(&self) -> (size: Option<usize>)
        requires
            self.wf(),
        ensures
            self.collected().len() >= self.msg_len() ==> size is None,
            self.collected().len() < self.msg_len() ==> size == Some(
                if self.msg_len() - self.collected().len() < MESSAGE_BUFFER_SIZE {
                    (self.msg_len() - self.collected().len()) as usize
                } else {
                    MESSAGE_BUFFER_SIZE
                },
            ),
    {
        if self.read < self.msg_len {
            let missing = self.msg_len - self.read;
            if missing < MESSAGE_BUFFER_SIZE as u64 {
                Some(missing as usize)
            } else {
                Some(MESSAGE_BUFFER_SIZE)
            }
        } else {
            None
        }
    }

    /// Collects `bytes`, which were read for the payload.
    pub fn take(&mut self, bytes: &[u8])
        requires
            old(self).wf(),
            old(self).collected().len() + bytes@.len() <= old(self).msg_len(),
            old(self).msg_len() + 8 <= isize::MAX,
        ensures
            final(self).wf(),
            final(self).msg_len() == old(self).msg_len(),
            final(self).collected() == old(self).collected() + bytes@,
    {
        buffer_extend_from_slice(&mut self.message.payload, bytes);
        self.read = self.read + bytes.len() as u64;
    }

    /// The message that holds the collected payload.
    pub fn finish(self) -> (message: NetworkMessage)
        ensures
            message@ == self.collected(),
    {
        self.message
    }
}

/// What a read gives back of a write: the header of a framed payload
/// announces the payload's length, and the bytes after the header are the
/// payload.
pub proof fn law_frame_roundtrip(payload: Seq<u8>)
    requires
        payload.len() <= u64::MAX,
    ensures
        u64_from_be(framed(payload).take(8)) == payload.len(),
        framed(payload).skip(8) == payload,
{
    let n = payload.len() as u64;
    let h = framed(payload).take(8);
    assert(h =~= u64_be_bytes(n));
    assert(framed(payload).skip(8) =~= payload);
    lemma_be_roundtrip(n);
}

/// Splitting a number into big-endian bytes and joining them back gives
/// the number.
proof fn lemma_be_roundtrip(n: u64)
    ensures
        u64_from_be(u64_be_bytes(n)) == n,
{
    let b = u64_be_bytes(n);
    assert(b[0] == (n >> 56u64) as u8 && b[1] == (n >> 48u64) as u8 && b[2] == (n >> 40u64) as u8
        && b[3] == (n >> 32u64) as u8 && b[4] == (n >> 24u64) as u8 && b[5] == (n >> 16u64) as u8
        && b[6] == (n >> 8u64) as u8 && b[7] == n as u8);
    assert(((((n >> 56u64) as u8) as u64) << 56u64) | ((((n >> 48u64) as u8) as u64) << 48u64) | ((
    ((n >> 40u64) as u8) as u64) << 40u64) | ((((n >> 32u64) as u8) as u64) << 32u64) | ((((n
        >> 24u64) as u8) as u64) << 24u64) | ((((n >> 16u64) as u8) as u64) << 16u64) | ((((n
        >> 8u64) as u8) as u64) << 8u64) | ((n as u8) as u64) == n) by (bit_vector);
}

} // verus!
