use vstd::prelude::*;

use super::protocol::client_message::{
    username_of, ClientMessage, ClientMessageCommon, ClientMessageReceiver,
};

verus! {

/// What the client hands to its writer to send to the server.
pub enum ClientWriterActorMessage {
    /// Text typed by the user, for everybody or for one user.
    SendData(String, ClientMessageReceiver),
    /// A sign of life.
    Keepalive(),
}

/// The message that the writer of the client `username` sends for
/// `actor_msg`.
pub fn to_client_message(actor_msg: ClientWriterActorMessage, username: String) -> (msg:
    ClientMessage)
    ensures
        match actor_msg {
            ClientWriterActorMessage::SendData(data, to) => msg == ClientMessage::Data(
                ClientMessageCommon { username },
                to,
                data,
            ),
            ClientWriterActorMessage::Keepalive() => msg == ClientMessage::KeepAlive(
                ClientMessageCommon { username },
            ),
        },
{
    match actor_msg {
        ClientWriterActorMessage::SendData(data, to) => match to {
            ClientMessageReceiver::Broadcast => ClientMessage::data(username, data),
            ClientMessageReceiver::Unicast(to) => ClientMessage::data_private(username, to, data),
        },
        ClientWriterActorMessage::Keepalive() => ClientMessage::keepalive(username),
    }
}

/// The line that the client shows for a message from the server, if any:
/// `[user] has disconnected...`, `[user] has connected...`, or for data
/// `[user]`, a lock when it is private, and the text.
pub open spec fn incoming_line(msg: ClientMessage) -> Option<Seq<char>> {
    match msg {
        ClientMessage::Disconnected(common) => Some(
            seq!['['] + common.username@ + "] has disconnected..."@,
        ),
        ClientMessage::Connected(common) => Some(
            seq!['['] + common.username@ + "] has connected..."@,
        ),
        ClientMessage::Data(common, dest, payload) => Some(
            seq!['['] + common.username@ + seq![']'] + (if dest is Unicast {
                " \u{1F512}"@
            } else {
                Seq::empty()
            }) + payload@,
        ),
        ClientMessage::KeepAlive(_) => None,
    }
}

/// The line that the client shows for `msg` (see `incoming_line`).
pub fn describe_incoming(msg: &ClientMessage) -> (line: Option<String>)
    ensures
        match line {
            Some(l) => incoming_line(*msg) == Some(l@),
            None => incoming_line(*msg) is None,
        },
{
    match msg {
        ClientMessage::Disconnected(common) => {
            let mut info = String::from_str("[");
            info.append(common.username.as_str());
            info.append("] has disconnected...");
            proof {
                reveal_strlit("[");
                assert(info@ =~= seq!['['] + common.username@ + "] has disconnected..."@);
            }
            Some(info)
        },
        ClientMessage::Connected(common) => {
            let mut info = String::from_str("[");
            info.append(common.username.as_str());
            info.append("] has connected...");
            proof {
                reveal_strlit("[");
                assert(info@ =~= seq!['['] + common.username@ + "] has connected..."@);
            }
            Some(info)
        },
        ClientMessage::Data(common, dest, payload) => {
            let mut info = String::from_str("[");
            info.append(common.username.as_str());
            info.append("]");
            let ghost head = info@;
            if let ClientMessageReceiver::Unicast(_) = dest {
                info.append(" \u{1F512}");
            }
            let ghost marked = info@;
            info.append(payload.as_str());
            proof {
                reveal_strlit("[");
                reveal_strlit("]");
                assert(head =~= seq!['['] + common.username@ + seq![']']);
                if dest is Unicast {
                    assert(marked =~= head + " \u{1F512}"@);
                } else {
                    assert(marked =~= head + Seq::<char>::empty());
                }
            }
            Some(info)
        },
        ClientMessage::KeepAlive(_) => None,
    }
}

/// The line shown for a message names its sender whole: every message but
/// a keep-alive gets a line, which opens with `[`, then the full user name,
/// then `]`. After it comes ` has connected...` or ` has disconnected...`
/// for a user who came or left; for data, a space and a lock when the
/// message was private, and then the whole text of the message, which ends
/// the line.
pub proof fn law_incoming_line_names_whole_sender(msg: ClientMessage)
    ensures
        incoming_line(msg) is None <==> msg is KeepAlive,
        incoming_line(msg) matches Some(l) ==> {
            let u = username_of(msg);
            &&& l.len() > u.len() as int + 1
            &&& l[0] == '['
            &&& l.subrange(1, u.len() as int + 1) == u
            &&& l[u.len() as int + 1] == ']'
        },
        msg matches ClientMessage::Connected(c) ==> incoming_line(msg)->Some_0.skip(
            c.username@.len() as int + 2,
        ) == " has connected..."@,
        msg matches ClientMessage::Disconnected(c) ==> incoming_line(msg)->Some_0.skip(
            c.username@.len() as int + 2,
        ) == " has disconnected..."@,
        msg matches ClientMessage::Data(c, dest, text) ==> {
            let l = incoming_line(msg)->Some_0;
            let n = c.username@.len() as int + 2;
            &&& dest is Broadcast ==> l.len() == n + text@.len()
            &&& dest is Unicast ==> l.len() == n + 2 + text@.len() && l[n] == ' ' && l[n + 1]
                == '\u{1F512}'
            &&& l.skip(l.len() - text@.len()) == text@
        },
{
    reveal_strlit("] has connected...");
    reveal_strlit(" has connected...");
    reveal_strlit("] has disconnected...");
    reveal_strlit(" has disconnected...");
    reveal_strlit(" \u{1F512}");
    match msg {
        ClientMessage::Connected(c) => {
            let l = incoming_line(msg)->Some_0;
            assert(l.subrange(1, c.username@.len() as int + 1) =~= c.username@);
            assert(l.skip(c.username@.len() as int + 2) =~= " has connected..."@);
        },
        ClientMessage::Disconnected(c) => {
            let l = incoming_line(msg)->Some_0;
            assert(l.subrange(1, c.username@.len() as int + 1) =~= c.username@);
            assert(l.skip(c.username@.len() as int + 2) =~= " has disconnected..."@);
        },
        ClientMessage::Data(c, dest, text) => {
            let l = incoming_line(msg)->Some_0;
            assert(l.subrange(1, c.username@.len() as int + 1) =~= c.username@);
            assert(l.skip(l.len() - text@.len()) =~= text@);
        },
        ClientMessage::KeepAlive(_) => {},
    }
}

/// Whether `c` has the Unicode `White_Space` property (what
/// `char::is_whitespace` tells): tab, line feed, vertical tab, form feed,
/// carriage return, space, next line, no-break space, ogham space mark, the
/// spaces from en quad to hair space, line and paragraph separator, narrow
/// no-break space, medium mathematical space and ideographic space.
pub open spec fn is_unicode_whitespace(c: char) -> bool {
    let v = c as u32;
    ||| 0x09 <= v <= 0x0D
    ||| v == 0x20
    ||| v == 0x85
    ||| v == 0xA0
    ||| v == 0x1680
    ||| 0x2000 <= v <= 0x200A
    ||| v == 0x2028
    ||| v == 0x2029
    ||| v == 0x202F
    ||| v == 0x205F
    ||| v == 0x3000
}

/// Whether `c` is white space (see `is_unicode_whitespace`).
pub fn is_whitespace_char(c: char) -> (r: bool)
    ensures
        r == is_unicode_whitespace(c),
{
    let v = c as u32;
    (0x09 <= v && v <= 0x0D) || v == 0x20 || v == 0x85 || v == 0xA0 || v == 0x1680 || (0x2000 <= v
        && v <= 0x200A) || v == 0x2028 || v == 0x2029 || v == 0x202F || v == 0x205F || v == 0x3000
}

/// The user name typed as `input`: `None` when it is only white space,
/// otherwise the input without its trailing white space (such as the line
/// end).
pub fn username_from_input(input: &str) -> (username: Option<String>)
    ensures
        match username {
            None => forall|i: int| 0 <= i < input@.len() ==> is_unicode_whitespace(#[trigger] input@[i]),
            Some(name) => exists|k: int|
                0 < k <= input@.len() && !is_unicode_whitespace(#[trigger] input@[k - 1]) && (forall|
                    i: int,
                | k <= i < input@.len() ==> is_unicode_whitespace(#[trigger] input@[i]))
                    && name@ == input@.take(k),
        },
{
    let chars = crate::word_index::chars_of(input);
    let mut k = chars.len();
    while k > 0 && is_whitespace_char(chars[k - 1])
        invariant
            chars@ == input@,
            k <= chars@.len(),
            forall|i: int| k <= i < chars@.len() ==> is_unicode_whitespace(#[trigger] chars@[i]),
        decreases k,
    {
        k = k - 1;
    }
    if k == 0 {
        None
    } else {
        let name = input.substring_char(0, k).to_owned();
        proof {
            assert(input@.subrange(0, k as int) =~= input@.take(k as int));
        }
        Some(name)
    }
}

} // verus!
