use rust_playground::messenger::admin_panel::{is_shown_on_panel, SendMessageQuery};
use rust_playground::messenger::client::{
    describe_incoming, is_whitespace_char, to_client_message, username_from_input,
    ClientWriterActorMessage,
};
use rust_playground::messenger::legacy;
use rust_playground::messenger::protocol::client_message::{ClientMessage, ClientMessageReceiver};
use rust_playground::messenger::protocol::network_message::{
    frame_len, MessageReader, NetworkMessage,
};
use rust_playground::messenger::server::{
    handle_broadcast_message, retrieve_client_username, MessageHandlingResult,
};

#[test]
fn constructors_and_username() {
    assert_eq!(ClientMessage::connected("ann".into()).get_username(), "ann");
    assert_eq!(ClientMessage::disconnected("bob".into()).get_username(), "bob");
    assert_eq!(ClientMessage::keepalive("cy".into()).get_username(), "cy");
    match ClientMessage::data("ann".into(), "hi".into()) {
        ClientMessage::Data(common, ClientMessageReceiver::Broadcast, data) => {
            assert_eq!(common.username, "ann");
            assert_eq!(data, "hi");
        }
        other => panic!("unexpected {other:?}"),
    }
    match ClientMessage::data_private("ann".into(), "bob".into(), "psst".into()) {
        ClientMessage::Data(common, ClientMessageReceiver::Unicast(to), data) => {
            assert_eq!(common.username, "ann");
            assert_eq!(to, "bob");
            assert_eq!(data, "psst");
        }
        other => panic!("unexpected {other:?}"),
    }
}

#[test]
fn framing_puts_the_length_first() {
    let message = NetworkMessage::new(b"hi");
    assert_eq!(message.get_payload(), &[0, 0, 0, 0, 0, 0, 0, 2, b'h', b'i']);
    assert_eq!(NetworkMessage::default().get_payload(), &[] as &[u8]);
}

#[test]
fn read_gives_back_what_was_framed() {
    let payload = br#"{"Connected":{"username":"ann"}}"#;
    let framed = NetworkMessage::new(payload);
    let bytes = framed.get_payload();
    let len = frame_len(&bytes[..8]);
    assert_eq!(len, payload.len() as u64);
    let mut reader = MessageReader::new(len);
    let size = reader.next_read_size().unwrap();
    assert_eq!(size, payload.len());
    reader.take(&bytes[8..8 + size]);
    assert_eq!(reader.next_read_size(), None);
    assert_eq!(reader.finish().get_payload(), payload);
}

#[test]
fn large_lengths_decode() {
    assert_eq!(frame_len(&[1, 2, 3, 4, 5, 6, 7, 8]), 0x0102030405060708);
}

#[test]
fn first_message_must_be_connected() {
    assert_eq!(retrieve_client_username(ClientMessage::connected("ann".into())), Some("ann".to_string()));
    assert_eq!(retrieve_client_username(ClientMessage::keepalive("ann".into())), None);
}

#[test]
fn broadcast_filtering() {
    let me = "me".to_string();
    let own = handle_broadcast_message(ClientMessage::data("me".into(), "x".into()), &me);
    assert!(matches!(own, MessageHandlingResult::IgnoreForeignMessage));
    let private_other = handle_broadcast_message(
        ClientMessage::data_private("ann".into(), "bob".into(), "x".into()),
        &me,
    );
    assert!(matches!(private_other, MessageHandlingResult::IgnoreForeignMessage));
    let private_me = handle_broadcast_message(
        ClientMessage::data_private("ann".into(), "me".into(), "x".into()),
        &me,
    );
    assert!(matches!(private_me, MessageHandlingResult::Message(ClientMessage::Data(..))));
    let joined = handle_broadcast_message(ClientMessage::connected("ann".into()), &me);
    assert!(matches!(joined, MessageHandlingResult::Message(ClientMessage::Connected(_))));
}

#[test]
fn actor_messages_become_client_messages() {
    let broadcast = to_client_message(
        ClientWriterActorMessage::SendData("hi".into(), ClientMessageReceiver::Broadcast),
        "ann".into(),
    );
    assert!(matches!(broadcast, ClientMessage::Data(ref c, ClientMessageReceiver::Broadcast, ref d) if c.username == "ann" && d == "hi"));
    let private = to_client_message(
        ClientWriterActorMessage::SendData("hi".into(), ClientMessageReceiver::Unicast("bob".into())),
        "ann".into(),
    );
    assert!(matches!(private, ClientMessage::Data(ref c, ClientMessageReceiver::Unicast(ref to), _) if c.username == "ann" && to == "bob"));
    let alive = to_client_message(ClientWriterActorMessage::Keepalive(), "ann".into());
    assert!(matches!(alive, ClientMessage::KeepAlive(ref c) if c.username == "ann"));
}

#[test]
fn incoming_lines() {
    assert_eq!(
        describe_incoming(&ClientMessage::connected("ann".into())).as_deref(),
        Some("[ann] has connected...")
    );
    assert_eq!(
        describe_incoming(&ClientMessage::disconnected("ann".into())).as_deref(),
        Some("[ann] has disconnected...")
    );
    assert_eq!(
        describe_incoming(&ClientMessage::data("ann".into(), "hello\n".into())).as_deref(),
        Some("[ann]hello\n")
    );
    assert_eq!(
        describe_incoming(&ClientMessage::data_private("ann".into(), "me".into(), "psst".into()))
            .as_deref(),
        Some("[ann] \u{1F512}psst")
    );
    assert_eq!(describe_incoming(&ClientMessage::keepalive("ann".into())), None);
}

#[test]
fn usernames_from_input() {
    assert_eq!(username_from_input("  bob \n"), Some("  bob".to_string()));
    assert_eq!(username_from_input("ann"), Some("ann".to_string()));
    assert_eq!(username_from_input(" \t\n"), None);
    assert_eq!(username_from_input(""), None);
    assert_eq!(username_from_input("zoe\u{3000}\n"), Some("zoe".to_string()));
}

#[test]
fn keepalives_are_not_shown_on_the_panel() {
    assert!(!is_shown_on_panel(&ClientMessage::keepalive("a".into())));
    assert!(is_shown_on_panel(&ClientMessage::connected("a".into())));
    let query = SendMessageQuery { msg: "hi".into() };
    assert_eq!(query.msg, "hi");
}

#[test]
fn legacy_messages_carry_a_client_number() {
    let mut msg = legacy::client_message::ClientMessage::data(3, "x".into());
    assert_eq!(msg.get_id(), 3);
    msg.set_id(9);
    assert_eq!(msg.get_id(), 9);
    assert!(matches!(msg, legacy::client_message::ClientMessage::Data(_, ref d) if d == "x"));
    let mut joined = legacy::client_message::ClientMessage::connected(1);
    joined.set_id(2);
    assert_eq!(joined.get_id(), 2);
    assert_eq!(legacy::client_message::ClientMessage::disconnected(5).get_id(), 5);
}

#[test]
fn whitespace_is_the_unicode_white_space_property() {
    for c in (0u32..=0x10FFFF).filter_map(char::from_u32) {
        assert_eq!(is_whitespace_char(c), c.is_whitespace(), "{:#x}", c as u32);
    }
}

#[test]
fn long_payloads_are_read_a_buffer_at_a_time() {
    let payload = [7u8; 600];
    let framed = NetworkMessage::new(&payload);
    let bytes = framed.get_payload();
    let len = frame_len(&bytes[..8]);
    assert_eq!(len, 600);
    let mut reader = MessageReader::new(len);
    let mut at = 8;
    let mut sizes = Vec::new();
    while let Some(size) = reader.next_read_size() {
        sizes.push(size);
        reader.take(&bytes[at..at + size]);
        at += size;
    }
    assert_eq!(sizes, vec![512, 88]);
    assert_eq!(reader.finish().get_payload(), &payload[..]);
}
