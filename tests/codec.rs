use gossip_chat::ident::{PeerId, TopicId};
use gossip_chat::message::{DecodeError, Message};
use gossip_chat::ticket::{PeerAddr, Ticket};

fn peer(b: u8) -> PeerId {
    PeerId::from_bytes(vec![b; 32]).unwrap()
}

fn topic(b: u8) -> TopicId {
    TopicId::from_bytes(vec![b; 32]).unwrap()
}

fn sample_ticket() -> Ticket {
    Ticket {
        topic: topic(0xab),
        nodes: vec![
            PeerAddr { id: peer(1), hints: vec!["relay:https://relay.example/".to_string(), "10.0.0.7:4433".to_string()] },
            PeerAddr { id: peer(2), hints: vec![] },
        ],
    }
}

#[test]
fn identity_needs_exactly_32_bytes() {
    assert!(PeerId::from_bytes(vec![0; 31]).is_none());
    assert!(PeerId::from_bytes(vec![0; 33]).is_none());
    assert!(TopicId::from_bytes(vec![]).is_none());
    assert_eq!(peer(9).as_bytes(), &[9u8; 32][..]);
}

#[test]
fn short_rendering_is_first_five_bytes_in_hex() {
    let mut bytes = vec![0u8; 32];
    bytes[..6].copy_from_slice(&[0x01, 0xab, 0x00, 0xff, 0x10, 0x99]);
    let id = PeerId::from_bytes(bytes).unwrap();
    assert_eq!(id.fmt_short(), "01ab00ff10");
}

#[test]
fn about_me_round_trip() {
    let m = Message::AboutMe { from: peer(3), name: "Bob".to_string() };
    let bytes = m.to_vec();
    assert_eq!(Message::from_bytes(&bytes), Ok(m));
}

#[test]
fn chat_round_trip_with_unicode_and_empty_text() {
    for text in ["hello", "", "héllo wörld ✓ 🎉"] {
        let m = Message::Chat { from: peer(4), text: text.to_string() };
        let bytes = m.to_vec();
        assert_eq!(Message::from_bytes(&bytes), Ok(m));
    }
}

#[test]
fn chat_wire_layout() {
    let m = Message::Chat { from: peer(5), text: "hi".to_string() };
    let mut expected = vec![1u8];
    expected.extend_from_slice(&[5u8; 32]);
    expected.extend_from_slice(&[0, 0, 0, 0, 0, 0, 0, 2]);
    expected.extend_from_slice(b"hi");
    assert_eq!(m.to_vec(), expected);
    let a = Message::AboutMe { from: peer(5), name: "hi".to_string() };
    assert_eq!(a.to_vec()[0], 0);
}

#[test]
fn malformed_payloads_are_rejected() {
    let good = Message::Chat { from: peer(6), text: "hey".to_string() }.to_vec();
    assert_eq!(Message::from_bytes(&[]), Err(DecodeError::Malformed));
    assert_eq!(Message::from_bytes(&good[..good.len() - 1]), Err(DecodeError::Malformed));
    let mut longer = good.clone();
    longer.push(0);
    assert_eq!(Message::from_bytes(&longer), Err(DecodeError::Malformed));
    let mut unknown_tag = good.clone();
    unknown_tag[0] = 7;
    assert_eq!(Message::from_bytes(&unknown_tag), Err(DecodeError::Malformed));
    let mut bad_utf8 = good.clone();
    let n = bad_utf8.len();
    bad_utf8[n - 1] = 0xff;
    assert_eq!(Message::from_bytes(&bad_utf8), Err(DecodeError::Malformed));
    let mut huge_len = good.clone();
    huge_len[33] = 0xff;
    assert_eq!(Message::from_bytes(&huge_len), Err(DecodeError::Malformed));
    assert_eq!(Message::from_bytes(b"{\"Message\":{}}"), Err(DecodeError::Malformed));
}

#[test]
fn decoded_text_is_the_sent_text() {
    let bytes = Message::AboutMe { from: peer(8), name: "Zoë".to_string() }.to_vec();
    match Message::from_bytes(&bytes).unwrap() {
        Message::AboutMe { name, .. } => assert_eq!(name, "Zoë"),
        other => panic!("unexpected {:?}", other),
    }
}

#[test]
fn ticket_round_trip() {
    let t = sample_ticket();
    let text = t.encode();
    assert_eq!(Ticket::decode(&text), Ok(sample_ticket()));
    let bytes = t.to_bytes();
    assert_eq!(Ticket::from_bytes(&bytes), Ok(sample_ticket()));
}

#[test]
fn ticket_without_peers_round_trip() {
    let t = Ticket { topic: topic(0), nodes: vec![] };
    let text = t.encode();
    assert_eq!(text, format!("{}{}", "00".repeat(32), "0000000000000000"));
    assert_eq!(Ticket::decode(&text), Ok(Ticket { topic: topic(0), nodes: vec![] }));
}

#[test]
fn ticket_text_is_printable_lowercase_hex() {
    let text = sample_ticket().encode();
    assert!(!text.is_empty());
    assert!(text.chars().all(|c| c.is_ascii_hexdigit() && !c.is_ascii_uppercase()));
    assert_eq!(text.len(), 2 * sample_ticket().to_bytes().len());
}

#[test]
fn ticket_text_not_a_ticket() {
    assert_eq!(Ticket::decode("not a valid ticket"), Err(DecodeError::Malformed));
}

#[test]
fn ticket_garbage_is_rejected() {
    let text = sample_ticket().encode();
    assert_eq!(Ticket::decode(""), Err(DecodeError::Malformed));
    assert_eq!(Ticket::decode(&text[..text.len() - 1]), Err(DecodeError::Malformed));
    assert_eq!(Ticket::decode(&text[..text.len() - 2]), Err(DecodeError::Malformed));
    assert_eq!(Ticket::decode(&format!("{}00", text)), Err(DecodeError::Malformed));
    assert_eq!(Ticket::decode(&text.to_uppercase()), Err(DecodeError::Malformed));
    assert_eq!(Ticket::from_bytes(&[0xff; 40]), Err(DecodeError::Malformed));
}

#[test]
fn ticket_simplified_display() {
    let t = sample_ticket();
    assert_eq!(t.simplify(), Some("0101010101".to_string()));
    assert_eq!(Ticket { topic: topic(1), nodes: vec![] }.simplify(), None);
    let ids = t.node_ids();
    assert_eq!(ids, vec![peer(1), peer(2)]);
}

#[test]
fn ticket_for_self_lists_self_alone() {
    let me = PeerAddr { id: peer(4), hints: vec!["1.2.3.4:5".to_string()] };
    let t = Ticket::for_self(topic(9), me.copied());
    assert_eq!(t.nodes, vec![me]);
    assert_eq!(t.topic, topic(9));
}
