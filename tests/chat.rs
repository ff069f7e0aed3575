use gossip_chat::directory::{format_chat, rename_notice, Directory};
use gossip_chat::ident::{PeerId, TopicId};
use gossip_chat::message::{DecodeError, Message};
use gossip_chat::session::{announcement, chat_message, plan_room, ticket_line, Command};
use gossip_chat::ticket::{PeerAddr, Ticket};

fn peer(b: u8) -> PeerId {
    PeerId::from_bytes(vec![b; 32]).unwrap()
}

fn topic(b: u8) -> TopicId {
    TopicId::from_bytes(vec![b; 32]).unwrap()
}

#[test]
fn directory_last_write_wins() {
    let mut d = Directory::new();
    d.record(peer(1), "Alice".to_string());
    assert_eq!(d.resolve(&peer(1)), "Alice");
    d.record(peer(1), "Bob".to_string());
    assert_eq!(d.resolve(&peer(1)), "Bob");
    d.record(peer(2), "Carol".to_string());
    assert_eq!(d.resolve(&peer(1)), "Bob");
    assert_eq!(d.resolve(&peer(2)), "Carol");
}

#[test]
fn directory_fallback_is_short_identity() {
    let d = Directory::new();
    let r = d.resolve(&peer(0xab));
    assert_eq!(r, "ababababab");
    assert_eq!(d.resolve(&peer(0xab)), r);
}

#[test]
fn receive_about_me_records_and_notifies() {
    let mut d = Directory::new();
    let bob = peer(0x0b);
    let payload = Message::AboutMe { from: bob.copied(), name: "Bob".to_string() }.to_vec();
    assert_eq!(d.receive(&payload), Ok("> 0b0b0b0b0b is now known as Bob".to_string()));
    assert_eq!(d.resolve(&bob), "Bob");
}

#[test]
fn receive_chat_uses_nickname() {
    let mut d = Directory::new();
    let bob = peer(0x0b);
    d.receive(&Message::AboutMe { from: bob.copied(), name: "Bob".to_string() }.to_vec()).unwrap();
    let payload = Message::Chat { from: bob, text: "hello".to_string() }.to_vec();
    assert_eq!(d.receive(&payload), Ok("Bob: hello".to_string()));
}

#[test]
fn receive_chat_from_unknown_peer_uses_short_identity() {
    let mut d = Directory::new();
    let payload = Message::Chat { from: peer(0xc3), text: "hi".to_string() }.to_vec();
    assert_eq!(d.receive(&payload), Ok("c3c3c3c3c3: hi".to_string()));
}

#[test]
fn receive_malformed_leaves_directory_alone() {
    let mut d = Directory::new();
    d.record(peer(1), "Alice".to_string());
    assert_eq!(d.receive(b"garbage"), Err(DecodeError::Malformed));
    assert_eq!(d.resolve(&peer(1)), "Alice");
}

#[test]
fn line_formats() {
    assert_eq!(format_chat("Bob", "hello"), "Bob: hello");
    assert_eq!(format_chat("", ""), ": ");
    assert_eq!(rename_notice("abc", "Eve"), "> abc is now known as Eve");
}

#[test]
fn open_plans_fresh_room() {
    let plan = plan_room(&Command::Open, topic(7)).unwrap();
    assert_eq!(plan.topic, topic(7));
    assert!(plan.bootstrap.is_empty());
}

#[test]
fn join_plans_ticket_room() {
    let t = Ticket { topic: topic(3), nodes: vec![PeerAddr { id: peer(1), hints: vec!["x".to_string()] }] };
    let cmd = Command::Join { ticket: t.encode() };
    let plan = plan_room(&cmd, topic(7)).unwrap();
    assert_eq!(plan.topic, topic(3));
    assert_eq!(plan.bootstrap, vec![PeerAddr { id: peer(1), hints: vec!["x".to_string()] }]);
}

#[test]
fn join_with_bad_ticket_fails() {
    let cmd = Command::Join { ticket: "not a valid ticket".to_string() };
    assert!(matches!(plan_room(&cmd, topic(7)), Err(DecodeError::Malformed)));
}

#[test]
fn announcement_only_with_nickname() {
    assert_eq!(announcement(&peer(2), None), None);
    let bytes = announcement(&peer(2), Some("Bob".to_string())).unwrap();
    assert_eq!(Message::from_bytes(&bytes), Ok(Message::AboutMe { from: peer(2), name: "Bob".to_string() }));
}

#[test]
fn chat_message_of_empty_line() {
    let m = chat_message(&peer(2), "");
    assert_eq!(m, Message::Chat { from: peer(2), text: String::new() });
    assert_eq!(Message::from_bytes(&m.to_vec()), Ok(m));
}

#[test]
fn chat_message_is_trimmed() {
    let m = chat_message(&peer(2), "  hello there \n");
    assert_eq!(m, Message::Chat { from: peer(2), text: "hello there".to_string() });
    assert_eq!(chat_message(&peer(2), " \t\r\n"), Message::Chat { from: peer(2), text: String::new() });
}

#[test]
fn ticket_line_holds_whole_ticket() {
    let t = Ticket { topic: topic(5), nodes: vec![] };
    let line = ticket_line(&t);
    assert_eq!(line, format!("> ticket to join us: {}", t.encode()));
    let text = line.strip_prefix("> ticket to join us: ").unwrap();
    assert_eq!(Ticket::decode(text), Ok(t));
}

#[test]
fn scenario_two_processes() {
    let a_topic = topic(0x11);
    let a_me = PeerAddr { id: peer(0xa1), hints: vec![] };
    let ticket = Ticket::for_self(a_topic.copied(), a_me);
    let text = ticket.encode();
    let plan = plan_room(&Command::Join { ticket: text }, topic(0x22)).unwrap();
    assert_eq!(plan.topic, a_topic);
    assert_eq!(plan.bootstrap[0].id, peer(0xa1));
    let bob = peer(0xb2);
    let mut a_dir = Directory::new();
    let hello = announcement(&bob, Some("Bob".to_string())).unwrap();
    assert_eq!(a_dir.receive(&hello), Ok("> b2b2b2b2b2 is now known as Bob".to_string()));
    let line = chat_message(&bob, "hello\n").to_vec();
    assert_eq!(a_dir.receive(&line), Ok("Bob: hello".to_string()));
}
