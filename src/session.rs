//! Choices of a chat session that do not touch the transport: which room to
//! enter, what to announce, and what to broadcast for each input line.
use vstd::prelude::*;
use vstd::string::StringExecFns;
use crate::ident::{PeerId, TopicId};
use crate::message::{message_bytes, DecodeError, Message, MessageView};
use crate::ticket::{parse_ticket_text, peers_view, ticket_text, PeerAddr, Ticket};

verus! {

/// How the session enters a room.
pub enum Command {
    /// Open a new room.
    Open,
    /// Join the room of a shared ticket.
    Join { ticket: String },
}

/// The room to subscribe to and the peers to start from.
pub struct RoomPlan {
    pub topic: TopicId,
    pub bootstrap: Vec<PeerAddr>,
}

/// Chooses the room: a new one under the freshly drawn `fresh` topic with no
/// peers to start from, or the topic and peers of a shared ticket. A ticket
/// that does not decode is an error, and then nothing is planned.
pub fn plan_room(command: &Command, fresh: TopicId) -> (r: Result<RoomPlan, DecodeError>)
    ensures
        match command {
            Command::Open => r is Ok && r->Ok_0.topic@ == fresh@ && r->Ok_0.bootstrap@.len() == 0,
            Command::Join { ticket } => match parse_ticket_text(ticket@) {
                Some(t) => r is Ok && r->Ok_0.topic@ == t.topic && peers_view(
                    r->Ok_0.bootstrap@,
                ) == t.nodes,
                None => r == Err::<RoomPlan, DecodeError>(DecodeError::Malformed),
            },
        },
{
    match command {
        Command::Open => Ok(RoomPlan { topic: fresh, bootstrap: Vec::new() }),
        Command::Join { ticket } => match Ticket::decode(ticket.as_str()) {
            Ok(t) => Ok(RoomPlan { topic: t.topic, bootstrap: t.nodes }),
            Err(e) => Err(e),
        },
    }
}

/// The announcement sent once joined, if a nickname was configured.
pub fn announcement(me: &PeerId, name: Option<String>) -> (r: Option<Vec<u8>>)
    ensures
        r is Some <==> name is Some,
        r is Some ==> r.unwrap()@ == message_bytes(
            MessageView::AboutMe { from: me@, name: name.unwrap()@ },
        ),
{
    match name {
        Some(name) => {
            let m = Message::AboutMe { from: me.copied(), name };
            Some(m.to_vec())
        },
        None => None,
    }
}

/// What `str::trim` leaves of the characters `s`.
pub uninterp spec fn trim_of(s: Seq<char>) -> Seq<char>;

/// Relies on `str::trim`: leading and trailing whitespace removed; the result
/// depends on the characters alone.
#[verifier::external_body]
fn trim_line(s: &str) -> (r: String)
    ensures
        r@ == trim_of(s@),
{
    s.trim().to_string()
}

/// The chat message broadcast for one input line, trimmed of surrounding
/// whitespace; an empty line is a valid, empty chat text.
pub fn chat_message(me: &PeerId, line: &str) -> (r: Message)
    ensures
        r@ == (MessageView::Chat { from: me@, text: trim_of(line@) }),
{
    Message::Chat { from: me.copied(), text: trim_line(line) }
}

/// The status line that shares a ticket: it holds the ticket's whole text form.
pub fn ticket_line(ticket: &Ticket) -> (r: String)
    ensures
        r@ == "> ticket to join us: "@ + ticket_text(ticket@),
{
    let text = ticket.encode();
    String::from_str("> ticket to join us: ").concat(text.as_str())
}

} // verus!
