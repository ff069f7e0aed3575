//! The chat wire message: a tagged union carried as the transport payload.
//!
//! Layout: one tag byte (0 for an announcement, 1 for a chat line), the 32
//! bytes of the sender's identity, then the framed string.
use vstd::prelude::*;
use crate::ident::{PeerId, ID_LEN};
use crate::wire::{
    get_str, lemma_str_round_trip, lemma_str_sound, put_bytes, put_str, read_str, str_bytes,
    str_fits,
};

verus! {

/// Tag byte of an announcement of a nickname.
pub const ABOUT_ME_TAG: u8 = 0;

/// Tag byte of a chat line.
pub const CHAT_TAG: u8 = 1;

/// Why a payload or a ticket could not be read.
#[derive(Debug, Clone, Copy, PartialEq, Eq, Structural)]
pub enum DecodeError {
    /// The input is not an encoding of a value.
    Malformed,
}

/// A message sent to every peer of a room.
#[derive(Debug, PartialEq, Eq)]
pub enum Message {
    /// The sender announces its nickname.
    AboutMe { from: PeerId, name: String },
    /// The sender says a line of text.
    Chat { from: PeerId, text: String },
}

/// The mathematical value of a [`Message`].
pub enum MessageView {
    AboutMe { from: Seq<u8>, name: Seq<char> },
    Chat { from: Seq<u8>, text: Seq<char> },
}

impl View for Message {
    type V = MessageView;

    open spec fn view(&self) -> MessageView {
        match self {
            Message::AboutMe { from, name } => MessageView::AboutMe { from: from@, name: name@ },
            Message::Chat { from, text } => MessageView::Chat { from: from@, text: text@ },
        }
    }
}

/// A message whose identity has 32 bytes and whose string can be framed.
pub open spec fn message_valid(m: MessageView) -> bool {
    match m {
        MessageView::AboutMe { from, name } => from.len() == ID_LEN && str_fits(name),
        MessageView::Chat { from, text } => from.len() == ID_LEN && str_fits(text),
    }
}

/// The bytes of a message on the wire.
pub open spec fn message_bytes(m: MessageView) -> Seq<u8> {
    match m {
        MessageView::AboutMe { from, name } => seq![ABOUT_ME_TAG] + from + str_bytes(name),
        MessageView::Chat { from, text } => seq![CHAT_TAG] + from + str_bytes(text),
    }
}

/// The message that `b` encodes, if any: the tag is known, the identity is
/// whole, the string is well-formed and nothing follows it.
pub open spec fn parse_message(b: Seq<u8>) -> Option<MessageView> {
    if b.len() < 1 + ID_LEN {
        None
    } else {
        let from = b.subrange(1, 1 + ID_LEN);
        match read_str(b, 1 + ID_LEN) {
            Some((s, p)) => if p != b.len() {
                None
            } else if b[0] == ABOUT_ME_TAG {
                Some(MessageView::AboutMe { from, name: s })
            } else if b[0] == CHAT_TAG {
                Some(MessageView::Chat { from, text: s })
            } else {
                None
            },
            None => None,
        }
    }
}

/// Decoding the encoding of a valid message gives the message back.
pub proof fn lemma_message_round_trip(m: MessageView)
    requires
        message_valid(m),
    ensures
        parse_message(message_bytes(m)) == Some(m),
{
    let b = message_bytes(m);
    match m {
        MessageView::AboutMe { from, name } => {
            assert(b.subrange(1, 1 + ID_LEN) =~= from);
            assert(b.subrange(1 + ID_LEN, b.len() as int) =~= str_bytes(name));
            lemma_str_round_trip(b, 1 + ID_LEN, name);
        },
        MessageView::Chat { from, text } => {
            assert(b.subrange(1, 1 + ID_LEN) =~= from);
            assert(b.subrange(1 + ID_LEN, b.len() as int) =~= str_bytes(text));
            lemma_str_round_trip(b, 1 + ID_LEN, text);
        },
    }
}

/// What decodes is a valid message whose encoding is exactly the input.
pub proof fn lemma_message_parse_exact(b: Seq<u8>)
    requires
        parse_message(b) is Some,
    ensures
        message_valid(parse_message(b).unwrap()),
        message_bytes(parse_message(b).unwrap()) == b,
{
    lemma_str_sound(b, 1 + ID_LEN);
    let (s, p) = read_str(b, 1 + ID_LEN).unwrap();
    assert(b =~= seq![b[0]] + b.subrange(1, 1 + ID_LEN) + b.subrange(1 + ID_LEN, p));
}

/// Input that no valid message encodes is rejected, and input that decodes
/// is the encoding of exactly one valid message.
pub proof fn lemma_message_malformed(b: Seq<u8>, m: MessageView)
    requires
        message_valid(m),
    ensures
        parse_message(b) is None ==> message_bytes(m) != b,
        parse_message(b) == Some(m) <==> message_bytes(m) == b,
{
    lemma_message_round_trip(m);
    if parse_message(b) is Some {
        lemma_message_parse_exact(b);
    }
}

impl Message {
    /// The bytes of the message on the wire.
    pub fn to_vec(&self) -> (r: Vec<u8>)
        ensures
            r@ == message_bytes(self@),
            message_valid(self@),
    {
        let mut out: Vec<u8> = Vec::new();
        match self {
            Message::AboutMe { from, name } => {
                out.push(ABOUT_ME_TAG);
                put_bytes(&mut out, from.as_bytes());
                put_str(&mut out, name.as_str());
                assert(out@ =~= message_bytes(self@));
            },
            Message::Chat { from, text } => {
                out.push(CHAT_TAG);
                put_bytes(&mut out, from.as_bytes());
                put_str(&mut out, text.as_str());
                assert(out@ =~= message_bytes(self@));
            },
        }
        out
    }

    /// The message that `b` encodes; malformed input is an error.
    pub fn from_bytes(b: &[u8]) -> (r: Result<Message, DecodeError>)
        ensures
            r is Ok <==> parse_message(b@) is Some,
            r is Ok ==> parse_message(b@) == Some(r->Ok_0@),
            r is Ok ==> message_bytes(r->Ok_0@) == b@,
            r is Err ==> r == Err::<Message, DecodeError>(DecodeError::Malformed),
    {
        proof {
            if parse_message(b@) is Some {
                lemma_message_parse_exact(b@);
            }
        }
        if b.len() < 1 + ID_LEN {
            return Err(DecodeError::Malformed);
        }
        let tag = b[0];
        if tag != ABOUT_ME_TAG && tag != CHAT_TAG {
            return Err(DecodeError::Malformed);
        }
        let from = PeerId::read_at(b, 1);
        let (s, p) = match get_str(b, 1 + ID_LEN) {
            Some(x) => x,
            None => return Err(DecodeError::Malformed),
        };
        if p != b.len() {
            return Err(DecodeError::Malformed);
        }
        if tag == ABOUT_ME_TAG {
            Ok(Message::AboutMe { from, name: s })
        } else {
            Ok(Message::Chat { from, text: s })
        }
    }
}

} // verus!
