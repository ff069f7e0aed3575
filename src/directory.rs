//! The nickname directory and what the receive side does with each payload.
use vstd::prelude::*;
use vstd::string::StringExecFns;
use crate::ident::{short_id, PeerId, ID_LEN, SHORT_LEN};
use crate::message::{parse_message, DecodeError, Message, MessageView};

verus! {

/// The name shown for `peer`: its last announced nickname, else its short rendering.
pub open spec fn resolve_name(names: Map<Seq<u8>, Seq<char>>, peer: Seq<u8>) -> Seq<char> {
    if names.contains_key(peer) {
        names[peer]
    } else {
        short_id(peer)
    }
}

/// The line shown for a chat message.
pub open spec fn chat_line(name: Seq<char>, text: Seq<char>) -> Seq<char> {
    name + seq![':', ' '] + text
}

/// The notice shown when a peer announces a nickname.
pub open spec fn rename_line(short: Seq<char>, name: Seq<char>) -> Seq<char> {
    seq!['>', ' '] + short + " is now known as "@ + name
}

/// What receiving a decoded message does: the directory after it and the line shown.
pub open spec fn receive_step(names: Map<Seq<u8>, Seq<char>>, m: MessageView) -> (
    Map<Seq<u8>, Seq<char>>,
    Seq<char>,
) {
    match m {
        MessageView::AboutMe { from, name } => (
            names.insert(from, name),
            rename_line(short_id(from), name),
        ),
        MessageView::Chat { from, text } => (names, chat_line(resolve_name(names, from), text)),
    }
}

/// Nicknames by peer identity; each peer has at most one, the last announced.
pub struct Directory {
    ids: Vec<PeerId>,
    names: Vec<String>,
    known: Ghost<Map<Seq<u8>, Seq<char>>>,
}

impl View for Directory {
    type V = Map<Seq<u8>, Seq<char>>;

    closed spec fn view(&self) -> Map<Seq<u8>, Seq<char>> {
        self.known@
    }
}

impl Directory {
    /// The entries stand for the map: one per key, none twice.
    pub closed spec fn wf(&self) -> bool {
        &&& self.ids@.len() == self.names@.len()
        &&& forall|i: int, j: int|
            0 <= i < j < self.ids@.len() ==> #[trigger] self.ids@[i]@ != #[trigger] self.ids@[j]@
        &&& forall|k: Seq<u8>|
            #[trigger] self.known@.contains_key(k) <==> exists|i: int|
                0 <= i < self.ids@.len() && #[trigger] self.ids@[i]@ == k
        &&& forall|i: int|
            0 <= i < self.ids@.len() ==> self.known@[#[trigger] self.ids@[i]@] == self.names@[i]@
    }

    /// An empty directory.
    pub fn new() -> (r: Directory)
        ensures
            r.wf(),
            r@ == Map::<Seq<u8>, Seq<char>>::empty(),
    {
        Directory { ids: Vec::new(), names: Vec::new(), known: Ghost(Map::empty()) }
    }

    /// Where `peer` stands among the entries, if it has one.
    fn position(&self, peer: &PeerId) -> (r: Option<usize>)
        requires
            self.wf(),
        ensures
            r is Some ==> r.unwrap() < self.ids@.len() && self.ids@[r.unwrap() as int]@ == peer@,
            r is None ==> !self@.contains_key(peer@),
    {
        let mut i: usize = 0;
        while i < self.ids.len()
            invariant
                self.wf(),
                i <= self.ids@.len(),
                forall|j: int| 0 <= j < i ==> self.ids@[j]@ != peer@,
            decreases self.ids@.len() - i,
        {
            if self.ids[i].same(peer) {
                return Some(i);
            }
            i = i + 1;
        }
        None
    }

    /// Records `name` as the nickname of `peer`, replacing any earlier one.
    pub fn record(&mut self, peer: PeerId, name: String)
        requires
            old(self).wf(),
        ensures
            final(self).wf(),
            final(self)@ == old(self)@.insert(peer@, name@),
    {
        let ghost k = peer@;
        let ghost v = name@;
        match self.position(&peer) {
            Some(i) => {
                self.names.set(i, name);
                self.known = Ghost(self.known@.insert(k, v));
                assert forall|q: Seq<u8>| #[trigger] self.known@.contains_key(q) implies exists|
                    j: int,
                | 0 <= j < self.ids@.len() && #[trigger] self.ids@[j]@ == q by {
                    if q == k {
                        assert(self.ids@[i as int]@ == q);
                    } else {
                        let j = choose|j: int| 0 <= j < old(self).ids@.len() && #[trigger] old(
                            self,
                        ).ids@[j]@ == q;
                        assert(self.ids@[j]@ == q);
                    }
                }
            },
            None => {
                self.ids.push(peer);
                self.names.push(name);
                self.known = Ghost(self.known@.insert(k, v));
                let ghost n = self.ids@.len() - 1;
                assert forall|q: Seq<u8>| #[trigger] self.known@.contains_key(q) implies exists|
                    j: int,
                | 0 <= j < self.ids@.len() && #[trigger] self.ids@[j]@ == q by {
                    if q == k {
                        assert(self.ids@[n]@ == q);
                    } else {
                        let j = choose|j: int| 0 <= j < old(self).ids@.len() && #[trigger] old(
                            self,
                        ).ids@[j]@ == q;
                        assert(self.ids@[j]@ == q);
                    }
                }
                assert forall|q: Seq<u8>|
                    (exists|j: int| 0 <= j < self.ids@.len() && #[trigger] self.ids@[j]@
                        == q) implies #[trigger] self.known@.contains_key(q) by {
                    let j = choose|j: int| 0 <= j < self.ids@.len() && #[trigger] self.ids@[j]@ == q;
                    if j < n {
                        assert(old(self).ids@[j]@ == q);
                    }
                }
            },
        }
    }

    /// The name shown for `peer`: its nickname if it announced one, else the
    /// short rendering of its identity, which is never empty.
    pub fn resolve(&self, peer: &PeerId) -> (r: String)
        requires
            self.wf(),
        ensures
            r@ == resolve_name(self@, peer@),
    {
        match self.position(peer) {
            Some(i) => self.names[i].clone(),
            None => peer.fmt_short(),
        }
    }

    /// Handles one received payload: an announcement is recorded and gives a
    /// rename notice; a chat message gives the line to show. A payload that
    /// does not decode leaves the directory as it was.
    pub fn receive(&mut self, payload: &[u8]) -> (r: Result<String, DecodeError>)
        requires
            old(self).wf(),
        ensures
            final(self).wf(),
            r is Err <==> parse_message(payload@) is None,
            r is Err ==> final(self)@ == old(self)@ && r == Err::<String, DecodeError>(
                DecodeError::Malformed,
            ),
            r is Ok ==> (final(self)@, r->Ok_0@) == receive_step(
                old(self)@,
                parse_message(payload@).unwrap(),
            ),
    {
        match Message::from_bytes(payload) {
            Ok(Message::AboutMe { from, name }) => {
                let short = from.fmt_short();
                let line = rename_notice(short.as_str(), name.as_str());
                self.record(from, name);
                Ok(line)
            },
            Ok(Message::Chat { from, text }) => {
                let name = self.resolve(&from);
                Ok(format_chat(name.as_str(), text.as_str()))
            },
            Err(e) => Err(e),
        }
    }
}

/// The line shown for a chat message: `"<name>: <text>"`.
pub fn format_chat(name: &str, text: &str) -> (r: String)
    ensures
        r@ == chat_line(name@, text@),
{
    proof {
        reveal_strlit(": ");
    }
    let r = String::from_str(name).concat(": ").concat(text);
    assert(r@ =~= chat_line(name@, text@));
    r
}

/// The notice shown when the peer rendered `short` announces `name`.
pub fn rename_notice(short: &str, name: &str) -> (r: String)
    ensures
        r@ == rename_line(short@, name@),
{
    proof {
        reveal_strlit("> ");
    }
    let r = String::from_str("> ").concat(short).concat(" is now known as ").concat(name);
    assert(r@ =~= rename_line(short@, name@));
    r
}

/// A nickname, once recorded, is what the peer resolves to; a later one
/// replaces it.
pub proof fn lemma_last_write_wins(
    names: Map<Seq<u8>, Seq<char>>,
    peer: Seq<u8>,
    first: Seq<char>,
    second: Seq<char>,
)
    ensures
        resolve_name(names.insert(peer, first), peer) == first,
        resolve_name(names.insert(peer, first).insert(peer, second), peer) == second,
{
}

/// A peer without a nickname resolves to its short rendering, which depends
/// on its identity alone and is never empty.
pub proof fn lemma_fallback(names: Map<Seq<u8>, Seq<char>>, peer: Seq<u8>)
    requires
        peer.len() == ID_LEN,
        !names.contains_key(peer),
    ensures
        resolve_name(names, peer) == short_id(peer),
        resolve_name(names, peer).len() == 2 * SHORT_LEN,
{
    crate::ident::lemma_hex_len(peer.subrange(0, SHORT_LEN as int));
}

} // verus!
