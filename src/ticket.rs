//! Room invitations: a topic and the peers to start from.
//!
//! A ticket is laid out as the 32 topic bytes, the number of peers, and each
//! peer in turn (its 32 identity bytes, the number of its address hints, each
//! hint framed). Its text form is that layout in lowercase hexadecimal.
use vstd::prelude::*;
use vstd::utf8::*;
use crate::ident::{
    ascii_chars, hex_of, hex_string, lemma_ascii_chars, lemma_hex_len, lemma_hex_sound,
    lemma_unhex_hex, unhex, unhex_bytes, PeerId, TopicId, ID_LEN,
};
use crate::message::DecodeError;
use crate::wire::{
    be64, get_str, get_u64, holds_at, lemma_be64_round_trip, lemma_be64_sound, lemma_holds_split,
    lemma_str_round_trip, lemma_str_sound, put_bytes, put_str, put_u64, read_str, read_u64,
    str_bytes, str_fits,
};

verus! {

broadcast use encode_utf8_decode_utf8;

/// A peer as a ticket lists it: its identity and opaque address hints.
#[derive(Debug, PartialEq, Eq)]
pub struct PeerAddr {
    pub id: PeerId,
    pub hints: Vec<String>,
}

/// An invitation to a room.
#[derive(Debug, PartialEq, Eq)]
pub struct Ticket {
    pub topic: TopicId,
    pub nodes: Vec<PeerAddr>,
}

/// The mathematical value of a [`PeerAddr`].
pub struct PeerAddrView {
    pub id: Seq<u8>,
    pub hints: Seq<Seq<char>>,
}

/// The mathematical value of a [`Ticket`].
pub struct TicketView {
    pub topic: Seq<u8>,
    pub nodes: Seq<PeerAddrView>,
}

pub open spec fn strings_view(v: Seq<String>) -> Seq<Seq<char>> {
    v.map_values(|s: String| s@)
}

pub open spec fn peers_view(v: Seq<PeerAddr>) -> Seq<PeerAddrView> {
    v.map_values(|p: PeerAddr| p@)
}

impl View for PeerAddr {
    type V = PeerAddrView;

    open spec fn view(&self) -> PeerAddrView {
        PeerAddrView { id: self.id@, hints: strings_view(self.hints@) }
    }
}

impl View for Ticket {
    type V = TicketView;

    open spec fn view(&self) -> TicketView {
        TicketView { topic: self.topic@, nodes: peers_view(self.nodes@) }
    }
}

/// A peer with a 32-byte identity whose hints can all be framed.
pub open spec fn peer_valid(p: PeerAddrView) -> bool {
    &&& p.id.len() == ID_LEN
    &&& p.hints.len() <= u64::MAX
    &&& forall|i: int| 0 <= i < p.hints.len() ==> str_fits(#[trigger] p.hints[i])
}

/// A ticket with a 32-byte topic whose peers are all valid.
pub open spec fn ticket_valid(t: TicketView) -> bool {
    &&& t.topic.len() == ID_LEN
    &&& t.nodes.len() <= u64::MAX
    &&& forall|i: int| 0 <= i < t.nodes.len() ==> peer_valid(#[trigger] t.nodes[i])
}

pub open spec fn strs_bytes(ss: Seq<Seq<char>>) -> Seq<u8>
    decreases ss.len(),
{
    if ss.len() == 0 {
        seq![]
    } else {
        strs_bytes(ss.drop_last()) + str_bytes(ss.last())
    }
}

pub open spec fn read_strs(b: Seq<u8>, pos: int, n: nat) -> Option<(Seq<Seq<char>>, int)>
    decreases n,
{
    if n == 0 {
        Some((seq![], pos))
    } else {
        match read_strs(b, pos, (n - 1) as nat) {
            Some((xs, p)) => match read_str(b, p) {
                Some((x, q)) => Some((xs.push(x), q)),
                None => None,
            },
            None => None,
        }
    }
}

pub open spec fn peer_bytes(p: PeerAddrView) -> Seq<u8> {
    p.id + be64(p.hints.len() as u64) + strs_bytes(p.hints)
}

pub open spec fn read_peer(b: Seq<u8>, pos: int) -> Option<(PeerAddrView, int)> {
    if 0 <= pos && pos + ID_LEN <= b.len() {
        match read_u64(b, pos + ID_LEN) {
            Some((n, p)) => match read_strs(b, p, n as nat) {
                Some((hs, q)) => Some(
                    (PeerAddrView { id: b.subrange(pos, pos + ID_LEN), hints: hs }, q),
                ),
                None => None,
            },
            None => None,
        }
    } else {
        None
    }
}

pub open spec fn peers_bytes(ps: Seq<PeerAddrView>) -> Seq<u8>
    decreases ps.len(),
{
    if ps.len() == 0 {
        seq![]
    } else {
        peers_bytes(ps.drop_last()) + peer_bytes(ps.last())
    }
}

pub open spec fn read_peers(b: Seq<u8>, pos: int, n: nat) -> Option<(Seq<PeerAddrView>, int)>
    decreases n,
{
    if n == 0 {
        Some((seq![], pos))
    } else {
        match read_peers(b, pos, (n - 1) as nat) {
            Some((xs, p)) => match read_peer(b, p) {
                Some((x, q)) => Some((xs.push(x), q)),
                None => None,
            },
            None => None,
        }
    }
}

/// The bytes of a ticket.
pub open spec fn ticket_bytes(t: TicketView) -> Seq<u8> {
    t.topic + be64(t.nodes.len() as u64) + peers_bytes(t.nodes)
}

/// The ticket that `b` encodes, if any, with nothing left over.
pub open spec fn parse_ticket(b: Seq<u8>) -> Option<TicketView> {
    if b.len() < ID_LEN {
        None
    } else {
        match read_u64(b, ID_LEN as int) {
            Some((n, p)) => match read_peers(b, p, n as nat) {
                Some((ps, q)) => if q == b.len() {
                    Some(TicketView { topic: b.subrange(0, ID_LEN as int), nodes: ps })
                } else {
                    None
                },
                None => None,
            },
            None => None,
        }
    }
}

/// The text form of a ticket.
pub open spec fn ticket_text(t: TicketView) -> Seq<char> {
    ascii_chars(hex_of(ticket_bytes(t)))
}

/// The ticket that the text `cs` renders, if any.
pub open spec fn parse_ticket_text(cs: Seq<char>) -> Option<TicketView> {
    match unhex(encode_utf8(cs)) {
        Some(b) => parse_ticket(b),
        None => None,
    }
}

proof fn lemma_strs_round_trip(b: Seq<u8>, pos: int, ss: Seq<Seq<char>>)
    requires
        holds_at(b, pos, strs_bytes(ss)),
        forall|i: int| 0 <= i < ss.len() ==> str_fits(#[trigger] ss[i]),
    ensures
        read_strs(b, pos, ss.len()) == Some((ss, pos + strs_bytes(ss).len())),
    decreases ss.len(),
{
    if ss.len() > 0 {
        let init = ss.drop_last();
        lemma_holds_split(b, pos, strs_bytes(init), str_bytes(ss.last()));
        lemma_strs_round_trip(b, pos, init);
        lemma_str_round_trip(b, pos + strs_bytes(init).len(), ss.last());
        assert(init.push(ss.last()) =~= ss);
    }
}

proof fn lemma_strs_sound(b: Seq<u8>, pos: int, n: nat)
    requires
        0 <= pos <= b.len(),
        read_strs(b, pos, n) is Some,
    ensures
        ({
            let (ss, q) = read_strs(b, pos, n).unwrap();
            &&& ss.len() == n
            &&& forall|i: int| 0 <= i < ss.len() ==> str_fits(#[trigger] ss[i])
            &&& pos <= q <= b.len()
            &&& b.subrange(pos, q) == strs_bytes(ss)
        }),
    decreases n,
{
    if n == 0 {
        assert(b.subrange(pos, pos) =~= Seq::<u8>::empty());
    } else {
        lemma_strs_sound(b, pos, (n - 1) as nat);
        let (xs, p) = read_strs(b, pos, (n - 1) as nat).unwrap();
        lemma_str_sound(b, p);
        let (x, q) = read_str(b, p).unwrap();
        let ss = xs.push(x);
        assert(ss.drop_last() =~= xs);
        assert(b.subrange(pos, q) =~= b.subrange(pos, p) + b.subrange(p, q));
    }
}

proof fn lemma_strs_none_grows(b: Seq<u8>, pos: int, k: nat, m: nat)
    requires
        k <= m,
        read_strs(b, pos, k) is None,
    ensures
        read_strs(b, pos, m) is None,
    decreases m - k,
{
    if k < m {
        lemma_strs_none_grows(b, pos, k, (m - 1) as nat);
    }
}

proof fn lemma_peer_round_trip(b: Seq<u8>, pos: int, p: PeerAddrView)
    requires
        holds_at(b, pos, peer_bytes(p)),
        peer_valid(p),
    ensures
        read_peer(b, pos) == Some((p, pos + peer_bytes(p).len())),
{
    let h = be64(p.hints.len() as u64);
    lemma_holds_split(b, pos, p.id + h, strs_bytes(p.hints));
    lemma_holds_split(b, pos, p.id, h);
    lemma_be64_round_trip(b, pos + ID_LEN, p.hints.len() as u64);
    lemma_strs_round_trip(b, pos + ID_LEN + 8, p.hints);
}

proof fn lemma_peer_sound(b: Seq<u8>, pos: int)
    requires
        read_peer(b, pos) is Some,
    ensures
        ({
            let (p, q) = read_peer(b, pos).unwrap();
            &&& peer_valid(p)
            &&& pos <= q <= b.len()
            &&& b.subrange(pos, q) == peer_bytes(p)
        }),
{
    let (n, p) = read_u64(b, pos + ID_LEN).unwrap();
    lemma_be64_sound(b, pos + ID_LEN);
    lemma_strs_sound(b, p, n as nat);
    let (hs, q) = read_strs(b, p, n as nat).unwrap();
    assert(b.subrange(pos, q) =~= b.subrange(pos, pos + ID_LEN) + b.subrange(pos + ID_LEN, p)
        + b.subrange(p, q));
}

proof fn lemma_peers_round_trip(b: Seq<u8>, pos: int, ps: Seq<PeerAddrView>)
    requires
        holds_at(b, pos, peers_bytes(ps)),
        forall|i: int| 0 <= i < ps.len() ==> peer_valid(#[trigger] ps[i]),
    ensures
        read_peers(b, pos, ps.len()) == Some((ps, pos + peers_bytes(ps).len())),
    decreases ps.len(),
{
    if ps.len() > 0 {
        let init = ps.drop_last();
        lemma_holds_split(b, pos, peers_bytes(init), peer_bytes(ps.last()));
        lemma_peers_round_trip(b, pos, init);
        lemma_peer_round_trip(b, pos + peers_bytes(init).len(), ps.last());
        assert(init.push(ps.last()) =~= ps);
    }
}

proof fn lemma_peers_sound(b: Seq<u8>, pos: int, n: nat)
    requires
        0 <= pos <= b.len(),
        read_peers(b, pos, n) is Some,
    ensures
        ({
            let (ps, q) = read_peers(b, pos, n).unwrap();
            &&& ps.len() == n
            &&& forall|i: int| 0 <= i < ps.len() ==> peer_valid(#[trigger] ps[i])
            &&& pos <= q <= b.len()
            &&& b.subrange(pos, q) == peers_bytes(ps)
        }),
    decreases n,
{
    if n == 0 {
        assert(b.subrange(pos, pos) =~= Seq::<u8>::empty());
    } else {
        lemma_peers_sound(b, pos, (n - 1) as nat);
        let (xs, p) = read_peers(b, pos, (n - 1) as nat).unwrap();
        lemma_peer_sound(b, p);
        let (x, q) = read_peer(b, p).unwrap();
        let ps = xs.push(x);
        assert(ps.drop_last() =~= xs);
        assert(b.subrange(pos, q) =~= b.subrange(pos, p) + b.subrange(p, q));
    }
}

proof fn lemma_peers_none_grows(b: Seq<u8>, pos: int, k: nat, m: nat)
    requires
        k <= m,
        read_peers(b, pos, k) is None,
    ensures
        read_peers(b, pos, m) is None,
    decreases m - k,
{
    if k < m {
        lemma_peers_none_grows(b, pos, k, (m - 1) as nat);
    }
}

proof fn lemma_ticket_bytes_round_trip(t: TicketView)
    requires
        ticket_valid(t),
    ensures
        parse_ticket(ticket_bytes(t)) == Some(t),
{
    let b = ticket_bytes(t);
    let h = be64(t.nodes.len() as u64);
    assert(holds_at(b, 0, b)) by {
        assert(b.subrange(0, b.len() as int) =~= b);
    }
    lemma_holds_split(b, 0, t.topic + h, peers_bytes(t.nodes));
    lemma_holds_split(b, 0, t.topic, h);
    lemma_be64_round_trip(b, ID_LEN as int, t.nodes.len() as u64);
    lemma_peers_round_trip(b, ID_LEN + 8, t.nodes);
}

proof fn lemma_ticket_bytes_sound(b: Seq<u8>)
    requires
        parse_ticket(b) is Some,
    ensures
        ticket_valid(parse_ticket(b).unwrap()),
        ticket_bytes(parse_ticket(b).unwrap()) == b,
{
    let (n, p) = read_u64(b, ID_LEN as int).unwrap();
    lemma_be64_sound(b, ID_LEN as int);
    lemma_peers_sound(b, p, n as nat);
    assert(b =~= b.subrange(0, ID_LEN as int) + b.subrange(ID_LEN as int, p) + b.subrange(
        p,
        b.len() as int,
    ));
}

/// The text form of a valid ticket decodes to that ticket.
pub proof fn lemma_ticket_round_trip(t: TicketView)
    requires
        ticket_valid(t),
    ensures
        parse_ticket_text(ticket_text(t)) == Some(t),
{
    let b = ticket_bytes(t);
    lemma_hex_len(b);
    lemma_ascii_chars(hex_of(b));
    decode_utf8_encode_utf8(hex_of(b));
    lemma_unhex_hex(b);
    lemma_ticket_bytes_round_trip(t);
}

/// Text that decodes is the text form of exactly the valid ticket it gives.
pub proof fn lemma_ticket_parse_exact(cs: Seq<char>)
    requires
        parse_ticket_text(cs) is Some,
    ensures
        ticket_valid(parse_ticket_text(cs).unwrap()),
        ticket_text(parse_ticket_text(cs).unwrap()) == cs,
{
    let h = encode_utf8(cs);
    let b = unhex(h).unwrap();
    lemma_hex_sound(h);
    lemma_ticket_bytes_sound(b);
    lemma_hex_len(b);
    lemma_ascii_chars(hex_of(b));
}

/// Text that is not the text form of a valid ticket is rejected, and text
/// that decodes to a valid ticket is exactly that ticket's text form.
pub proof fn lemma_ticket_malformed(cs: Seq<char>, t: TicketView)
    requires
        ticket_valid(t),
    ensures
        parse_ticket_text(cs) is None ==> ticket_text(t) != cs,
        parse_ticket_text(cs) == Some(t) <==> ticket_text(t) == cs,
{
    lemma_ticket_round_trip(t);
    if parse_ticket_text(cs) is Some {
        lemma_ticket_parse_exact(cs);
    }
}


fn put_strs(out: &mut Vec<u8>, ss: &Vec<String>)
    ensures
        final(out)@ == old(out)@ + strs_bytes(strings_view(ss@)),
        forall|i: int| 0 <= i < ss@.len() ==> str_fits(#[trigger] strings_view(ss@)[i]),
{
    let ghost start = out@;
    let mut i: usize = 0;
    while i < ss.len()
        invariant
            i <= ss@.len(),
            out@ == start + strs_bytes(strings_view(ss@.subrange(0, i as int))),
            forall|j: int| 0 <= j < i ==> str_fits(#[trigger] strings_view(ss@)[j]),
        decreases ss@.len() - i,
    {
        put_str(out, ss[i].as_str());
        i = i + 1;
        assert(strings_view(ss@.subrange(0, i as int)).drop_last() =~= strings_view(
            ss@.subrange(0, i - 1),
        ));
    }
    assert(ss@.subrange(0, i as int) =~= ss@);
}

fn get_strs(b: &[u8], pos: usize, n: u64) -> (r: Option<(Vec<String>, usize)>)
    ensures
        r is Some <==> read_strs(b@, pos as int, n as nat) is Some,
        r is Some ==> read_strs(b@, pos as int, n as nat) == Some(
            (strings_view(r.unwrap().0@), r.unwrap().1 as int),
        ),
{
    let mut acc: Vec<String> = Vec::new();
    let mut cur = pos;
    let mut i: u64 = 0;
    while i < n
        invariant
            i <= n,
            read_strs(b@, pos as int, i as nat) == Some((strings_view(acc@), cur as int)),
        decreases n - i,
    {
        match get_str(b, cur) {
            Some((s, p)) => {
                proof {
                    assert(strings_view(acc@.push(s)) =~= strings_view(acc@).push(s@));
                }
                acc.push(s);
                cur = p;
                i = i + 1;
            },
            None => {
                proof {
                    lemma_strs_none_grows(b@, pos as int, (i + 1) as nat, n as nat);
                }
                return None;
            },
        }
    }
    Some((acc, cur))
}

fn put_peer(out: &mut Vec<u8>, p: &PeerAddr)
    ensures
        final(out)@ == old(out)@ + peer_bytes(p@),
        peer_valid(p@),
{
    put_bytes(out, p.id.as_bytes());
    let n: usize = p.hints.len();
    assert(n as int <= u64::MAX as int);
    put_u64(out, n as u64);
    put_strs(out, &p.hints);
    assert(out@ =~= old(out)@ + peer_bytes(p@));
}

fn get_peer(b: &[u8], pos: usize) -> (r: Option<(PeerAddr, usize)>)
    ensures
        r is Some <==> read_peer(b@, pos as int) is Some,
        r is Some ==> read_peer(b@, pos as int) == Some((r.unwrap().0@, r.unwrap().1 as int)),
{
    if pos > b.len() || b.len() - pos < ID_LEN {
        return None;
    }
    let id = PeerId::read_at(b, pos);
    let (n, p) = match get_u64(b, pos + ID_LEN) {
        Some(x) => x,
        None => return None,
    };
    let (hints, q) = match get_strs(b, p, n) {
        Some(x) => x,
        None => return None,
    };
    Some((PeerAddr { id, hints }, q))
}

fn get_peers(b: &[u8], pos: usize, n: u64) -> (r: Option<(Vec<PeerAddr>, usize)>)
    ensures
        r is Some <==> read_peers(b@, pos as int, n as nat) is Some,
        r is Some ==> read_peers(b@, pos as int, n as nat) == Some(
            (peers_view(r.unwrap().0@), r.unwrap().1 as int),
        ),
{
    let mut acc: Vec<PeerAddr> = Vec::new();
    let mut cur = pos;
    let mut i: u64 = 0;
    while i < n
        invariant
            i <= n,
            read_peers(b@, pos as int, i as nat) == Some((peers_view(acc@), cur as int)),
        decreases n - i,
    {
        match get_peer(b, cur) {
            Some((x, p)) => {
                proof {
                    assert(peers_view(acc@.push(x)) =~= peers_view(acc@).push(x@));
                }
                acc.push(x);
                cur = p;
                i = i + 1;
            },
            None => {
                proof {
                    lemma_peers_none_grows(b@, pos as int, (i + 1) as nat, n as nat);
                }
                return None;
            },
        }
    }
    Some((acc, cur))
}

impl PeerAddr {
    /// A copy of the peer.
    pub fn copied(&self) -> (r: PeerAddr)
        ensures
            r@ == self@,
    {
        let mut hints: Vec<String> = Vec::new();
        let mut i: usize = 0;
        while i < self.hints.len()
            invariant
                i <= self.hints@.len(),
                hints@.len() == i,
                forall|j: int| 0 <= j < i ==> #[trigger] hints@[j]@ == self.hints@[j]@,
            decreases self.hints@.len() - i,
        {
            let h = self.hints[i].clone();
            assert(h@ == self.hints@[i as int]@);
            hints.push(h);
            i = i + 1;
        }
        assert(strings_view(hints@) =~= strings_view(self.hints@));
        PeerAddr { id: self.id.copied(), hints }
    }
}

impl Ticket {
    /// The ticket a peer hands out for a room: the topic and the peer itself,
    /// listed first and alone.
    pub fn for_self(topic: TopicId, me: PeerAddr) -> (r: Ticket)
        ensures
            r@.topic == topic@,
            r@.nodes == seq![me@],
    {
        let mut nodes: Vec<PeerAddr> = Vec::new();
        nodes.push(me);
        let r = Ticket { topic, nodes };
        assert(r@.nodes =~= seq![r.nodes@[0]@]);
        r
    }

    /// The bytes of the ticket.
    pub fn to_bytes(&self) -> (r: Vec<u8>)
        ensures
            r@ == ticket_bytes(self@),
            ticket_valid(self@),
    {
        let mut out: Vec<u8> = Vec::new();
        put_bytes(&mut out, self.topic.as_bytes());
        let n: usize = self.nodes.len();
        assert(n as int <= u64::MAX as int);
        put_u64(&mut out, n as u64);
        let ghost start = out@;
        let mut i: usize = 0;
        while i < self.nodes.len()
            invariant
                i <= self.nodes@.len(),
                out@ == start + peers_bytes(peers_view(self.nodes@.subrange(0, i as int))),
                forall|j: int| 0 <= j < i ==> peer_valid(#[trigger] peers_view(self.nodes@)[j]),
            decreases self.nodes@.len() - i,
        {
            put_peer(&mut out, &self.nodes[i]);
            i = i + 1;
            assert(peers_view(self.nodes@.subrange(0, i as int)).drop_last() =~= peers_view(
                self.nodes@.subrange(0, i - 1),
            ));
        }
        assert(self.nodes@.subrange(0, i as int) =~= self.nodes@);
        assert(out@ =~= ticket_bytes(self@));
        out
    }

    /// The ticket that the bytes `b` encode; anything else is an error.
    pub fn from_bytes(b: &[u8]) -> (r: Result<Ticket, DecodeError>)
        ensures
            r is Ok <==> parse_ticket(b@) is Some,
            r is Ok ==> parse_ticket(b@) == Some(r->Ok_0@),
            r is Err ==> r == Err::<Ticket, DecodeError>(DecodeError::Malformed),
    {
        if b.len() < ID_LEN {
            return Err(DecodeError::Malformed);
        }
        let (n, p) = match get_u64(b, ID_LEN) {
            Some(x) => x,
            None => return Err(DecodeError::Malformed),
        };
        let (nodes, q) = match get_peers(b, p, n) {
            Some(x) => x,
            None => return Err(DecodeError::Malformed),
        };
        if q != b.len() {
            return Err(DecodeError::Malformed);
        }
        Ok(Ticket { topic: TopicId::read_at(b, 0), nodes })
    }

    /// The text form of the ticket, to be shared with other peers.
    pub fn encode(&self) -> (r: String)
        ensures
            r@ == ticket_text(self@),
            ticket_valid(self@),
    {
        let b = self.to_bytes();
        hex_string(&b)
    }

    /// The ticket that the text `s` renders; anything else is an error.
    pub fn decode(s: &str) -> (r: Result<Ticket, DecodeError>)
        ensures
            r is Ok <==> parse_ticket_text(s@) is Some,
            r is Ok ==> parse_ticket_text(s@) == Some(r->Ok_0@),
            r is Ok ==> ticket_text(r->Ok_0@) == s@,
            r is Err ==> r == Err::<Ticket, DecodeError>(DecodeError::Malformed),
    {
        proof {
            if parse_ticket_text(s@) is Some {
                lemma_ticket_parse_exact(s@);
            }
        }
        match unhex_bytes(s.as_bytes()) {
            Some(b) => Ticket::from_bytes(b.as_slice()),
            None => Err(DecodeError::Malformed),
        }
    }

    /// The identities of the listed peers, in order.
    pub fn node_ids(&self) -> (r: Vec<PeerId>)
        ensures
            r@.len() == self.nodes@.len(),
            forall|i: int| 0 <= i < r@.len() ==> #[trigger] r@[i]@ == self.nodes@[i].id@,
    {
        let mut r: Vec<PeerId> = Vec::new();
        let mut i: usize = 0;
        while i < self.nodes.len()
            invariant
                i <= self.nodes@.len(),
                r@.len() == i,
                forall|j: int| 0 <= j < i ==> #[trigger] r@[j]@ == self.nodes@[j].id@,
            decreases self.nodes@.len() - i,
        {
            r.push(self.nodes[i].id.copied());
            i = i + 1;
        }
        r
    }

    /// The short rendering of the first listed peer, shown to a user; it is
    /// not a ticket and cannot be decoded.
    pub fn simplify(&self) -> (r: Option<String>)
        ensures
            r is Some <==> self.nodes@.len() > 0,
            r is Some ==> r.unwrap()@ == crate::ident::short_id(self.nodes@[0].id@),
    {
        if self.nodes.len() == 0 {
            None
        } else {
            Some(self.nodes[0].id.fmt_short())
        }
    }
}

} // verus!
