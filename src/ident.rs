//! Fixed-size identifiers: the identity of a peer and the topic naming a room,
//! with their lowercase hexadecimal renderings.
use vstd::prelude::*;
use vstd::utf8::*;
use crate::wire::{copy_range, string_from_utf8};

verus! {

/// Length in bytes of a peer identity and of a topic.
pub const ID_LEN: usize = 32;

/// Number of leading identity bytes shown in the short rendering.
pub const SHORT_LEN: usize = 5;

/// The identity of a peer: 32 bytes.
#[derive(Debug, PartialEq, Eq, Hash)]
pub struct PeerId {
    bytes: Vec<u8>,
}

/// The topic naming a chat room: 32 bytes.
#[derive(Debug, PartialEq, Eq, Hash)]
pub struct TopicId {
    bytes: Vec<u8>,
}

impl View for PeerId {
    type V = Seq<u8>;

    closed spec fn view(&self) -> Seq<u8> {
        self.bytes@
    }
}

impl View for TopicId {
    type V = Seq<u8>;

    closed spec fn view(&self) -> Seq<u8> {
        self.bytes@
    }
}

impl PeerId {
    #[verifier::type_invariant]
    spec fn inv(&self) -> bool {
        self.bytes@.len() == ID_LEN
    }


    /// The identity made of `bytes`, if there are exactly 32 of them.
    pub fn from_bytes(bytes: Vec<u8>) -> (r: Option<PeerId>)
        ensures
            r is Some <==> bytes@.len() == ID_LEN,
            r is Some ==> r.unwrap()@ == bytes@,
    {
        if bytes.len() == ID_LEN {
            Some(PeerId { bytes })
        } else {
            None
        }
    }

    /// The 32 bytes of the identity.
    pub fn as_bytes(&self) -> (r: &[u8])
        ensures
            r@ == self@,
            r@.len() == ID_LEN,
    {
        proof {
            use_type_invariant(self);
        }
        self.bytes.as_slice()
    }

    /// A copy of the identity.
    pub fn copied(&self) -> (r: PeerId)
        ensures
            r@ == self@,
    {
        PeerId::read_at(self.as_bytes(), 0)
    }

    /// Whether two identities are the same.
    pub fn same(&self, other: &PeerId) -> (r: bool)
        ensures
            r == (self@ == other@),
    {
        bytes_equal(self.as_bytes(), other.as_bytes())
    }

    /// The identity of the 32 bytes that start at `pos`.
    pub fn read_at(b: &[u8], pos: usize) -> (r: PeerId)
        requires
            pos + ID_LEN <= b@.len(),
        ensures
            r@ == b@.subrange(pos as int, pos + ID_LEN),
    {
        PeerId { bytes: copy_range(b, pos, ID_LEN) }
    }

    /// The short rendering shown for a peer without a nickname: its first five
    /// bytes in lowercase hexadecimal.
    pub fn fmt_short(&self) -> (r: String)
        ensures
            r@ == short_id(self@),
            r@.len() == 2 * SHORT_LEN,
    {
        proof {
            use_type_invariant(self);
        }
        let head = copy_range(self.as_bytes(), 0, SHORT_LEN);
        let r = hex_string(&head);
        proof {
            lemma_hex_len(head@);
            lemma_ascii_chars(hex_of(head@));
        }
        r
    }
}

impl TopicId {
    #[verifier::type_invariant]
    spec fn inv(&self) -> bool {
        self.bytes@.len() == ID_LEN
    }


    /// The topic made of `bytes`, if there are exactly 32 of them.
    pub fn from_bytes(bytes: Vec<u8>) -> (r: Option<TopicId>)
        ensures
            r is Some <==> bytes@.len() == ID_LEN,
            r is Some ==> r.unwrap()@ == bytes@,
    {
        if bytes.len() == ID_LEN {
            Some(TopicId { bytes })
        } else {
            None
        }
    }

    /// The 32 bytes of the topic.
    pub fn as_bytes(&self) -> (r: &[u8])
        ensures
            r@ == self@,
            r@.len() == ID_LEN,
    {
        proof {
            use_type_invariant(self);
        }
        self.bytes.as_slice()
    }

    /// A copy of the topic.
    pub fn copied(&self) -> (r: TopicId)
        ensures
            r@ == self@,
    {
        TopicId::read_at(self.as_bytes(), 0)
    }

    /// The topic of the 32 bytes that start at `pos`.
    pub fn read_at(b: &[u8], pos: usize) -> (r: TopicId)
        requires
            pos + ID_LEN <= b@.len(),
        ensures
            r@ == b@.subrange(pos as int, pos + ID_LEN),
    {
        TopicId { bytes: copy_range(b, pos, ID_LEN) }
    }
}

/// Whether two byte slices are equal, compared byte by byte.
pub fn bytes_equal(a: &[u8], b: &[u8]) -> (r: bool)
    ensures
        r == (a@ == b@),
{
    if a.len() != b.len() {
        return false;
    }
    let mut i: usize = 0;
    while i < a.len()
        invariant
            a@.len() == b@.len(),
            i <= a@.len(),
            forall|j: int| 0 <= j < i ==> a@[j] == b@[j],
        decreases a@.len() - i,
    {
        if a[i] != b[i] {
            return false;
        }
        i = i + 1;
    }
    assert(a@ =~= b@);
    true
}

/// The ASCII code of the lowercase hexadecimal digit for `n` (below 16).
pub open spec fn hex_digit(n: u8) -> u8 {
    if n < 10 {
        (48 + n) as u8
    } else {
        (87 + n) as u8
    }
}

/// Two lowercase hexadecimal digits per byte, most significant digit first.
pub open spec fn hex_of(b: Seq<u8>) -> Seq<u8>
    decreases b.len(),
{
    if b.len() == 0 {
        seq![]
    } else {
        hex_of(b.drop_last()) + seq![hex_digit(b.last() / 16), hex_digit(b.last() % 16)]
    }
}

/// The value of one lowercase hexadecimal digit.
pub open spec fn hex_value(c: u8) -> Option<u8> {
    if 48 <= c <= 57 {
        Some((c - 48) as u8)
    } else if 97 <= c <= 102 {
        Some((c - 87) as u8)
    } else {
        None
    }
}

/// The bytes whose lowercase hexadecimal rendering is `h`, if there are any.
pub open spec fn unhex(h: Seq<u8>) -> Option<Seq<u8>>
    decreases h.len(),
{
    if h.len() == 0 {
        Some(seq![])
    } else if h.len() < 2 {
        None
    } else {
        match (unhex(h.subrange(0, h.len() - 2)), hex_value(h[h.len() - 2]), hex_value(
            h[h.len() - 1],
        )) {
            (Some(init), Some(hi), Some(lo)) => Some(init.push((hi * 16 + lo) as u8)),
            _ => None,
        }
    }
}

/// The characters of the ASCII bytes `b`.
pub open spec fn ascii_chars(b: Seq<u8>) -> Seq<char> {
    b.map_values(|x: u8| x as char)
}

/// The short rendering of a peer identity.
pub open spec fn short_id(id: Seq<u8>) -> Seq<char> {
    ascii_chars(hex_of(id.subrange(0, SHORT_LEN as int)))
}

pub proof fn lemma_hex_len(b: Seq<u8>)
    ensures
        hex_of(b).len() == 2 * b.len(),
        forall|i: int| 0 <= i < hex_of(b).len() ==> #[trigger] hex_of(b)[i] < 128,
    decreases b.len(),
{
    if b.len() > 0 {
        lemma_hex_len(b.drop_last());
    }
}

pub proof fn lemma_unhex_hex(b: Seq<u8>)
    ensures
        unhex(hex_of(b)) == Some(b),
    decreases b.len(),
{
    if b.len() > 0 {
        let h = hex_of(b);
        lemma_hex_len(b);
        lemma_unhex_hex(b.drop_last());
        assert(h.subrange(0, h.len() - 2) =~= hex_of(b.drop_last()));
        let x = b.last();
        assert(((x / 16) * 16 + x % 16) as u8 == x);
        assert(b.drop_last().push(x) =~= b);
    }
}

pub proof fn lemma_hex_sound(h: Seq<u8>)
    requires
        unhex(h) is Some,
    ensures
        hex_of(unhex(h).unwrap()) == h,
    decreases h.len(),
{
    if h.len() > 0 {
        let init = h.subrange(0, h.len() - 2);
        lemma_hex_sound(init);
        let x = unhex(h).unwrap();
        let hi = hex_value(h[h.len() - 2]).unwrap();
        let lo = hex_value(h[h.len() - 1]).unwrap();
        assert(x.drop_last() =~= unhex(init).unwrap());
        assert(x.last() / 16 == hi && x.last() % 16 == lo);
        assert(hex_digit(hi) == h[h.len() - 2]);
        assert(hex_digit(lo) == h[h.len() - 1]);
        assert(hex_of(x) =~= h);
    }
}

/// ASCII bytes are well-formed UTF-8, and decode to the same code points.
pub proof fn lemma_ascii_chars(b: Seq<u8>)
    requires
        forall|i: int| 0 <= i < b.len() ==> #[trigger] b[i] < 128,
    ensures
        valid_utf8(b),
        decode_utf8(b) == ascii_chars(b),
    decreases b.len(),
{
    if b.len() > 0 {
        let rest = b.subrange(1, b.len() as int);
        lemma_ascii_chars(rest);
        assert(pop_first_scalar(b) =~= rest);
        let x = b[0];
        assert(x & 0x7f == x) by (bit_vector)
            requires
                x < 128,
        ;
        assert(decode_first_scalar(b) == b[0] as u32);
        assert((b[0] as u32) as char == b[0] as char);
        assert(decode_utf8(b) =~= ascii_chars(b));
    } else {
        assert(decode_utf8(b) =~= ascii_chars(b));
    }
}

/// Lowercase hexadecimal digits of `b`, two per byte.
pub fn hex_bytes(b: &[u8]) -> (r: Vec<u8>)
    ensures
        r@ == hex_of(b@),
{
    let mut r: Vec<u8> = Vec::new();
    let mut i: usize = 0;
    while i < b.len()
        invariant
            i <= b@.len(),
            r@ == hex_of(b@.subrange(0, i as int)),
        decreases b@.len() - i,
    {
        let x = b[i];
        let hi = x / 16;
        let lo = x % 16;
        r.push(if hi < 10 { 48 + hi } else { 87 + hi });
        r.push(if lo < 10 { 48 + lo } else { 87 + lo });
        i = i + 1;
        assert(b@.subrange(0, i as int).drop_last() =~= b@.subrange(0, i - 1));
    }
    assert(b@.subrange(0, i as int) =~= b@);
    r
}

/// The lowercase hexadecimal rendering of `b` as a string.
pub fn hex_string(b: &Vec<u8>) -> (r: String)
    ensures
        r@ == ascii_chars(hex_of(b@)),
        encode_utf8(r@) == hex_of(b@),
{
    let h = hex_bytes(b.as_slice());
    proof {
        lemma_hex_len(b@);
        lemma_ascii_chars(h@);
    }
    match string_from_utf8(h) {
        Some(s) => {
            proof {
                encode_utf8_decode_utf8(s@);
            }
            s
        },
        None => {
            proof {
                assert(false);
            }
            String::new()
        },
    }
}

/// The bytes whose lowercase hexadecimal digits are `h`, if `h` is such a rendering.
pub fn unhex_bytes(h: &[u8]) -> (r: Option<Vec<u8>>)
    ensures
        r is Some <==> unhex(h@) is Some,
        r is Some ==> unhex(h@) == Some(r.unwrap()@),
{
    if h.len() % 2 != 0 {
        proof {
            lemma_unhex_odd(h@);
        }
        return None;
    }
    let mut r: Vec<u8> = Vec::new();
    let mut i: usize = 0;
    while i < h.len()
        invariant
            i <= h@.len(),
            i % 2 == 0,
            h@.len() % 2 == 0,
            unhex(h@.subrange(0, i as int)) == Some(r@),
        decreases h@.len() - i,
    {
        let a = h[i];
        let c = h[i + 1];
        let hi: u8 = if 48 <= a && a <= 57 {
            a - 48
        } else if 97 <= a && a <= 102 {
            a - 87
        } else {
            proof {
                lemma_unhex_prefix(h@, i as int + 2);
                assert(h@.subrange(0, i + 2)[i as int] == a);
            }
            return None;
        };
        let lo: u8 = if 48 <= c && c <= 57 {
            c - 48
        } else if 97 <= c && c <= 102 {
            c - 87
        } else {
            proof {
                lemma_unhex_prefix(h@, i as int + 2);
                assert(h@.subrange(0, i + 2)[i + 1] == c);
            }
            return None;
        };
        r.push(hi * 16 + lo);
        proof {
            let s = h@.subrange(0, i + 2);
            assert(s.subrange(0, s.len() - 2) =~= h@.subrange(0, i as int));
            assert(s[s.len() - 2] == a);
            assert(s[s.len() - 1] == c);
        }
        i = i + 2;
    }
    assert(h@.subrange(0, i as int) =~= h@);
    Some(r)
}

proof fn lemma_unhex_odd(h: Seq<u8>)
    requires
        h.len() % 2 == 1,
    ensures
        unhex(h) is None,
    decreases h.len(),
{
    if h.len() >= 2 {
        lemma_unhex_odd(h.subrange(0, h.len() - 2));
    }
}

/// Once an even prefix has no rendering, no longer prefix has one either.
proof fn lemma_unhex_prefix(h: Seq<u8>, k: int)
    requires
        0 <= k <= h.len(),
        k % 2 == 0,
        unhex(h.subrange(0, k)) is None,
    ensures
        unhex(h) is None,
    decreases h.len() - k,
{
    if k == h.len() {
        assert(h.subrange(0, k) =~= h);
    } else if k + 1 == h.len() {
        lemma_unhex_odd(h);
    } else {
        let s = h.subrange(0, k + 2);
        assert(s.subrange(0, s.len() - 2) =~= h.subrange(0, k));
        lemma_unhex_prefix(h, k + 2);
    }
}

} // verus!
