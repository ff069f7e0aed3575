//! Byte-level framing shared by the ticket and message codecs: big-endian
//! 64-bit integers and length-prefixed UTF-8 strings.
use vstd::prelude::*;
use vstd::utf8::*;

verus! {

broadcast use encode_utf8_decode_utf8, encode_utf8_valid_utf8;

/// The eight bytes of `n`, most significant first.
pub open spec fn be64(n: u64) -> Seq<u8> {
    seq![
        (n >> 56u64) as u8,
        (n >> 48u64) as u8,
        (n >> 40u64) as u8,
        (n >> 32u64) as u8,
        (n >> 24u64) as u8,
        (n >> 16u64) as u8,
        (n >> 8u64) as u8,
        n as u8,
    ]
}

/// The integer whose big-endian bytes start at `pos`.
pub open spec fn be64_at(b: Seq<u8>, pos: int) -> u64 {
    ((b[pos] as u64) << 56u64) | ((b[pos + 1] as u64) << 48u64) | ((b[pos + 2] as u64) << 40u64)
        | ((b[pos + 3] as u64) << 32u64) | ((b[pos + 4] as u64) << 24u64) | ((b[pos + 5] as u64)
        << 16u64) | ((b[pos + 6] as u64) << 8u64) | (b[pos + 7] as u64)
}

/// Reads an integer at `pos`; the second component is the position after it.
pub open spec fn read_u64(b: Seq<u8>, pos: int) -> Option<(u64, int)> {
    if 0 <= pos && pos + 8 <= b.len() {
        Some((be64_at(b, pos), pos + 8))
    } else {
        None
    }
}

/// Whether `b` holds the bytes `e` at `pos`.
pub open spec fn holds_at(b: Seq<u8>, pos: int, e: Seq<u8>) -> bool {
    0 <= pos && pos + e.len() <= b.len() && b.subrange(pos, pos + e.len()) == e
}

/// Bytes held at `pos` that are a concatenation are held piece by piece.
pub proof fn lemma_holds_split(b: Seq<u8>, pos: int, e1: Seq<u8>, e2: Seq<u8>)
    requires
        holds_at(b, pos, e1 + e2),
    ensures
        holds_at(b, pos, e1),
        holds_at(b, pos + e1.len(), e2),
{
    let e = e1 + e2;
    assert forall|i: int| 0 <= i < e.len() implies b[pos + i] == e[i] by {
        assert(b.subrange(pos, pos + e.len())[i] == e[i]);
    }
    assert(b.subrange(pos, pos + e1.len()) =~= e1);
    assert forall|i: int| 0 <= i < e2.len() implies b[pos + e1.len() + i] == e2[i] by {
        assert(b[pos + (e1.len() + i)] == e[e1.len() + i]);
    }
    assert(b.subrange(pos + e1.len(), pos + e1.len() + e2.len()) =~= e2);
}

pub proof fn lemma_be64_round_trip(b: Seq<u8>, pos: int, n: u64)
    requires
        holds_at(b, pos, be64(n)),
    ensures
        read_u64(b, pos) == Some((n, pos + 8)),
{
    let e = be64(n);
    assert(b.subrange(pos, pos + 8)[0] == b[pos]);
    assert forall|i: int| 0 <= i < 8 implies b[pos + i] == e[i] by {
        assert(b.subrange(pos, pos + 8)[i] == b[pos + i]);
    }
    let (b0, b1, b2, b3) = (b[pos], b[pos + 1], b[pos + 2], b[pos + 3]);
    let (b4, b5, b6, b7) = (b[pos + 4], b[pos + 5], b[pos + 6], b[pos + 7]);
    assert(b0 == (n >> 56u64) as u8);
    assert(b7 == n as u8);
    assert(((b0 as u64) << 56u64) | ((b1 as u64) << 48u64) | ((b2 as u64) << 40u64) | ((b3 as u64)
        << 32u64) | ((b4 as u64) << 24u64) | ((b5 as u64) << 16u64) | ((b6 as u64) << 8u64) | (b7 as u64)
        == n) by (bit_vector)
        requires
            b0 == (n >> 56u64) as u8,
            b1 == (n >> 48u64) as u8,
            b2 == (n >> 40u64) as u8,
            b3 == (n >> 32u64) as u8,
            b4 == (n >> 24u64) as u8,
            b5 == (n >> 16u64) as u8,
            b6 == (n >> 8u64) as u8,
            b7 == n as u8,
    ;
}

/// Appends the big-endian bytes of `n`.
pub fn put_u64(out: &mut Vec<u8>, n: u64)
    ensures
        final(out)@ == old(out)@ + be64(n),
{
    out.push((n >> 56u64) as u8);
    out.push((n >> 48u64) as u8);
    out.push((n >> 40u64) as u8);
    out.push((n >> 32u64) as u8);
    out.push((n >> 24u64) as u8);
    out.push((n >> 16u64) as u8);
    out.push((n >> 8u64) as u8);
    out.push(n as u8);
    assert(out@ =~= old(out)@ + be64(n));
}

/// Reads the integer at `pos`, if eight bytes are left there.
pub fn get_u64(b: &[u8], pos: usize) -> (r: Option<(u64, usize)>)
    ensures
        r is Some <==> read_u64(b@, pos as int) is Some,
        r is Some ==> read_u64(b@, pos as int) == Some((r.unwrap().0, r.unwrap().1 as int)),
{
    if pos > b.len() || b.len() - pos < 8 {
        return None;
    }
    let v: u64 = ((b[pos] as u64) << 56u64) | ((b[pos + 1] as u64) << 48u64) | ((b[pos + 2] as u64)
        << 40u64) | ((b[pos + 3] as u64) << 32u64) | ((b[pos + 4] as u64) << 24u64) | ((b[pos
        + 5] as u64) << 16u64) | ((b[pos + 6] as u64) << 8u64) | (b[pos + 7] as u64);
    Some((v, pos + 8))
}

/// Appends every byte of `src`.
pub fn put_bytes(out: &mut Vec<u8>, src: &[u8])
    ensures
        final(out)@ == old(out)@ + src@,
{
    let ghost start = out@;
    let mut i: usize = 0;
    while i < src.len()
        invariant
            i <= src@.len(),
            out@ == start + src@.subrange(0, i as int),
        decreases src@.len() - i,
    {
        out.push(src[i]);
        i = i + 1;
        assert(src@.subrange(0, i as int) =~= src@.subrange(0, i - 1) + seq![src@[i - 1]]);
    }
    assert(src@.subrange(0, i as int) =~= src@);
}

/// Copies the `len` bytes that start at `pos`.
pub fn copy_range(b: &[u8], pos: usize, len: usize) -> (r: Vec<u8>)
    requires
        pos + len <= b@.len(),
    ensures
        r@ == b@.subrange(pos as int, pos + len),
{
    let total: usize = b.len();
    let mut r: Vec<u8> = Vec::new();
    let mut i: usize = 0;
    while i < len
        invariant
            i <= len,
            total == b@.len(),
            pos + len <= b@.len(),
            r@ == b@.subrange(pos as int, pos + i),
        decreases len - i,
    {
        r.push(b[pos + i]);
        i = i + 1;
        assert(r@ =~= b@.subrange(pos as int, pos + i));
    }
    r
}

/// Relies on `String::from_utf8`: it succeeds exactly on well-formed UTF-8,
/// and the string it returns is made of those bytes.
#[verifier::external_body]
pub(crate) fn string_from_utf8(v: Vec<u8>) -> (r: Option<String>)
    ensures
        r is Some <==> valid_utf8(v@),
        r is Some ==> encode_utf8(r.unwrap()@) == v@,
{
    String::from_utf8(v).ok()
}

/// A string as it stands on the wire: its UTF-8 length, then its UTF-8 bytes.
pub open spec fn str_bytes(s: Seq<char>) -> Seq<u8> {
    be64(encode_utf8(s).len() as u64) + encode_utf8(s)
}

/// Whether a string can be framed: its UTF-8 length fits in the length prefix.
pub open spec fn str_fits(s: Seq<char>) -> bool {
    encode_utf8(s).len() <= u64::MAX
}

/// Reads a framed string at `pos`.
pub open spec fn read_str(b: Seq<u8>, pos: int) -> Option<(Seq<char>, int)> {
    match read_u64(b, pos) {
        Some((n, p)) => if p + n <= b.len() && valid_utf8(b.subrange(p, p + n)) {
            Some((decode_utf8(b.subrange(p, p + n)), p + n))
        } else {
            None
        },
        None => None,
    }
}

pub proof fn lemma_str_round_trip(b: Seq<u8>, pos: int, s: Seq<char>)
    requires
        str_fits(s),
        holds_at(b, pos, str_bytes(s)),
    ensures
        read_str(b, pos) == Some((s, pos + str_bytes(s).len())),
{
    let e = encode_utf8(s);
    let all = str_bytes(s);
    assert(b.subrange(pos, pos + 8) =~= all.subrange(0, 8));
    assert(all.subrange(0, 8) =~= be64(e.len() as u64));
    lemma_be64_round_trip(b, pos, e.len() as u64);
    assert forall|i: int| 0 <= i < e.len() implies b[pos + 8 + i] == e[i] by {
        assert(b.subrange(pos, pos + all.len())[8 + i] == all[8 + i]);
    }
    assert(b.subrange(pos + 8, pos + 8 + e.len()) =~= e);
}

pub proof fn lemma_be64_sound(b: Seq<u8>, pos: int)
    requires
        read_u64(b, pos) is Some,
    ensures
        b.subrange(pos, pos + 8) == be64(be64_at(b, pos)),
{
    let n = be64_at(b, pos);
    let (b0, b1, b2, b3) = (b[pos], b[pos + 1], b[pos + 2], b[pos + 3]);
    let (b4, b5, b6, b7) = (b[pos + 4], b[pos + 5], b[pos + 6], b[pos + 7]);
    assert(n == ((b0 as u64) << 56u64) | ((b1 as u64) << 48u64) | ((b2 as u64) << 40u64) | ((b3
        as u64) << 32u64) | ((b4 as u64) << 24u64) | ((b5 as u64) << 16u64) | ((b6 as u64)
        << 8u64) | (b7 as u64));
    assert(b0 == (n >> 56u64) as u8 && b1 == (n >> 48u64) as u8 && b2 == (n >> 40u64) as u8 && b3
        == (n >> 32u64) as u8 && b4 == (n >> 24u64) as u8 && b5 == (n >> 16u64) as u8 && b6 == (n
        >> 8u64) as u8 && b7 == n as u8) by (bit_vector)
        requires
            n == ((b0 as u64) << 56u64) | ((b1 as u64) << 48u64) | ((b2 as u64) << 40u64) | ((b3
                as u64) << 32u64) | ((b4 as u64) << 24u64) | ((b5 as u64) << 16u64) | ((b6 as u64)
                << 8u64) | (b7 as u64),
    ;
    assert(b.subrange(pos, pos + 8) =~= be64(n));
}

pub proof fn lemma_str_sound(b: Seq<u8>, pos: int)
    requires
        read_str(b, pos) is Some,
    ensures
        ({
            let (s, p) = read_str(b, pos).unwrap();
            &&& str_fits(s)
            &&& pos <= p <= b.len()
            &&& p == pos + str_bytes(s).len()
            &&& b.subrange(pos, p) == str_bytes(s)
        }),
{
    let (n, p) = read_u64(b, pos).unwrap();
    let sub = b.subrange(p, p + n);
    decode_utf8_encode_utf8(sub);
    lemma_be64_sound(b, pos);
    let s = decode_utf8(sub);
    assert(encode_utf8(s).len() as u64 == n);
    assert(b.subrange(pos, p + n) =~= b.subrange(pos, pos + 8) + sub);
}

/// Appends `s` framed.
pub fn put_str(out: &mut Vec<u8>, s: &str)
    ensures
        final(out)@ == old(out)@ + str_bytes(s@),
        str_fits(s@),
{
    let bytes = s.as_bytes();
    let n: usize = bytes.len();
    assert(n as int <= u64::MAX as int);
    put_u64(out, n as u64);
    put_bytes(out, bytes);
    assert(out@ =~= old(out)@ + str_bytes(s@));
}

/// Reads the framed string at `pos`.
pub fn get_str(b: &[u8], pos: usize) -> (r: Option<(String, usize)>)
    ensures
        r is Some <==> read_str(b@, pos as int) is Some,
        r is Some ==> read_str(b@, pos as int) == Some((r.unwrap().0@, r.unwrap().1 as int)),
{
    let (n, p) = match get_u64(b, pos) {
        Some(x) => x,
        None => return None,
    };
    if n > (b.len() - p) as u64 {
        return None;
    }
    let len = n as usize;
    let v = copy_range(b, p, len);
    match string_from_utf8(v) {
        Some(s) => Some((s, p + len)),
        None => None,
    }
}

} // verus!
