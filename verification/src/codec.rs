//! The wire codec: every protocol message encodes to a self-describing
//! byte string — fixed-width little-endian integers, length-prefixed
//! collections — and decodes back. For each form there is a spec-level
//! byte image (`wire_*`), a spec-level parser (`parse_*`), an encoder
//! whose output is exactly the byte image, and a decoder whose result is
//! exactly what the parser says; parsing an encoding placed anywhere in a
//! buffer yields the encoded value back.
use vstd::prelude::*;
use vstd::bytes::{
    lemma_auto_spec_u16_to_from_le_bytes, lemma_auto_spec_u32_to_from_le_bytes,
    lemma_auto_spec_u64_to_from_le_bytes, spec_u16_from_le_bytes, spec_u16_to_le_bytes,
    spec_u32_from_le_bytes, spec_u32_to_le_bytes, spec_u64_from_le_bytes, spec_u64_to_le_bytes,
    u16_from_le_bytes, u16_to_le_bytes, u32_from_le_bytes, u32_to_le_bytes, u64_from_le_bytes,
    u64_to_le_bytes,
};
use vstd::slice::slice_subrange;
use vstd::string::StrSliceExecFns;
use vstd::utf8::{char_is_scalar, char_u32_cast, is_scalar};

use crate::protocol::{
    table_view, Beacon, Chunk, ChunkV, Endpoint, PartToPubV, ParticipantToPublisher,
    ParticipantToSubscriber, PubToSubV, PublisherRef, PublisherToSubscriber, SubTable, SubToPubV,
    SubscriberId, SubscriberRef, SubscriberRefV, SubscriberToPublisher, ToParticipant,
    ToParticipantV,
};

verus! {

/// The byte widths of the integer images, in one place.
pub proof fn wire_len_facts()
    ensures
        forall|v: u16| (#[trigger] wire_u16(v)).len() == 2,
        forall|v: u32| (#[trigger] wire_u32(v)).len() == 4,
        forall|v: u64| (#[trigger] wire_u64(v)).len() == 8,
{
    lemma_auto_spec_u16_to_from_le_bytes();
    lemma_auto_spec_u32_to_from_le_bytes();
    lemma_auto_spec_u64_to_from_le_bytes();
}

/// The bytes of `w` sit in `buf` starting at `ofs`.
pub open spec fn bytes_at(buf: Seq<u8>, ofs: int, w: Seq<u8>) -> bool {
    &&& 0 <= ofs
    &&& ofs + w.len() <= buf.len()
    &&& buf.subrange(ofs, ofs + w.len()) == w
}

/// An encoding placed right after `ofs` splits into its parts.
pub proof fn lemma_bytes_at_concat(buf: Seq<u8>, ofs: int, a: Seq<u8>, b: Seq<u8>)
    requires
        bytes_at(buf, ofs, a + b),
    ensures
        bytes_at(buf, ofs, a),
        bytes_at(buf, ofs + a.len(), b),
{
    assert(buf.subrange(ofs, ofs + a.len()) =~= a) by {
        assert forall|i: int| 0 <= i < a.len() implies buf.subrange(ofs, ofs + a.len())[i] == a[i] by {
            assert(buf.subrange(ofs, ofs + (a + b).len())[i] == (a + b)[i]);
        }
    }
    assert(buf.subrange(ofs + a.len(), ofs + a.len() + b.len()) =~= b) by {
        assert forall|i: int|
            0 <= i < b.len() implies buf.subrange(ofs + a.len(), ofs + a.len() + b.len())[i]
            == b[i] by {
            assert(buf.subrange(ofs, ofs + (a + b).len())[a.len() + i] == (a + b)[a.len() + i]);
        }
    }
}

// ---------------------------------------------------------------------
// Unsigned integers, little endian
// ---------------------------------------------------------------------
pub open spec fn wire_u8(v: u8) -> Seq<u8> {
    seq![v]
}

pub open spec fn wire_u16(v: u16) -> Seq<u8> {
    spec_u16_to_le_bytes(v)
}

pub open spec fn wire_u32(v: u32) -> Seq<u8> {
    spec_u32_to_le_bytes(v)
}

pub open spec fn wire_u64(v: u64) -> Seq<u8> {
    spec_u64_to_le_bytes(v)
}

pub open spec fn parse_u8(buf: Seq<u8>, ofs: int) -> Option<(int, u8)> {
    if 0 <= ofs && ofs + 1 <= buf.len() {
        Some((ofs + 1, buf[ofs]))
    } else {
        None
    }
}

pub open spec fn parse_u16(buf: Seq<u8>, ofs: int) -> Option<(int, u16)> {
    if 0 <= ofs && ofs + 2 <= buf.len() {
        Some((ofs + 2, spec_u16_from_le_bytes(buf.subrange(ofs, ofs + 2))))
    } else {
        None
    }
}

pub open spec fn parse_u32(buf: Seq<u8>, ofs: int) -> Option<(int, u32)> {
    if 0 <= ofs && ofs + 4 <= buf.len() {
        Some((ofs + 4, spec_u32_from_le_bytes(buf.subrange(ofs, ofs + 4))))
    } else {
        None
    }
}

pub open spec fn parse_u64(buf: Seq<u8>, ofs: int) -> Option<(int, u64)> {
    if 0 <= ofs && ofs + 8 <= buf.len() {
        Some((ofs + 8, spec_u64_from_le_bytes(buf.subrange(ofs, ofs + 8))))
    } else {
        None
    }
}

/// Parsing any placed byte gives it back; so for the wider integers.
pub proof fn lemma_parse_wire_u8(buf: Seq<u8>, ofs: int, v: u8)
    requires
        bytes_at(buf, ofs, wire_u8(v)),
    ensures
        parse_u8(buf, ofs) == Some((ofs + 1, v)),
{
    assert(buf.subrange(ofs, ofs + 1)[0] == v);
}

/// Parsing any placed `u16` encoding gives the value back; so for the
/// other widths.
pub proof fn lemma_parse_wire_u16(buf: Seq<u8>, ofs: int, v: u16)
    requires
        bytes_at(buf, ofs, wire_u16(v)),
    ensures
        parse_u16(buf, ofs) == Some((ofs + 2, v)),
{
    lemma_auto_spec_u16_to_from_le_bytes();
}

pub proof fn lemma_parse_wire_u32(buf: Seq<u8>, ofs: int, v: u32)
    requires
        bytes_at(buf, ofs, wire_u32(v)),
    ensures
        parse_u32(buf, ofs) == Some((ofs + 4, v)),
{
    lemma_auto_spec_u32_to_from_le_bytes();
}

pub proof fn lemma_parse_wire_u64(buf: Seq<u8>, ofs: int, v: u64)
    requires
        bytes_at(buf, ofs, wire_u64(v)),
    ensures
        parse_u64(buf, ofs) == Some((ofs + 8, v)),
{
    lemma_auto_spec_u64_to_from_le_bytes();
}

pub fn encode_u8(v: u8, out: &mut Vec<u8>)
    ensures
        final(out)@ == old(out)@ + wire_u8(v),
{
    out.push(v);
    proof {
        assert(out@ =~= old(out)@ + wire_u8(v));
    }
}

pub fn encode_u16(v: u16, out: &mut Vec<u8>)
    ensures
        final(out)@ == old(out)@ + wire_u16(v),
{
    let mut b = u16_to_le_bytes(v);
    out.append(&mut b);
}

pub fn encode_u32(v: u32, out: &mut Vec<u8>)
    ensures
        final(out)@ == old(out)@ + wire_u32(v),
{
    let mut b = u32_to_le_bytes(v);
    out.append(&mut b);
}

pub fn encode_u64(v: u64, out: &mut Vec<u8>)
    ensures
        final(out)@ == old(out)@ + wire_u64(v),
{
    let mut b = u64_to_le_bytes(v);
    out.append(&mut b);
}

pub fn decode_u8(buf: &Vec<u8>, ofs: usize) -> (r: Option<(usize, u8)>)
    ensures
        match r {
            Some((end, v)) => parse_u8(buf@, ofs as int) == Some((end as int, v)) && end
                <= buf@.len(),
            None => parse_u8(buf@, ofs as int) is None,
        },
{
    if ofs < buf.len() {
        Some((ofs + 1, buf[ofs]))
    } else {
        None
    }
}

pub fn decode_u16(buf: &Vec<u8>, ofs: usize) -> (r: Option<(usize, u16)>)
    ensures
        match r {
            Some((end, v)) => parse_u16(buf@, ofs as int) == Some((end as int, v)) && end
                <= buf@.len(),
            None => parse_u16(buf@, ofs as int) is None,
        },
{
    if ofs <= buf.len() && buf.len() - ofs >= 2 {
        let s = slice_subrange(buf.as_slice(), ofs, ofs + 2);
        let v = u16_from_le_bytes(s);
        Some((ofs + 2, v))
    } else {
        None
    }
}

pub fn decode_u32(buf: &Vec<u8>, ofs: usize) -> (r: Option<(usize, u32)>)
    ensures
        match r {
            Some((end, v)) => parse_u32(buf@, ofs as int) == Some((end as int, v)) && end
                <= buf@.len(),
            None => parse_u32(buf@, ofs as int) is None,
        },
{
    if ofs <= buf.len() && buf.len() - ofs >= 4 {
        let s = slice_subrange(buf.as_slice(), ofs, ofs + 4);
        let v = u32_from_le_bytes(s);
        Some((ofs + 4, v))
    } else {
        None
    }
}

pub fn decode_u64(buf: &Vec<u8>, ofs: usize) -> (r: Option<(usize, u64)>)
    ensures
        match r {
            Some((end, v)) => parse_u64(buf@, ofs as int) == Some((end as int, v)) && end
                <= buf@.len(),
            None => parse_u64(buf@, ofs as int) is None,
        },
{
    if ofs <= buf.len() && buf.len() - ofs >= 8 {
        let s = slice_subrange(buf.as_slice(), ofs, ofs + 8);
        let v = u64_from_le_bytes(s);
        Some((ofs + 8, v))
    } else {
        None
    }
}

// ---------------------------------------------------------------------
// Signed 32-bit integers, as their two's-complement bits
// ---------------------------------------------------------------------
/// The bit image of a signed value.
pub open spec fn i32_bits(v: i32) -> u32 {
    if v >= 0 {
        v as u32
    } else {
        (v + 0x1_0000_0000) as u32
    }
}

/// The signed value of a bit image.
pub open spec fn bits_i32(b: u32) -> i32 {
    if b <= i32::MAX as u32 {
        b as i32
    } else {
        (b - 0x1_0000_0000) as i32
    }
}

pub open spec fn wire_i32(v: i32) -> Seq<u8> {
    wire_u32(i32_bits(v))
}

pub open spec fn parse_i32(buf: Seq<u8>, ofs: int) -> Option<(int, i32)> {
    match parse_u32(buf, ofs) {
        Some((end, b)) => Some((end, bits_i32(b))),
        None => None,
    }
}

pub proof fn lemma_parse_wire_i32(buf: Seq<u8>, ofs: int, v: i32)
    requires
        bytes_at(buf, ofs, wire_i32(v)),
    ensures
        parse_i32(buf, ofs) == Some((ofs + 4, v)),
{
    lemma_parse_wire_u32(buf, ofs, i32_bits(v));
}

pub fn encode_i32(v: i32, out: &mut Vec<u8>)
    ensures
        final(out)@ == old(out)@ + wire_i32(v),
{
    let b: u32 = if v >= 0 {
        v as u32
    } else {
        ((v as i64) + 0x1_0000_0000i64) as u32
    };
    proof {
        assert(b == i32_bits(v));
    }
    encode_u32(b, out);
}

pub fn decode_i32(buf: &Vec<u8>, ofs: usize) -> (r: Option<(usize, i32)>)
    ensures
        match r {
            Some((end, v)) => parse_i32(buf@, ofs as int) == Some((end as int, v)) && end
                <= buf@.len(),
            None => parse_i32(buf@, ofs as int) is None,
        },
{
    match decode_u32(buf, ofs) {
        Some((end, b)) => {
            let v: i32 = if b <= i32::MAX as u32 {
                b as i32
            } else {
                ((b as i64) - 0x1_0000_0000i64) as i32
            };
            proof {
                assert(v == bits_i32(b));
            }
            Some((end, v))
        },
        None => None,
    }
}

// ---------------------------------------------------------------------
// Byte strings: a length prefix, then the raw bytes
// ---------------------------------------------------------------------
pub open spec fn wire_bytes(b: Seq<u8>) -> Seq<u8> {
    wire_u32(b.len() as u32) + b
}

pub open spec fn parse_bytes(buf: Seq<u8>, ofs: int) -> Option<(int, Seq<u8>)> {
    match parse_u32(buf, ofs) {
        Some((mid, n)) => if mid + n <= buf.len() {
            Some((mid + n, buf.subrange(mid, mid + n)))
        } else {
            None
        },
        None => None,
    }
}

pub proof fn lemma_parse_wire_bytes(buf: Seq<u8>, ofs: int, b: Seq<u8>)
    requires
        bytes_at(buf, ofs, wire_bytes(b)),
        b.len() <= u32::MAX,
    ensures
        parse_bytes(buf, ofs) == Some((ofs + wire_bytes(b).len() as int, b)),
{
    lemma_auto_spec_u32_to_from_le_bytes();
    lemma_bytes_at_concat(buf, ofs, wire_u32(b.len() as u32), b);
    lemma_parse_wire_u32(buf, ofs, b.len() as u32);
}

pub fn encode_bytes(b: &Vec<u8>, out: &mut Vec<u8>)
    requires
        b@.len() <= u32::MAX,
    ensures
        final(out)@ == old(out)@ + wire_bytes(b@),
{
    encode_u32(b.len() as u32, out);
    let ghost mid = out@;
    let mut k: usize = 0;
    while k < b.len()
        invariant
            k <= b@.len(),
            out@ == mid + b@.take(k as int),
        decreases b@.len() - k,
    {
        let x = b[k];
        out.push(x);
        k = k + 1;
        proof {
            assert(out@ =~= mid + b@.take(k as int));
        }
    }
    proof {
        assert(b@.take(b@.len() as int) =~= b@);
        assert(out@ =~= old(out)@ + wire_bytes(b@));
    }
}

pub fn decode_bytes(buf: &Vec<u8>, ofs: usize) -> (r: Option<(usize, Vec<u8>)>)
    ensures
        match r {
            Some((end, v)) => parse_bytes(buf@, ofs as int) == Some((end as int, v@)) && end
                <= buf@.len(),
            None => parse_bytes(buf@, ofs as int) is None,
        },
{
    match decode_u32(buf, ofs) {
        Some((mid, n)) => {
            let blen = buf.len();
            if (n as usize) <= blen && mid <= blen - (n as usize) {
                let mut v: Vec<u8> = Vec::new();
                let mut k: usize = 0;
                while k < n as usize
                    invariant
                        k <= n,
                        blen == buf@.len(),
                        mid + n <= blen,
                        v@ == buf@.subrange(mid as int, mid as int + k as int),
                    decreases n - k,
                {
                    let x = buf[mid + k];
                    v.push(x);
                    k = k + 1;
                    proof {
                        assert(v@ =~= buf@.subrange(mid as int, mid as int + k as int));
                    }
                }
                Some((mid + n as usize, v))
            } else {
                None
            }
        },
        None => None,
    }
}

// ---------------------------------------------------------------------
// Character strings: a count prefix, then each character's code point
// ---------------------------------------------------------------------
/// Relies on char::from_u32: it answers exactly on Unicode scalar values,
/// with the character of that code point.
#[verifier::external_body]
fn char_from_code(v: u32) -> (r: Option<char>)
    ensures
        r matches Some(c) ==> c as u32 == v,
        is_scalar(v) ==> r is Some,
{
    char::from_u32(v)
}

pub open spec fn wire_chars(s: Seq<char>) -> Seq<u8>
    decreases s.len(),
{
    if s.len() == 0 {
        Seq::empty()
    } else {
        wire_u32(s[0] as u32) + wire_chars(s.drop_first())
    }
}

pub open spec fn wire_string(s: Seq<char>) -> Seq<u8> {
    wire_u32(s.len() as u32) + wire_chars(s)
}

pub open spec fn parse_chars(buf: Seq<u8>, ofs: int, n: nat) -> Option<(int, Seq<char>)>
    decreases n,
{
    if n == 0 {
        Some((ofs, Seq::empty()))
    } else {
        match parse_u32(buf, ofs) {
            Some((mid, v)) => if is_scalar(v) {
                match parse_chars(buf, mid, (n - 1) as nat) {
                    Some((end, cs)) => Some((end, seq![v as char] + cs)),
                    None => None,
                }
            } else {
                None
            },
            None => None,
        }
    }
}

pub open spec fn parse_string(buf: Seq<u8>, ofs: int) -> Option<(int, Seq<char>)> {
    match parse_u32(buf, ofs) {
        Some((mid, n)) => parse_chars(buf, mid, n as nat),
        None => None,
    }
}

/// Appending one character extends the byte image at its end.
pub proof fn lemma_wire_chars_push(s: Seq<char>, c: char)
    ensures
        wire_chars(s.push(c)) == wire_chars(s) + wire_u32(c as u32),
    decreases s.len(),
{
    if s.len() == 0 {
        assert(s.push(c)[0] == c);
        assert(s.push(c).drop_first() =~= Seq::<char>::empty());
        assert(wire_chars(Seq::<char>::empty()) =~= Seq::<u8>::empty());
        assert(wire_chars(s.push(c)) =~= wire_chars(s) + wire_u32(c as u32));
    } else {
        assert(s.push(c).drop_first() =~= s.drop_first().push(c));
        lemma_wire_chars_push(s.drop_first(), c);
        assert(s.push(c)[0] == s[0]);
        assert(wire_chars(s.push(c)) =~= wire_chars(s) + wire_u32(c as u32));
    }
}

/// Parsing `n` placed character encodings gives the characters back.
pub proof fn lemma_parse_wire_chars(buf: Seq<u8>, ofs: int, s: Seq<char>)
    requires
        bytes_at(buf, ofs, wire_chars(s)),
    ensures
        parse_chars(buf, ofs, s.len()) == Some((ofs + wire_chars(s).len() as int, s)),
    decreases s.len(),
{
    if s.len() > 0 {
        lemma_auto_spec_u32_to_from_le_bytes();
        lemma_bytes_at_concat(buf, ofs, wire_u32(s[0] as u32), wire_chars(s.drop_first()));
        lemma_parse_wire_u32(buf, ofs, s[0] as u32);
        lemma_parse_wire_chars(buf, ofs + 4, s.drop_first());
        char_is_scalar(s[0]);
        char_u32_cast(s[0], s[0] as u32);
        assert(seq![(s[0] as u32) as char] + s.drop_first() =~= s);
    }
}

/// Parsing a placed string encoding gives the string back.
pub proof fn lemma_parse_wire_string(buf: Seq<u8>, ofs: int, s: Seq<char>)
    requires
        bytes_at(buf, ofs, wire_string(s)),
        s.len() <= u32::MAX,
    ensures
        parse_string(buf, ofs) == Some((ofs + wire_string(s).len() as int, s)),
{
    lemma_auto_spec_u32_to_from_le_bytes();
    lemma_bytes_at_concat(buf, ofs, wire_u32(s.len() as u32), wire_chars(s));
    lemma_parse_wire_u32(buf, ofs, s.len() as u32);
    lemma_parse_wire_chars(buf, ofs + 4, s);
}

/// The characters of a string, in order.
pub fn string_chars(s: &str) -> (v: Vec<char>)
    ensures
        v@ == s@,
{
    let n = s.unicode_len();
    let mut v: Vec<char> = Vec::new();
    let mut k: usize = 0;
    while k < n
        invariant
            k <= n,
            n == s@.len(),
            v@ == s@.take(k as int),
        decreases n - k,
    {
        let c = s.get_char(k);
        v.push(c);
        k = k + 1;
        proof {
            assert(v@ =~= s@.take(k as int));
        }
    }
    proof {
        assert(s@.take(n as int) =~= s@);
    }
    v
}

/// Relies on String::from_iter over characters: the collected string
/// holds exactly the given characters in order.
#[verifier::external_body]
fn chars_to_string(v: &Vec<char>) -> (s: String)
    ensures
        s@ == v@,
{
    v.iter().collect()
}

pub fn encode_string(s: &str, out: &mut Vec<u8>)
    requires
        s@.len() <= u32::MAX,
    ensures
        final(out)@ == old(out)@ + wire_string(s@),
{
    let chars = string_chars(s);
    encode_u32(chars.len() as u32, out);
    let ghost mid = out@;
    let mut k: usize = 0;
    while k < chars.len()
        invariant
            k <= chars@.len(),
            chars@ == s@,
            out@ == mid + wire_chars(s@.take(k as int)),
        decreases chars@.len() - k,
    {
        let c = chars[k];
        encode_u32(c as u32, out);
        k = k + 1;
        proof {
            assert(s@.take(k as int) =~= s@.take(k as int - 1).push(s@[k as int - 1]));
            lemma_wire_chars_push(s@.take(k as int - 1), s@[k as int - 1]);
            assert(out@ =~= mid + wire_chars(s@.take(k as int)));
        }
    }
    proof {
        assert(s@.take(s@.len() as int) =~= s@);
        assert(out@ =~= old(out)@ + wire_string(s@));
    }
}

pub fn decode_string(buf: &Vec<u8>, ofs: usize) -> (r: Option<(usize, String)>)
    ensures
        match r {
            Some((end, v)) => parse_string(buf@, ofs as int) == Some((end as int, v@)) && end
                <= buf@.len(),
            None => parse_string(buf@, ofs as int) is None,
        },
{
    match decode_u32(buf, ofs) {
        Some((mid, n)) => {
            let mut cur = mid;
            let mut chars: Vec<char> = Vec::new();
            let mut k: usize = 0;
            while k < n as usize
                invariant
                    k <= n,
                    cur <= buf@.len(),
                    parse_u32(buf@, ofs as int) == Some((mid as int, n)),
                    parse_chars(buf@, mid as int, n as nat) == (match parse_chars(
                        buf@,
                        cur as int,
                        (n - k) as nat,
                    ) {
                        Some((end, cs)) => Some((end, chars@ + cs)),
                        None => None::<(int, Seq<char>)>,
                    }),
                decreases n - k,
            {
                let ghost rest0 = parse_chars(buf@, cur as int, (n - k) as nat);
                match decode_u32(buf, cur) {
                    Some((nx, v)) => {
                        match char_from_code(v) {
                            Some(c) => {
                                chars.push(c);
                                proof {
                                    assert(c as u32 == v);
                                    char_u32_cast(c, v);
                                }
                                cur = nx;
                            },
                            None => {
                                proof {
                                    assert(!is_scalar(v));
                                    assert(parse_chars(buf@, cur as int, (n - k) as nat) is None);
                                    assert(parse_chars(buf@, mid as int, n as nat) is None);
                                    assert(parse_string(buf@, ofs as int) is None);
                                }
                                return None;
                            },
                        }
                    },
                    None => {
                        proof {
                            assert(parse_chars(buf@, cur as int, (n - k) as nat) is None);
                            assert(parse_chars(buf@, mid as int, n as nat) is None);
                            assert(parse_string(buf@, ofs as int) is None);
                        }
                        return None;
                    },
                }
                k = k + 1;
                proof {
                    let m = (n - k) as nat;
                    match parse_chars(buf@, cur as int, m) {
                        Some((end, cs)) => {
                            assert(rest0 == Some((end, seq![chars@.last()] + cs)));
                            assert(chars@.drop_last() + (seq![chars@.last()] + cs) =~= chars@ + cs);
                        },
                        None => {},
                    }
                }
            }
            proof {
                assert(parse_chars(buf@, cur as int, 0nat) == Some((cur as int, Seq::<char>::empty())));
                assert(chars@ + Seq::<char>::empty() =~= chars@);
            }
            let s = chars_to_string(&chars);
            Some((cur, s))
        },
        None => None,
    }
}


// ---------------------------------------------------------------------
// Endpoints
// ---------------------------------------------------------------------
pub open spec fn wire_endpoint(e: Endpoint) -> Seq<u8> {
    wire_u8(e.ip0) + (wire_u8(e.ip1) + (wire_u8(e.ip2) + (wire_u8(e.ip3) + wire_u16(e.port))))
}

pub open spec fn parse_endpoint(buf: Seq<u8>, ofs: int) -> Option<(int, Endpoint)> {
    match parse_u8(buf, ofs) {
        Some((o1, ip0)) => match parse_u8(buf, o1) {
            Some((o2, ip1)) => match parse_u8(buf, o2) {
                Some((o3, ip2)) => match parse_u8(buf, o3) {
                    Some((o4, ip3)) => match parse_u16(buf, o4) {
                        Some((end, port)) => Some(
                            (end, Endpoint { ip0, ip1, ip2, ip3, port }),
                        ),
                        None => None,
                    },
                    None => None,
                },
                None => None,
            },
            None => None,
        },
        None => None,
    }
}

/// Parsing a placed endpoint encoding gives the endpoint back.
pub proof fn lemma_parse_wire_endpoint(buf: Seq<u8>, ofs: int, e: Endpoint)
    requires
        bytes_at(buf, ofs, wire_endpoint(e)),
    ensures
        parse_endpoint(buf, ofs) == Some((ofs + wire_endpoint(e).len() as int, e)),
{
    wire_len_facts();
    lemma_bytes_at_concat(buf, ofs, wire_u8(e.ip0), wire_u8(e.ip1) + (wire_u8(e.ip2) + (wire_u8(
        e.ip3,
    ) + wire_u16(e.port))));
    lemma_bytes_at_concat(buf, ofs + 1, wire_u8(e.ip1), wire_u8(e.ip2) + (wire_u8(e.ip3)
        + wire_u16(e.port)));
    lemma_bytes_at_concat(buf, ofs + 2, wire_u8(e.ip2), wire_u8(e.ip3) + wire_u16(e.port));
    lemma_bytes_at_concat(buf, ofs + 3, wire_u8(e.ip3), wire_u16(e.port));
    lemma_parse_wire_u8(buf, ofs, e.ip0);
    lemma_parse_wire_u8(buf, ofs + 1, e.ip1);
    lemma_parse_wire_u8(buf, ofs + 2, e.ip2);
    lemma_parse_wire_u8(buf, ofs + 3, e.ip3);
    lemma_parse_wire_u16(buf, ofs + 4, e.port);
}

pub fn encode_endpoint(e: &Endpoint, out: &mut Vec<u8>)
    ensures
        final(out)@ == old(out)@ + wire_endpoint(*e),
{
    encode_u8(e.ip0, out);
    encode_u8(e.ip1, out);
    encode_u8(e.ip2, out);
    encode_u8(e.ip3, out);
    encode_u16(e.port, out);
    proof {
        assert(out@ =~= old(out)@ + wire_endpoint(*e));
    }
}

pub fn decode_endpoint(buf: &Vec<u8>, ofs: usize) -> (r: Option<(usize, Endpoint)>)
    ensures
        match r {
            Some((end, v)) => parse_endpoint(buf@, ofs as int) == Some((end as int, v)) && end
                <= buf@.len(),
            None => parse_endpoint(buf@, ofs as int) is None,
        },
{
    match decode_u8(buf, ofs) {
        Some((o1, ip0)) => match decode_u8(buf, o1) {
            Some((o2, ip1)) => match decode_u8(buf, o2) {
                Some((o3, ip2)) => match decode_u8(buf, o3) {
                    Some((o4, ip3)) => match decode_u16(buf, o4) {
                        Some((end, port)) => Some((end, Endpoint { ip0, ip1, ip2, ip3, port })),
                        None => None,
                    },
                    None => None,
                },
                None => None,
            },
            None => None,
        },
        None => None,
    }
}

// ---------------------------------------------------------------------
// Publisher and subscriber identities
// ---------------------------------------------------------------------
pub open spec fn wf_subscriber_ref(r: SubscriberRefV) -> bool {
    r.topic.len() <= u32::MAX
}

pub open spec fn wire_subscriber_ref(r: SubscriberRefV) -> Seq<u8> {
    wire_endpoint(r.address) + wire_string(r.topic)
}

pub open spec fn parse_subscriber_ref(buf: Seq<u8>, ofs: int) -> Option<(int, SubscriberRefV)> {
    match parse_endpoint(buf, ofs) {
        Some((mid, address)) => match parse_string(buf, mid) {
            Some((end, topic)) => Some((end, SubscriberRefV { address, topic })),
            None => None,
        },
        None => None,
    }
}

/// Parsing a placed subscriber identity gives it back.
pub proof fn lemma_parse_wire_subscriber_ref(buf: Seq<u8>, ofs: int, r: SubscriberRefV)
    requires
        bytes_at(buf, ofs, wire_subscriber_ref(r)),
        wf_subscriber_ref(r),
    ensures
        parse_subscriber_ref(buf, ofs) == Some((ofs + wire_subscriber_ref(r).len() as int, r)),
{
    lemma_bytes_at_concat(buf, ofs, wire_endpoint(r.address), wire_string(r.topic));
    lemma_parse_wire_endpoint(buf, ofs, r.address);
    lemma_parse_wire_string(buf, ofs + wire_endpoint(r.address).len() as int, r.topic);
}

pub fn encode_subscriber_ref(r: &SubscriberRef, out: &mut Vec<u8>)
    requires
        r@.topic.len() <= u32::MAX,
    ensures
        final(out)@ == old(out)@ + wire_subscriber_ref(r@),
{
    encode_endpoint(&r.address, out);
    encode_string(r.topic.as_str(), out);
    proof {
        assert(out@ =~= old(out)@ + wire_subscriber_ref(r@));
    }
}

pub fn decode_subscriber_ref(buf: &Vec<u8>, ofs: usize) -> (r: Option<(usize, SubscriberRef)>)
    ensures
        match r {
            Some((end, v)) => parse_subscriber_ref(buf@, ofs as int) == Some((end as int, v@))
                && end <= buf@.len(),
            None => parse_subscriber_ref(buf@, ofs as int) is None,
        },
{
    match decode_endpoint(buf, ofs) {
        Some((mid, address)) => match decode_string(buf, mid) {
            Some((end, topic)) => Some((end, SubscriberRef { address, topic })),
            None => None,
        },
        None => None,
    }
}

// ---------------------------------------------------------------------
// Chunks
// ---------------------------------------------------------------------
pub open spec fn wf_chunk(c: ChunkV) -> bool {
    c.data.len() <= u32::MAX
}

pub open spec fn wire_chunk(c: ChunkV) -> Seq<u8> {
    wire_u64(c.ts) + (wire_u64(c.id) + (wire_u64(c.total_bytes) + (wire_u32(c.total) + (wire_u32(
        c.index,
    ) + wire_bytes(c.data)))))
}

pub open spec fn parse_chunk(buf: Seq<u8>, ofs: int) -> Option<(int, ChunkV)> {
    match parse_u64(buf, ofs) {
        Some((o1, ts)) => match parse_u64(buf, o1) {
            Some((o2, id)) => match parse_u64(buf, o2) {
                Some((o3, total_bytes)) => match parse_u32(buf, o3) {
                    Some((o4, total)) => match parse_u32(buf, o4) {
                        Some((o5, index)) => match parse_bytes(buf, o5) {
                            Some((end, data)) => Some(
                                (end, ChunkV { ts, id, total_bytes, total, index, data }),
                            ),
                            None => None,
                        },
                        None => None,
                    },
                    None => None,
                },
                None => None,
            },
            None => None,
        },
        None => None,
    }
}

/// Parsing a placed chunk encoding gives the chunk back.
pub proof fn lemma_parse_wire_chunk(buf: Seq<u8>, ofs: int, c: ChunkV)
    requires
        bytes_at(buf, ofs, wire_chunk(c)),
        wf_chunk(c),
    ensures
        parse_chunk(buf, ofs) == Some((ofs + wire_chunk(c).len() as int, c)),
{
    wire_len_facts();
    lemma_bytes_at_concat(buf, ofs, wire_u64(c.ts), wire_u64(c.id) + (wire_u64(c.total_bytes) + (
    wire_u32(c.total) + (wire_u32(c.index) + wire_bytes(c.data)))));
    lemma_parse_wire_u64(buf, ofs, c.ts);
    lemma_bytes_at_concat(buf, ofs + 8, wire_u64(c.id), wire_u64(c.total_bytes) + (wire_u32(
        c.total,
    ) + (wire_u32(c.index) + wire_bytes(c.data))));
    lemma_parse_wire_u64(buf, ofs + 8, c.id);
    lemma_bytes_at_concat(buf, ofs + 16, wire_u64(c.total_bytes), wire_u32(c.total) + (wire_u32(
        c.index,
    ) + wire_bytes(c.data)));
    lemma_parse_wire_u64(buf, ofs + 16, c.total_bytes);
    lemma_bytes_at_concat(buf, ofs + 24, wire_u32(c.total), wire_u32(c.index) + wire_bytes(c.data));
    lemma_parse_wire_u32(buf, ofs + 24, c.total);
    lemma_bytes_at_concat(buf, ofs + 28, wire_u32(c.index), wire_bytes(c.data));
    lemma_parse_wire_u32(buf, ofs + 28, c.index);
    lemma_parse_wire_bytes(buf, ofs + 32, c.data);
}

pub fn encode_chunk(c: &Chunk, out: &mut Vec<u8>)
    requires
        c@.data.len() <= u32::MAX,
    ensures
        final(out)@ == old(out)@ + wire_chunk(c@),
{
    encode_u64(c.ts, out);
    encode_u64(c.id, out);
    encode_u64(c.total_bytes, out);
    encode_u32(c.total, out);
    encode_u32(c.index, out);
    encode_bytes(&c.data, out);
    proof {
        assert(out@ =~= old(out)@ + wire_chunk(c@));
    }
}

pub fn decode_chunk(buf: &Vec<u8>, ofs: usize) -> (r: Option<(usize, Chunk)>)
    ensures
        match r {
            Some((end, v)) => parse_chunk(buf@, ofs as int) == Some((end as int, v@)) && end
                <= buf@.len(),
            None => parse_chunk(buf@, ofs as int) is None,
        },
{
    match decode_u64(buf, ofs) {
        Some((o1, ts)) => match decode_u64(buf, o1) {
            Some((o2, id)) => match decode_u64(buf, o2) {
                Some((o3, total_bytes)) => match decode_u32(buf, o3) {
                    Some((o4, total)) => match decode_u32(buf, o4) {
                        Some((o5, index)) => match decode_bytes(buf, o5) {
                            Some((end, data)) => Some(
                                (end, Chunk { ts, id, total_bytes, total, index, data }),
                            ),
                            None => None,
                        },
                        None => None,
                    },
                    None => None,
                },
                None => None,
            },
            None => None,
        },
        None => None,
    }
}

// ---------------------------------------------------------------------
// Index lists
// ---------------------------------------------------------------------
pub open spec fn wire_u32s(s: Seq<u32>) -> Seq<u8>
    decreases s.len(),
{
    if s.len() == 0 {
        Seq::empty()
    } else {
        wire_u32(s[0]) + wire_u32s(s.drop_first())
    }
}

pub open spec fn wire_indices(s: Seq<u32>) -> Seq<u8> {
    wire_u32(s.len() as u32) + wire_u32s(s)
}

pub open spec fn parse_u32s(buf: Seq<u8>, ofs: int, n: nat) -> Option<(int, Seq<u32>)>
    decreases n,
{
    if n == 0 {
        Some((ofs, Seq::empty()))
    } else {
        match parse_u32(buf, ofs) {
            Some((mid, v)) => match parse_u32s(buf, mid, (n - 1) as nat) {
                Some((end, vs)) => Some((end, seq![v] + vs)),
                None => None,
            },
            None => None,
        }
    }
}

pub open spec fn parse_indices(buf: Seq<u8>, ofs: int) -> Option<(int, Seq<u32>)> {
    match parse_u32(buf, ofs) {
        Some((mid, n)) => parse_u32s(buf, mid, n as nat),
        None => None,
    }
}

/// Appending one index extends the byte image at its end.
pub proof fn lemma_wire_u32s_push(s: Seq<u32>, v: u32)
    ensures
        wire_u32s(s.push(v)) == wire_u32s(s) + wire_u32(v),
    decreases s.len(),
{
    if s.len() == 0 {
        assert(s.push(v)[0] == v);
        assert(s.push(v).drop_first() =~= Seq::<u32>::empty());
        assert(wire_u32s(Seq::<u32>::empty()) =~= Seq::<u8>::empty());
        assert(wire_u32s(s.push(v)) =~= wire_u32s(s) + wire_u32(v));
    } else {
        assert(s.push(v).drop_first() =~= s.drop_first().push(v));
        lemma_wire_u32s_push(s.drop_first(), v);
        assert(s.push(v)[0] == s[0]);
        assert(wire_u32s(s.push(v)) =~= wire_u32s(s) + wire_u32(v));
    }
}

/// Parsing `n` placed index encodings gives the indices back.
pub proof fn lemma_parse_wire_u32s(buf: Seq<u8>, ofs: int, s: Seq<u32>)
    requires
        bytes_at(buf, ofs, wire_u32s(s)),
    ensures
        parse_u32s(buf, ofs, s.len()) == Some((ofs + wire_u32s(s).len() as int, s)),
    decreases s.len(),
{
    if s.len() > 0 {
        wire_len_facts();
        lemma_bytes_at_concat(buf, ofs, wire_u32(s[0]), wire_u32s(s.drop_first()));
        lemma_parse_wire_u32(buf, ofs, s[0]);
        lemma_parse_wire_u32s(buf, ofs + 4, s.drop_first());
        assert(seq![s[0]] + s.drop_first() =~= s);
    }
}

/// Parsing a placed index-list encoding gives the list back.
pub proof fn lemma_parse_wire_indices(buf: Seq<u8>, ofs: int, s: Seq<u32>)
    requires
        bytes_at(buf, ofs, wire_indices(s)),
        s.len() <= u32::MAX,
    ensures
        parse_indices(buf, ofs) == Some((ofs + wire_indices(s).len() as int, s)),
{
    wire_len_facts();
    lemma_bytes_at_concat(buf, ofs, wire_u32(s.len() as u32), wire_u32s(s));
    lemma_parse_wire_u32(buf, ofs, s.len() as u32);
    lemma_parse_wire_u32s(buf, ofs + 4, s);
}

pub fn encode_indices(s: &Vec<u32>, out: &mut Vec<u8>)
    requires
        s@.len() <= u32::MAX,
    ensures
        final(out)@ == old(out)@ + wire_indices(s@),
{
    encode_u32(s.len() as u32, out);
    let ghost mid = out@;
    let mut k: usize = 0;
    while k < s.len()
        invariant
            k <= s@.len(),
            out@ == mid + wire_u32s(s@.take(k as int)),
        decreases s@.len() - k,
    {
        let x = s[k];
        encode_u32(x, out);
        k = k + 1;
        proof {
            assert(s@.take(k as int) =~= s@.take(k as int - 1).push(s@[k as int - 1]));
            lemma_wire_u32s_push(s@.take(k as int - 1), s@[k as int - 1]);
            assert(out@ =~= mid + wire_u32s(s@.take(k as int)));
        }
    }
    proof {
        assert(s@.take(s@.len() as int) =~= s@);
        assert(out@ =~= old(out)@ + wire_indices(s@));
    }
}

pub fn decode_indices(buf: &Vec<u8>, ofs: usize) -> (r: Option<(usize, Vec<u32>)>)
    ensures
        match r {
            Some((end, v)) => parse_indices(buf@, ofs as int) == Some((end as int, v@)) && end
                <= buf@.len(),
            None => parse_indices(buf@, ofs as int) is None,
        },
{
    match decode_u32(buf, ofs) {
        Some((mid, n)) => {
            let mut cur = mid;
            let mut vs: Vec<u32> = Vec::new();
            let mut k: usize = 0;
            while k < n as usize
                invariant
                    k <= n,
                    cur <= buf@.len(),
                    parse_u32(buf@, ofs as int) == Some((mid as int, n)),
                    parse_u32s(buf@, mid as int, n as nat) == (match parse_u32s(
                        buf@,
                        cur as int,
                        (n - k) as nat,
                    ) {
                        Some((end, rest)) => Some((end, vs@ + rest)),
                        None => None::<(int, Seq<u32>)>,
                    }),
                decreases n - k,
            {
                let ghost rest0 = parse_u32s(buf@, cur as int, (n - k) as nat);
                match decode_u32(buf, cur) {
                    Some((nx, v)) => {
                        vs.push(v);
                        cur = nx;
                    },
                    None => {
                        proof {
                            assert(parse_u32s(buf@, cur as int, (n - k) as nat) is None);
                            assert(parse_u32s(buf@, mid as int, n as nat) is None);
                        }
                        return None;
                    },
                }
                k = k + 1;
                proof {
                    let m = (n - k) as nat;
                    match parse_u32s(buf@, cur as int, m) {
                        Some((end, rest)) => {
                            assert(rest0 == Some((end, seq![vs@.last()] + rest)));
                            assert(vs@.drop_last() + (seq![vs@.last()] + rest) =~= vs@ + rest);
                        },
                        None => {},
                    }
                }
            }
            proof {
                assert(parse_u32s(buf@, cur as int, 0nat) == Some((cur as int, Seq::<u32>::empty())));
                assert(vs@ + Seq::<u32>::empty() =~= vs@);
            }
            Some((cur, vs))
        },
        None => None,
    }
}

// ---------------------------------------------------------------------
// Subscriber tables
// ---------------------------------------------------------------------
pub open spec fn wf_table(s: Seq<(SubscriberId, SubscriberRefV)>) -> bool {
    &&& s.len() <= u32::MAX
    &&& forall|i: int| 0 <= i < s.len() ==> wf_subscriber_ref((#[trigger] s[i]).1)
}

pub open spec fn wire_pairs(s: Seq<(SubscriberId, SubscriberRefV)>) -> Seq<u8>
    decreases s.len(),
{
    if s.len() == 0 {
        Seq::empty()
    } else {
        wire_u64(s[0].0) + (wire_subscriber_ref(s[0].1) + wire_pairs(s.drop_first()))
    }
}

pub open spec fn wire_table(s: Seq<(SubscriberId, SubscriberRefV)>) -> Seq<u8> {
    wire_u32(s.len() as u32) + wire_pairs(s)
}

pub open spec fn parse_pairs(buf: Seq<u8>, ofs: int, n: nat) -> Option<
    (int, Seq<(SubscriberId, SubscriberRefV)>),
>
    decreases n,
{
    if n == 0 {
        Some((ofs, Seq::empty()))
    } else {
        match parse_u64(buf, ofs) {
            Some((o1, id)) => match parse_subscriber_ref(buf, o1) {
                Some((o2, r)) => match parse_pairs(buf, o2, (n - 1) as nat) {
                    Some((end, rest)) => Some((end, seq![(id, r)] + rest)),
                    None => None,
                },
                None => None,
            },
            None => None,
        }
    }
}

pub open spec fn parse_table(buf: Seq<u8>, ofs: int) -> Option<
    (int, Seq<(SubscriberId, SubscriberRefV)>),
> {
    match parse_u32(buf, ofs) {
        Some((mid, n)) => parse_pairs(buf, mid, n as nat),
        None => None,
    }
}

/// Appending one table row extends the byte image at its end.
pub proof fn lemma_wire_pairs_push(s: Seq<(SubscriberId, SubscriberRefV)>, p: (SubscriberId, SubscriberRefV))
    ensures
        wire_pairs(s.push(p)) == wire_pairs(s) + (wire_u64(p.0) + wire_subscriber_ref(p.1)),
    decreases s.len(),
{
    if s.len() == 0 {
        assert(s.push(p)[0] == p);
        assert(s.push(p).drop_first() =~= Seq::<(SubscriberId, SubscriberRefV)>::empty());
        assert(wire_pairs(Seq::<(SubscriberId, SubscriberRefV)>::empty()) =~= Seq::<u8>::empty());
        assert(wire_pairs(s.push(p)) =~= wire_pairs(s) + (wire_u64(p.0) + wire_subscriber_ref(
            p.1,
        )));
    } else {
        assert(s.push(p).drop_first() =~= s.drop_first().push(p));
        lemma_wire_pairs_push(s.drop_first(), p);
        assert(s.push(p)[0] == s[0]);
        assert(wire_pairs(s.push(p)) =~= wire_pairs(s) + (wire_u64(p.0) + wire_subscriber_ref(
            p.1,
        )));
    }
}

/// Parsing `n` placed table rows gives them back.
pub proof fn lemma_parse_wire_pairs(buf: Seq<u8>, ofs: int, s: Seq<(SubscriberId, SubscriberRefV)>)
    requires
        bytes_at(buf, ofs, wire_pairs(s)),
        forall|i: int| 0 <= i < s.len() ==> wf_subscriber_ref((#[trigger] s[i]).1),
    ensures
        parse_pairs(buf, ofs, s.len()) == Some((ofs + wire_pairs(s).len() as int, s)),
    decreases s.len(),
{
    if s.len() > 0 {
        wire_len_facts();
        lemma_bytes_at_concat(buf, ofs, wire_u64(s[0].0), wire_subscriber_ref(s[0].1) + wire_pairs(
            s.drop_first(),
        ));
        lemma_parse_wire_u64(buf, ofs, s[0].0);
        lemma_bytes_at_concat(
            buf,
            ofs + 8,
            wire_subscriber_ref(s[0].1),
            wire_pairs(s.drop_first()),
        );
        lemma_parse_wire_subscriber_ref(buf, ofs + 8, s[0].1);
        assert(forall|i: int|
            0 <= i < s.drop_first().len() ==> wf_subscriber_ref(
                (#[trigger] s.drop_first()[i]).1,
            ));
        lemma_parse_wire_pairs(buf, ofs + 8 + wire_subscriber_ref(s[0].1).len() as int, s.drop_first());
        assert(seq![s[0]] + s.drop_first() =~= s);
    }
}

/// Parsing a placed table encoding gives the table back.
pub proof fn lemma_parse_wire_table(buf: Seq<u8>, ofs: int, s: Seq<(SubscriberId, SubscriberRefV)>)
    requires
        bytes_at(buf, ofs, wire_table(s)),
        wf_table(s),
    ensures
        parse_table(buf, ofs) == Some((ofs + wire_table(s).len() as int, s)),
{
    wire_len_facts();
    lemma_bytes_at_concat(buf, ofs, wire_u32(s.len() as u32), wire_pairs(s));
    lemma_parse_wire_u32(buf, ofs, s.len() as u32);
    lemma_parse_wire_pairs(buf, ofs + 4, s);
}

pub fn encode_table(t: &Vec<(SubscriberId, SubscriberRef)>, out: &mut Vec<u8>)
    requires
        wf_table(table_view(t@)),
    ensures
        final(out)@ == old(out)@ + wire_table(table_view(t@)),
{
    encode_u32(t.len() as u32, out);
    let ghost mid = out@;
    let ghost tv = table_view(t@);
    let mut k: usize = 0;
    while k < t.len()
        invariant
            k <= t@.len(),
            tv == table_view(t@),
            wf_table(tv),
            out@ == mid + wire_pairs(tv.take(k as int)),
        decreases t@.len() - k,
    {
        let id = t[k].0;
        encode_u64(id, out);
        proof {
            assert(tv[k as int].1 == t@[k as int].1@);
        }
        encode_subscriber_ref(&t[k].1, out);
        k = k + 1;
        proof {
            assert(tv.take(k as int) =~= tv.take(k as int - 1).push(tv[k as int - 1]));
            lemma_wire_pairs_push(tv.take(k as int - 1), tv[k as int - 1]);
            assert(out@ =~= mid + wire_pairs(tv.take(k as int)));
        }
    }
    proof {
        assert(tv.take(tv.len() as int) =~= tv);
        assert(out@ =~= old(out)@ + wire_table(tv));
    }
}

/// The rows still to parse, prefixed by those already read.
pub open spec fn pairs_with_prefix(
    p: Option<(int, Seq<(SubscriberId, SubscriberRefV)>)>,
    acc: Seq<(SubscriberId, SubscriberRefV)>,
) -> Option<(int, Seq<(SubscriberId, SubscriberRefV)>)> {
    match p {
        Some((end, rest)) => Some((end, acc + rest)),
        None => None,
    }
}

pub fn decode_table(buf: &Vec<u8>, ofs: usize) -> (r: Option<(usize, SubTable)>)
    ensures
        match r {
            Some((end, v)) => parse_table(buf@, ofs as int) == Some((end as int, table_view(v@)))
                && end <= buf@.len(),
            None => parse_table(buf@, ofs as int) is None,
        },
{
    match decode_u32(buf, ofs) {
        Some((mid, n)) => {
            let mut cur = mid;
            let mut vs: SubTable = Vec::new();
            let mut k: usize = 0;
            proof {
                assert(table_view(vs@) =~= Seq::<(SubscriberId, SubscriberRefV)>::empty());
            }
            while k < n as usize
                invariant
                    k <= n,
                    cur <= buf@.len(),
                    parse_u32(buf@, ofs as int) == Some((mid as int, n)),
                    parse_pairs(buf@, mid as int, n as nat) == pairs_with_prefix(
                        parse_pairs(buf@, cur as int, (n - k) as nat),
                        table_view(vs@),
                    ),
                decreases n - k,
            {
                let ghost rest0 = parse_pairs(buf@, cur as int, (n - k) as nat);
                match decode_u64(buf, cur) {
                    Some((o1, id)) => {
                        match decode_subscriber_ref(buf, o1) {
                            Some((o2, sref)) => {
                                vs.push((id, sref));
                                cur = o2;
                            },
                            None => {
                                proof {
                                    assert(parse_pairs(buf@, cur as int, (n - k) as nat) is None);
                                    assert(parse_pairs(buf@, mid as int, n as nat) is None);
                                }
                                return None;
                            },
                        }
                    },
                    None => {
                        proof {
                            assert(parse_pairs(buf@, cur as int, (n - k) as nat) is None);
                            assert(parse_pairs(buf@, mid as int, n as nat) is None);
                        }
                        return None;
                    },
                }
                k = k + 1;
                proof {
                    let m = (n - k) as nat;
                    let prev = table_view(vs@.drop_last());
                    let last = (vs@.last().0, vs@.last().1@);
                    assert(table_view(vs@) =~= prev.push(last));
                    match parse_pairs(buf@, cur as int, m) {
                        Some((end, rest)) => {
                            assert(rest0 == Some((end, seq![last] + rest)));
                            assert(prev + (seq![last] + rest) =~= table_view(vs@) + rest);
                        },
                        None => {},
                    }
                }
            }
            proof {
                assert(parse_pairs(buf@, cur as int, 0nat) == Some(
                    (cur as int, Seq::<(SubscriberId, SubscriberRefV)>::empty()),
                ));
                assert(table_view(vs@) + Seq::<(SubscriberId, SubscriberRefV)>::empty()
                    =~= table_view(vs@));
            }
            Some((cur, vs))
        },
        None => None,
    }
}

// ---------------------------------------------------------------------
// Data-plane datagrams
// ---------------------------------------------------------------------
pub open spec fn wf_pub_to_sub(m: PubToSubV) -> bool {
    match m {
        PubToSubV::Heartbeat(_) => true,
        PubToSubV::Chunk(c) => wf_chunk(c),
    }
}

pub open spec fn wire_pub_to_sub(m: PubToSubV) -> Seq<u8> {
    match m {
        PubToSubV::Heartbeat(id) => wire_u8(0) + wire_u64(id),
        PubToSubV::Chunk(c) => wire_u8(1) + wire_chunk(c),
    }
}

pub open spec fn parse_pub_to_sub(buf: Seq<u8>, ofs: int) -> Option<(int, PubToSubV)> {
    match parse_u8(buf, ofs) {
        Some((o1, tag)) => if tag == 0 {
            match parse_u64(buf, o1) {
                Some((end, id)) => Some((end, PubToSubV::Heartbeat(id))),
                None => None,
            }
        } else if tag == 1 {
            match parse_chunk(buf, o1) {
                Some((end, c)) => Some((end, PubToSubV::Chunk(c))),
                None => None,
            }
        } else {
            None
        },
        None => None,
    }
}

/// Parsing a placed datagram encoding gives the datagram back.
pub proof fn lemma_parse_wire_pub_to_sub(buf: Seq<u8>, ofs: int, m: PubToSubV)
    requires
        bytes_at(buf, ofs, wire_pub_to_sub(m)),
        wf_pub_to_sub(m),
    ensures
        parse_pub_to_sub(buf, ofs) == Some((ofs + wire_pub_to_sub(m).len() as int, m)),
{
    wire_len_facts();
    match m {
        PubToSubV::Heartbeat(id) => {
            lemma_bytes_at_concat(buf, ofs, wire_u8(0), wire_u64(id));
            lemma_parse_wire_u8(buf, ofs, 0);
            lemma_parse_wire_u64(buf, ofs + 1, id);
        },
        PubToSubV::Chunk(c) => {
            lemma_bytes_at_concat(buf, ofs, wire_u8(1), wire_chunk(c));
            lemma_parse_wire_u8(buf, ofs, 1);
            lemma_parse_wire_chunk(buf, ofs + 1, c);
        },
    }
}

pub fn encode_pub_to_sub(m: &PublisherToSubscriber, out: &mut Vec<u8>)
    requires
        wf_pub_to_sub(m@),
    ensures
        final(out)@ == old(out)@ + wire_pub_to_sub(m@),
{
    match m {
        PublisherToSubscriber::Heartbeat(id) => {
            encode_u8(0, out);
            encode_u64(*id, out);
        },
        PublisherToSubscriber::Chunk(c) => {
            encode_u8(1, out);
            encode_chunk(c, out);
        },
    }
    proof {
        assert(out@ =~= old(out)@ + wire_pub_to_sub(m@));
    }
}

pub fn decode_pub_to_sub(buf: &Vec<u8>, ofs: usize) -> (r: Option<(usize, PublisherToSubscriber)>)
    ensures
        match r {
            Some((end, v)) => parse_pub_to_sub(buf@, ofs as int) == Some((end as int, v@)) && end
                <= buf@.len(),
            None => parse_pub_to_sub(buf@, ofs as int) is None,
        },
{
    match decode_u8(buf, ofs) {
        Some((o1, tag)) => {
            if tag == 0 {
                match decode_u64(buf, o1) {
                    Some((end, id)) => Some((end, PublisherToSubscriber::Heartbeat(id))),
                    None => None,
                }
            } else if tag == 1 {
                match decode_chunk(buf, o1) {
                    Some((end, c)) => Some((end, PublisherToSubscriber::Chunk(c))),
                    None => None,
                }
            } else {
                None
            }
        },
        None => None,
    }
}

pub open spec fn wf_sub_to_pub(m: SubToPubV) -> bool {
    match m {
        SubToPubV::Ack(_, _, ix) => ix.len() <= u32::MAX,
        SubToPubV::NAck(_, _, ix) => ix.len() <= u32::MAX,
    }
}

pub open spec fn wire_sub_to_pub(m: SubToPubV) -> Seq<u8> {
    match m {
        SubToPubV::Ack(s, id, ix) => wire_u8(0) + (wire_u64(s) + (wire_u64(id) + wire_indices(
            ix,
        ))),
        SubToPubV::NAck(s, id, ix) => wire_u8(1) + (wire_u64(s) + (wire_u64(id) + wire_indices(
            ix,
        ))),
    }
}

pub open spec fn parse_sub_to_pub(buf: Seq<u8>, ofs: int) -> Option<(int, SubToPubV)> {
    match parse_u8(buf, ofs) {
        Some((o1, tag)) => if tag == 0 || tag == 1 {
            match parse_u64(buf, o1) {
                Some((o2, s)) => match parse_u64(buf, o2) {
                    Some((o3, id)) => match parse_indices(buf, o3) {
                        Some((end, ix)) => Some(
                            (
                                end,
                                if tag == 0 {
                                    SubToPubV::Ack(s, id, ix)
                                } else {
                                    SubToPubV::NAck(s, id, ix)
                                },
                            ),
                        ),
                        None => None,
                    },
                    None => None,
                },
                None => None,
            }
        } else {
            None
        },
        None => None,
    }
}

/// Parsing a placed acknowledgement encoding gives it back.
pub proof fn lemma_parse_wire_sub_to_pub(buf: Seq<u8>, ofs: int, m: SubToPubV)
    requires
        bytes_at(buf, ofs, wire_sub_to_pub(m)),
        wf_sub_to_pub(m),
    ensures
        parse_sub_to_pub(buf, ofs) == Some((ofs + wire_sub_to_pub(m).len() as int, m)),
{
    wire_len_facts();
    match m {
        SubToPubV::Ack(s, id, ix) => {
            lemma_bytes_at_concat(buf, ofs, wire_u8(0), wire_u64(s) + (wire_u64(id) + wire_indices(
                ix,
            )));
            lemma_parse_wire_u8(buf, ofs, 0);
            lemma_bytes_at_concat(buf, ofs + 1, wire_u64(s), wire_u64(id) + wire_indices(ix));
            lemma_parse_wire_u64(buf, ofs + 1, s);
            lemma_bytes_at_concat(buf, ofs + 9, wire_u64(id), wire_indices(ix));
            lemma_parse_wire_u64(buf, ofs + 9, id);
            lemma_parse_wire_indices(buf, ofs + 17, ix);
        },
        SubToPubV::NAck(s, id, ix) => {
            lemma_bytes_at_concat(buf, ofs, wire_u8(1), wire_u64(s) + (wire_u64(id) + wire_indices(
                ix,
            )));
            lemma_parse_wire_u8(buf, ofs, 1);
            lemma_bytes_at_concat(buf, ofs + 1, wire_u64(s), wire_u64(id) + wire_indices(ix));
            lemma_parse_wire_u64(buf, ofs + 1, s);
            lemma_bytes_at_concat(buf, ofs + 9, wire_u64(id), wire_indices(ix));
            lemma_parse_wire_u64(buf, ofs + 9, id);
            lemma_parse_wire_indices(buf, ofs + 17, ix);
        },
    }
}

pub fn encode_sub_to_pub(m: &SubscriberToPublisher, out: &mut Vec<u8>)
    requires
        wf_sub_to_pub(m@),
    ensures
        final(out)@ == old(out)@ + wire_sub_to_pub(m@),
{
    match m {
        SubscriberToPublisher::Ack(s, id, ix) => {
            encode_u8(0, out);
            encode_u64(*s, out);
            encode_u64(*id, out);
            encode_indices(ix, out);
        },
        SubscriberToPublisher::NAck(s, id, ix) => {
            encode_u8(1, out);
            encode_u64(*s, out);
            encode_u64(*id, out);
            encode_indices(ix, out);
        },
    }
    proof {
        assert(out@ =~= old(out)@ + wire_sub_to_pub(m@));
    }
}

pub fn decode_sub_to_pub(buf: &Vec<u8>, ofs: usize) -> (r: Option<(usize, SubscriberToPublisher)>)
    ensures
        match r {
            Some((end, v)) => parse_sub_to_pub(buf@, ofs as int) == Some((end as int, v@)) && end
                <= buf@.len(),
            None => parse_sub_to_pub(buf@, ofs as int) is None,
        },
{
    match decode_u8(buf, ofs) {
        Some((o1, tag)) => {
            if tag == 0 || tag == 1 {
                match decode_u64(buf, o1) {
                    Some((o2, s)) => match decode_u64(buf, o2) {
                        Some((o3, id)) => match decode_indices(buf, o3) {
                            Some((end, ix)) => {
                                if tag == 0 {
                                    Some((end, SubscriberToPublisher::Ack(s, id, ix)))
                                } else {
                                    Some((end, SubscriberToPublisher::NAck(s, id, ix)))
                                }
                            },
                            None => None,
                        },
                        None => None,
                    },
                    None => None,
                }
            } else {
                None
            }
        },
        None => None,
    }
}

// ---------------------------------------------------------------------
// Control-channel messages
// ---------------------------------------------------------------------
pub open spec fn wf_to_participant(m: ToParticipantV) -> bool {
    match m {
        ToParticipantV::InitPub(_, topic) => topic.len() <= u32::MAX,
        ToParticipantV::InitSub(_, r) => wf_subscriber_ref(r),
    }
}

pub open spec fn wire_to_participant(m: ToParticipantV) -> Seq<u8> {
    match m {
        ToParticipantV::InitPub(id, topic) => wire_u8(0) + (wire_u64(id) + wire_string(topic)),
        ToParticipantV::InitSub(id, r) => wire_u8(1) + (wire_u64(id) + wire_subscriber_ref(r)),
    }
}

pub open spec fn parse_to_participant(buf: Seq<u8>, ofs: int) -> Option<(int, ToParticipantV)> {
    match parse_u8(buf, ofs) {
        Some((o1, tag)) => if tag == 0 {
            match parse_u64(buf, o1) {
                Some((o2, id)) => match parse_string(buf, o2) {
                    Some((end, topic)) => Some((end, ToParticipantV::InitPub(id, topic))),
                    None => None,
                },
                None => None,
            }
        } else if tag == 1 {
            match parse_u64(buf, o1) {
                Some((o2, id)) => match parse_subscriber_ref(buf, o2) {
                    Some((end, r)) => Some((end, ToParticipantV::InitSub(id, r))),
                    None => None,
                },
                None => None,
            }
        } else {
            None
        },
        None => None,
    }
}

/// Parsing a placed announcement encoding gives it back.
pub proof fn lemma_parse_wire_to_participant(buf: Seq<u8>, ofs: int, m: ToParticipantV)
    requires
        bytes_at(buf, ofs, wire_to_participant(m)),
        wf_to_participant(m),
    ensures
        parse_to_participant(buf, ofs) == Some((ofs + wire_to_participant(m).len() as int, m)),
{
    wire_len_facts();
    match m {
        ToParticipantV::InitPub(id, topic) => {
            lemma_bytes_at_concat(buf, ofs, wire_u8(0), wire_u64(id) + wire_string(topic));
            lemma_parse_wire_u8(buf, ofs, 0);
            lemma_bytes_at_concat(buf, ofs + 1, wire_u64(id), wire_string(topic));
            lemma_parse_wire_u64(buf, ofs + 1, id);
            lemma_parse_wire_string(buf, ofs + 9, topic);
        },
        ToParticipantV::InitSub(id, r) => {
            lemma_bytes_at_concat(buf, ofs, wire_u8(1), wire_u64(id) + wire_subscriber_ref(r));
            lemma_parse_wire_u8(buf, ofs, 1);
            lemma_bytes_at_concat(buf, ofs + 1, wire_u64(id), wire_subscriber_ref(r));
            lemma_parse_wire_u64(buf, ofs + 1, id);
            lemma_parse_wire_subscriber_ref(buf, ofs + 9, r);
        },
    }
}

pub fn encode_to_participant(m: &ToParticipant, out: &mut Vec<u8>)
    requires
        wf_to_participant(m@),
    ensures
        final(out)@ == old(out)@ + wire_to_participant(m@),
{
    match m {
        ToParticipant::InitPub(id, r) => {
            encode_u8(0, out);
            encode_u64(*id, out);
            encode_string(r.topic.as_str(), out);
        },
        ToParticipant::InitSub(id, r) => {
            encode_u8(1, out);
            encode_u64(*id, out);
            encode_subscriber_ref(r, out);
        },
    }
    proof {
        assert(out@ =~= old(out)@ + wire_to_participant(m@));
    }
}

pub fn decode_to_participant(buf: &Vec<u8>, ofs: usize) -> (r: Option<(usize, ToParticipant)>)
    ensures
        match r {
            Some((end, v)) => parse_to_participant(buf@, ofs as int) == Some((end as int, v@))
                && end <= buf@.len(),
            None => parse_to_participant(buf@, ofs as int) is None,
        },
{
    match decode_u8(buf, ofs) {
        Some((o1, tag)) => {
            if tag == 0 {
                match decode_u64(buf, o1) {
                    Some((o2, id)) => match decode_string(buf, o2) {
                        Some((end, topic)) => Some(
                            (end, ToParticipant::InitPub(id, PublisherRef { topic })),
                        ),
                        None => None,
                    },
                    None => None,
                }
            } else if tag == 1 {
                match decode_u64(buf, o1) {
                    Some((o2, id)) => match decode_subscriber_ref(buf, o2) {
                        Some((end, r)) => Some((end, ToParticipant::InitSub(id, r))),
                        None => None,
                    },
                    None => None,
                }
            } else {
                None
            }
        },
        None => None,
    }
}

pub open spec fn wf_part_to_pub(m: PartToPubV) -> bool {
    match m {
        PartToPubV::Init(t) => wf_table(t),
        PartToPubV::InitFailed => true,
        PartToPubV::NewSub(_, r) => wf_subscriber_ref(r),
        PartToPubV::DropSub(_) => true,
    }
}

pub open spec fn wire_part_to_pub(m: PartToPubV) -> Seq<u8> {
    match m {
        PartToPubV::Init(t) => wire_u8(0) + wire_table(t),
        PartToPubV::InitFailed => wire_u8(1),
        PartToPubV::NewSub(id, r) => wire_u8(2) + (wire_u64(id) + wire_subscriber_ref(r)),
        PartToPubV::DropSub(id) => wire_u8(3) + wire_u64(id),
    }
}

pub open spec fn parse_part_to_pub(buf: Seq<u8>, ofs: int) -> Option<(int, PartToPubV)> {
    match parse_u8(buf, ofs) {
        Some((o1, tag)) => if tag == 0 {
            match parse_table(buf, o1) {
                Some((end, t)) => Some((end, PartToPubV::Init(t))),
                None => None,
            }
        } else if tag == 1 {
            Some((o1, PartToPubV::InitFailed))
        } else if tag == 2 {
            match parse_u64(buf, o1) {
                Some((o2, id)) => match parse_subscriber_ref(buf, o2) {
                    Some((end, r)) => Some((end, PartToPubV::NewSub(id, r))),
                    None => None,
                },
                None => None,
            }
        } else if tag == 3 {
            match parse_u64(buf, o1) {
                Some((end, id)) => Some((end, PartToPubV::DropSub(id))),
                None => None,
            }
        } else {
            None
        },
        None => None,
    }
}

/// Parsing a placed control message to a publisher gives it back.
pub proof fn lemma_parse_wire_part_to_pub(buf: Seq<u8>, ofs: int, m: PartToPubV)
    requires
        bytes_at(buf, ofs, wire_part_to_pub(m)),
        wf_part_to_pub(m),
    ensures
        parse_part_to_pub(buf, ofs) == Some((ofs + wire_part_to_pub(m).len() as int, m)),
{
    wire_len_facts();
    match m {
        PartToPubV::Init(t) => {
            lemma_bytes_at_concat(buf, ofs, wire_u8(0), wire_table(t));
            lemma_parse_wire_u8(buf, ofs, 0);
            lemma_parse_wire_table(buf, ofs + 1, t);
        },
        PartToPubV::InitFailed => {
            assert(wire_part_to_pub(m) =~= wire_u8(1) + Seq::<u8>::empty());
            lemma_bytes_at_concat(buf, ofs, wire_u8(1), Seq::<u8>::empty());
            lemma_parse_wire_u8(buf, ofs, 1);
        },
        PartToPubV::NewSub(id, r) => {
            lemma_bytes_at_concat(buf, ofs, wire_u8(2), wire_u64(id) + wire_subscriber_ref(r));
            lemma_parse_wire_u8(buf, ofs, 2);
            lemma_bytes_at_concat(buf, ofs + 1, wire_u64(id), wire_subscriber_ref(r));
            lemma_parse_wire_u64(buf, ofs + 1, id);
            lemma_parse_wire_subscriber_ref(buf, ofs + 9, r);
        },
        PartToPubV::DropSub(id) => {
            lemma_bytes_at_concat(buf, ofs, wire_u8(3), wire_u64(id));
            lemma_parse_wire_u8(buf, ofs, 3);
            lemma_parse_wire_u64(buf, ofs + 1, id);
        },
    }
}

pub fn encode_part_to_pub(m: &ParticipantToPublisher, out: &mut Vec<u8>)
    requires
        wf_part_to_pub(m@),
    ensures
        final(out)@ == old(out)@ + wire_part_to_pub(m@),
{
    match m {
        ParticipantToPublisher::Init(t) => {
            encode_u8(0, out);
            encode_table(t, out);
        },
        ParticipantToPublisher::InitFailed => {
            encode_u8(1, out);
        },
        ParticipantToPublisher::NewSub(id, r) => {
            encode_u8(2, out);
            encode_u64(*id, out);
            encode_subscriber_ref(r, out);
        },
        ParticipantToPublisher::DropSub(id) => {
            encode_u8(3, out);
            encode_u64(*id, out);
        },
    }
    proof {
        assert(out@ =~= old(out)@ + wire_part_to_pub(m@));
    }
}

pub fn decode_part_to_pub(buf: &Vec<u8>, ofs: usize) -> (r: Option<(usize, ParticipantToPublisher)>)
    ensures
        match r {
            Some((end, v)) => parse_part_to_pub(buf@, ofs as int) == Some((end as int, v@)) && end
                <= buf@.len(),
            None => parse_part_to_pub(buf@, ofs as int) is None,
        },
{
    match decode_u8(buf, ofs) {
        Some((o1, tag)) => {
            if tag == 0 {
                match decode_table(buf, o1) {
                    Some((end, t)) => Some((end, ParticipantToPublisher::Init(t))),
                    None => None,
                }
            } else if tag == 1 {
                Some((o1, ParticipantToPublisher::InitFailed))
            } else if tag == 2 {
                match decode_u64(buf, o1) {
                    Some((o2, id)) => match decode_subscriber_ref(buf, o2) {
                        Some((end, r)) => Some((end, ParticipantToPublisher::NewSub(id, r))),
                        None => None,
                    },
                    None => None,
                }
            } else if tag == 3 {
                match decode_u64(buf, o1) {
                    Some((end, id)) => Some((end, ParticipantToPublisher::DropSub(id))),
                    None => None,
                }
            } else {
                None
            }
        },
        None => None,
    }
}

pub open spec fn wire_part_to_sub(m: ParticipantToSubscriber) -> Seq<u8> {
    match m {
        ParticipantToSubscriber::Init => wire_u8(0),
        ParticipantToSubscriber::InitFailed => wire_u8(1),
    }
}

pub open spec fn parse_part_to_sub(buf: Seq<u8>, ofs: int) -> Option<
    (int, ParticipantToSubscriber),
> {
    match parse_u8(buf, ofs) {
        Some((o1, tag)) => if tag == 0 {
            Some((o1, ParticipantToSubscriber::Init))
        } else if tag == 1 {
            Some((o1, ParticipantToSubscriber::InitFailed))
        } else {
            None
        },
        None => None,
    }
}

/// Parsing a placed control message to a subscriber gives it back.
pub proof fn lemma_parse_wire_part_to_sub(buf: Seq<u8>, ofs: int, m: ParticipantToSubscriber)
    requires
        bytes_at(buf, ofs, wire_part_to_sub(m)),
    ensures
        parse_part_to_sub(buf, ofs) == Some((ofs + wire_part_to_sub(m).len() as int, m)),
{
    match m {
        ParticipantToSubscriber::Init => {
            lemma_parse_wire_u8(buf, ofs, 0);
        },
        ParticipantToSubscriber::InitFailed => {
            lemma_parse_wire_u8(buf, ofs, 1);
        },
    }
}

pub fn encode_part_to_sub(m: &ParticipantToSubscriber, out: &mut Vec<u8>)
    ensures
        final(out)@ == old(out)@ + wire_part_to_sub(*m),
{
    match m {
        ParticipantToSubscriber::Init => {
            encode_u8(0, out);
        },
        ParticipantToSubscriber::InitFailed => {
            encode_u8(1, out);
        },
    }
}

pub fn decode_part_to_sub(buf: &Vec<u8>, ofs: usize) -> (r: Option<
    (usize, ParticipantToSubscriber),
>)
    ensures
        match r {
            Some((end, v)) => parse_part_to_sub(buf@, ofs as int) == Some((end as int, v)) && end
                <= buf@.len(),
            None => parse_part_to_sub(buf@, ofs as int) is None,
        },
{
    match decode_u8(buf, ofs) {
        Some((o1, tag)) => {
            if tag == 0 {
                Some((o1, ParticipantToSubscriber::Init))
            } else if tag == 1 {
                Some((o1, ParticipantToSubscriber::InitFailed))
            } else {
                None
            }
        },
        None => None,
    }
}

// ---------------------------------------------------------------------
// Beacons
// ---------------------------------------------------------------------
pub open spec fn wire_beacon(b: Beacon) -> Seq<u8> {
    wire_u64(b.id) + wire_u16(b.port)
}

pub open spec fn parse_beacon(buf: Seq<u8>, ofs: int) -> Option<(int, Beacon)> {
    match parse_u64(buf, ofs) {
        Some((o1, id)) => match parse_u16(buf, o1) {
            Some((end, port)) => Some((end, Beacon { id, port })),
            None => None,
        },
        None => None,
    }
}

/// Parsing a placed beacon encoding gives the beacon back.
pub proof fn lemma_parse_wire_beacon(buf: Seq<u8>, ofs: int, b: Beacon)
    requires
        bytes_at(buf, ofs, wire_beacon(b)),
    ensures
        parse_beacon(buf, ofs) == Some((ofs + wire_beacon(b).len() as int, b)),
{
    wire_len_facts();
    lemma_bytes_at_concat(buf, ofs, wire_u64(b.id), wire_u16(b.port));
    lemma_parse_wire_u64(buf, ofs, b.id);
    lemma_parse_wire_u16(buf, ofs + 8, b.port);
}

pub fn encode_beacon(b: &Beacon, out: &mut Vec<u8>)
    ensures
        final(out)@ == old(out)@ + wire_beacon(*b),
{
    encode_u64(b.id, out);
    encode_u16(b.port, out);
    proof {
        assert(out@ =~= old(out)@ + wire_beacon(*b));
    }
}

pub fn decode_beacon(buf: &Vec<u8>, ofs: usize) -> (r: Option<(usize, Beacon)>)
    ensures
        match r {
            Some((end, v)) => parse_beacon(buf@, ofs as int) == Some((end as int, v)) && end
                <= buf@.len(),
            None => parse_beacon(buf@, ofs as int) is None,
        },
{
    match decode_u64(buf, ofs) {
        Some((o1, id)) => match decode_u16(buf, o1) {
            Some((end, port)) => Some((end, Beacon { id, port })),
            None => None,
        },
        None => None,
    }
}

// ---------------------------------------------------------------------
// Keyed entry lists: a count prefix, then each key and value in turn
// ---------------------------------------------------------------------
pub open spec fn wire_kvs(s: Seq<(u16, i32)>) -> Seq<u8>
    decreases s.len(),
{
    if s.len() == 0 {
        Seq::empty()
    } else {
        wire_u16(s[0].0) + (wire_i32(s[0].1) + wire_kvs(s.drop_first()))
    }
}

pub open spec fn wire_entries(s: Seq<(u16, i32)>) -> Seq<u8> {
    wire_u32(s.len() as u32) + wire_kvs(s)
}

pub open spec fn parse_kvs(buf: Seq<u8>, ofs: int, n: nat) -> Option<(int, Seq<(u16, i32)>)>
    decreases n,
{
    if n == 0 {
        Some((ofs, Seq::empty()))
    } else {
        match parse_u16(buf, ofs) {
            Some((o1, k)) => match parse_i32(buf, o1) {
                Some((o2, v)) => match parse_kvs(buf, o2, (n - 1) as nat) {
                    Some((end, rest)) => Some((end, seq![(k, v)] + rest)),
                    None => None,
                },
                None => None,
            },
            None => None,
        }
    }
}

pub open spec fn parse_entries(buf: Seq<u8>, ofs: int) -> Option<(int, Seq<(u16, i32)>)> {
    match parse_u32(buf, ofs) {
        Some((mid, n)) => parse_kvs(buf, mid, n as nat),
        None => None,
    }
}

/// Appending one entry extends the byte image at its end.
pub proof fn lemma_wire_kvs_push(s: Seq<(u16, i32)>, p: (u16, i32))
    ensures
        wire_kvs(s.push(p)) == wire_kvs(s) + (wire_u16(p.0) + wire_i32(p.1)),
    decreases s.len(),
{
    if s.len() == 0 {
        assert(s.push(p)[0] == p);
        assert(s.push(p).drop_first() =~= Seq::<(u16, i32)>::empty());
        assert(wire_kvs(Seq::<(u16, i32)>::empty()) =~= Seq::<u8>::empty());
        assert(wire_kvs(s.push(p)) =~= wire_kvs(s) + (wire_u16(p.0) + wire_i32(p.1)));
    } else {
        assert(s.push(p).drop_first() =~= s.drop_first().push(p));
        lemma_wire_kvs_push(s.drop_first(), p);
        assert(s.push(p)[0] == s[0]);
        assert(wire_kvs(s.push(p)) =~= wire_kvs(s) + (wire_u16(p.0) + wire_i32(p.1)));
    }
}

/// The byte width of `n` encoded entries.
pub proof fn lemma_wire_kvs_len(s: Seq<(u16, i32)>)
    ensures
        wire_kvs(s).len() == 6 * s.len(),
    decreases s.len(),
{
    wire_len_facts();
    if s.len() > 0 {
        lemma_wire_kvs_len(s.drop_first());
    }
}

/// Parsing `n` placed entries gives them back.
pub proof fn lemma_parse_wire_kvs(buf: Seq<u8>, ofs: int, s: Seq<(u16, i32)>)
    requires
        bytes_at(buf, ofs, wire_kvs(s)),
    ensures
        parse_kvs(buf, ofs, s.len()) == Some((ofs + wire_kvs(s).len() as int, s)),
    decreases s.len(),
{
    if s.len() > 0 {
        wire_len_facts();
        lemma_bytes_at_concat(buf, ofs, wire_u16(s[0].0), wire_i32(s[0].1) + wire_kvs(
            s.drop_first(),
        ));
        lemma_parse_wire_u16(buf, ofs, s[0].0);
        lemma_bytes_at_concat(buf, ofs + 2, wire_i32(s[0].1), wire_kvs(s.drop_first()));
        lemma_parse_wire_i32(buf, ofs + 2, s[0].1);
        lemma_parse_wire_kvs(buf, ofs + 6, s.drop_first());
        assert(seq![s[0]] + s.drop_first() =~= s);
    }
}

/// Parsing a placed entry-list encoding gives the list back: the encoding
/// round-trips through the parser wherever it sits in a buffer.
pub proof fn lemma_parse_wire_entries(buf: Seq<u8>, ofs: int, s: Seq<(u16, i32)>)
    requires
        bytes_at(buf, ofs, wire_entries(s)),
        s.len() <= u32::MAX,
    ensures
        parse_entries(buf, ofs) == Some((ofs + wire_entries(s).len() as int, s)),
{
    wire_len_facts();
    lemma_bytes_at_concat(buf, ofs, wire_u32(s.len() as u32), wire_kvs(s));
    lemma_parse_wire_u32(buf, ofs, s.len() as u32);
    lemma_parse_wire_kvs(buf, ofs + 4, s);
}

pub fn encode_entries(s: &Vec<(u16, i32)>, out: &mut Vec<u8>)
    requires
        s@.len() <= u32::MAX,
    ensures
        final(out)@ == old(out)@ + wire_entries(s@),
{
    encode_u32(s.len() as u32, out);
    let ghost mid = out@;
    let mut k: usize = 0;
    while k < s.len()
        invariant
            k <= s@.len(),
            out@ == mid + wire_kvs(s@.take(k as int)),
        decreases s@.len() - k,
    {
        let key = s[k].0;
        let val = s[k].1;
        encode_u16(key, out);
        encode_i32(val, out);
        k = k + 1;
        proof {
            assert(s@.take(k as int) =~= s@.take(k as int - 1).push(s@[k as int - 1]));
            lemma_wire_kvs_push(s@.take(k as int - 1), s@[k as int - 1]);
            assert(out@ =~= mid + wire_kvs(s@.take(k as int)));
        }
    }
    proof {
        assert(s@.take(s@.len() as int) =~= s@);
        assert(out@ =~= old(out)@ + wire_entries(s@));
    }
}

/// The entries still to parse, prefixed by those already read.
pub open spec fn kvs_with_prefix(p: Option<(int, Seq<(u16, i32)>)>, acc: Seq<(u16, i32)>) -> Option<
    (int, Seq<(u16, i32)>),
> {
    match p {
        Some((end, rest)) => Some((end, acc + rest)),
        None => None,
    }
}

pub fn decode_entries(buf: &Vec<u8>, ofs: usize) -> (r: Option<(usize, Vec<(u16, i32)>)>)
    ensures
        match r {
            Some((end, v)) => parse_entries(buf@, ofs as int) == Some((end as int, v@)) && end
                <= buf@.len(),
            None => parse_entries(buf@, ofs as int) is None,
        },
{
    match decode_u32(buf, ofs) {
        Some((mid, n)) => {
            let mut cur = mid;
            let mut vs: Vec<(u16, i32)> = Vec::new();
            let mut k: usize = 0;
            while k < n as usize
                invariant
                    k <= n,
                    cur <= buf@.len(),
                    parse_u32(buf@, ofs as int) == Some((mid as int, n)),
                    parse_kvs(buf@, mid as int, n as nat) == kvs_with_prefix(
                        parse_kvs(buf@, cur as int, (n - k) as nat),
                        vs@,
                    ),
                decreases n - k,
            {
                let ghost rest0 = parse_kvs(buf@, cur as int, (n - k) as nat);
                match decode_u16(buf, cur) {
                    Some((o1, key)) => {
                        match decode_i32(buf, o1) {
                            Some((o2, val)) => {
                                vs.push((key, val));
                                cur = o2;
                            },
                            None => {
                                proof {
                                    assert(parse_kvs(buf@, cur as int, (n - k) as nat) is None);
                                    assert(parse_kvs(buf@, mid as int, n as nat) is None);
                                }
                                return None;
                            },
                        }
                    },
                    None => {
                        proof {
                            assert(parse_kvs(buf@, cur as int, (n - k) as nat) is None);
                            assert(parse_kvs(buf@, mid as int, n as nat) is None);
                        }
                        return None;
                    },
                }
                k = k + 1;
                proof {
                    let m = (n - k) as nat;
                    match parse_kvs(buf@, cur as int, m) {
                        Some((end, rest)) => {
                            assert(rest0 == Some((end, seq![vs@.last()] + rest)));
                            assert(vs@.drop_last() + (seq![vs@.last()] + rest) =~= vs@ + rest);
                        },
                        None => {},
                    }
                }
            }
            proof {
                assert(parse_kvs(buf@, cur as int, 0nat) == Some(
                    (cur as int, Seq::<(u16, i32)>::empty()),
                ));
                assert(vs@ + Seq::<(u16, i32)>::empty() =~= vs@);
            }
            Some((cur, vs))
        },
        None => None,
    }
}

/// The byte size an entry list will occupy on the wire, without encoding.
pub fn entries_size(s: &Vec<(u16, i32)>) -> (r: usize)
    requires
        6 * s@.len() + 4 <= usize::MAX,
    ensures
        r == wire_entries(s@).len(),
{
    proof {
        wire_len_facts();
        lemma_wire_kvs_len(s@);
    }
    4 + 6 * s.len()
}

} // verus!
