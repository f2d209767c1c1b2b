use vstd::prelude::*;
use vstd::slice::slice_subrange;
use vstd::utf8::*;

use crate::error::Error;

verus! {

/// Byte order of every multi-byte field of one stream.
#[derive(Clone, Copy, Debug, PartialEq, Eq, Structural)]
pub enum Endianness {
    BigEndian,
    LittleEndian,
}

/// The two bytes of `x` in order `o`.
pub open spec fn u16_bytes(x: u16, o: Endianness) -> Seq<u8> {
    match o {
        Endianness::BigEndian => seq![(x >> 8u16) as u8, x as u8],
        Endianness::LittleEndian => seq![x as u8, (x >> 8u16) as u8],
    }
}

/// The four bytes of `x` in order `o`.
pub open spec fn u32_bytes(x: u32, o: Endianness) -> Seq<u8> {
    match o {
        Endianness::BigEndian => seq![
            (x >> 24u32) as u8,
            (x >> 16u32) as u8,
            (x >> 8u32) as u8,
            x as u8,
        ],
        Endianness::LittleEndian => seq![
            x as u8,
            (x >> 8u32) as u8,
            (x >> 16u32) as u8,
            (x >> 24u32) as u8,
        ],
    }
}

/// The eight bytes of `x` in order `o`.
pub open spec fn u64_bytes(x: u64, o: Endianness) -> Seq<u8> {
    let hi = u32_bytes((x >> 32u64) as u32, o);
    let lo = u32_bytes(x as u32, o);
    match o {
        Endianness::BigEndian => hi + lo,
        Endianness::LittleEndian => lo + hi,
    }
}

pub open spec fn be16(b0: u8, b1: u8) -> u16 {
    ((b0 as u16) << 8u16) | (b1 as u16)
}

pub open spec fn be32(b0: u8, b1: u8, b2: u8, b3: u8) -> u32 {
    ((b0 as u32) << 24u32) | ((b1 as u32) << 16u32) | ((b2 as u32) << 8u32) | (b3 as u32)
}

pub open spec fn join64(hi: u32, lo: u32) -> u64 {
    ((hi as u64) << 32u64) | (lo as u64)
}

/// The 16-bit number held by `s[p]`, `s[p + 1]` in order `o`.
pub open spec fn u16_at(s: Seq<u8>, p: int, o: Endianness) -> u16 {
    match o {
        Endianness::BigEndian => be16(s[p], s[p + 1]),
        Endianness::LittleEndian => be16(s[p + 1], s[p]),
    }
}

/// The 32-bit number held by the four bytes at `p` in order `o`.
pub open spec fn u32_at(s: Seq<u8>, p: int, o: Endianness) -> u32 {
    match o {
        Endianness::BigEndian => be32(s[p], s[p + 1], s[p + 2], s[p + 3]),
        Endianness::LittleEndian => be32(s[p + 3], s[p + 2], s[p + 1], s[p]),
    }
}

/// The 64-bit number held by the eight bytes at `p` in order `o`.
pub open spec fn u64_at(s: Seq<u8>, p: int, o: Endianness) -> u64 {
    match o {
        Endianness::BigEndian => join64(u32_at(s, p, o), u32_at(s, p + 4, o)),
        Endianness::LittleEndian => join64(u32_at(s, p + 4, o), u32_at(s, p, o)),
    }
}

pub proof fn lemma_u16_round_trip(x: u16, o: Endianness, pre: Seq<u8>, post: Seq<u8>)
    ensures
        u16_at(pre + u16_bytes(x, o) + post, pre.len() as int, o) == x,
{
    let s = pre + u16_bytes(x, o) + post;
    let p = pre.len() as int;
    assert(s[p] == u16_bytes(x, o)[0] && s[p + 1] == u16_bytes(x, o)[1]);
    assert(be16((x >> 8u16) as u8, x as u8) == x) by (bit_vector);
}

pub proof fn lemma_u32_round_trip(x: u32, o: Endianness, pre: Seq<u8>, post: Seq<u8>)
    ensures
        u32_at(pre + u32_bytes(x, o) + post, pre.len() as int, o) == x,
{
    let s = pre + u32_bytes(x, o) + post;
    let b = u32_bytes(x, o);
    let p = pre.len() as int;
    assert(s[p] == b[0] && s[p + 1] == b[1] && s[p + 2] == b[2] && s[p + 3] == b[3]);
    assert(be32((x >> 24u32) as u8, (x >> 16u32) as u8, (x >> 8u32) as u8, x as u8) == x)
        by (bit_vector);
}

pub proof fn lemma_u64_round_trip(x: u64, o: Endianness, pre: Seq<u8>, post: Seq<u8>)
    ensures
        u64_at(pre + u64_bytes(x, o) + post, pre.len() as int, o) == x,
{
    let hi = (x >> 32u64) as u32;
    let lo = x as u32;
    let p = pre.len() as int;
    let s = pre + u64_bytes(x, o) + post;
    match o {
        Endianness::BigEndian => {
            assert(s =~= pre + u32_bytes(hi, o) + (u32_bytes(lo, o) + post));
            assert(s =~= (pre + u32_bytes(hi, o)) + u32_bytes(lo, o) + post);
            lemma_u32_round_trip(hi, o, pre, u32_bytes(lo, o) + post);
            lemma_u32_round_trip(lo, o, pre + u32_bytes(hi, o), post);
        },
        Endianness::LittleEndian => {
            assert(s =~= pre + u32_bytes(lo, o) + (u32_bytes(hi, o) + post));
            assert(s =~= (pre + u32_bytes(lo, o)) + u32_bytes(hi, o) + post);
            lemma_u32_round_trip(lo, o, pre, u32_bytes(hi, o) + post);
            lemma_u32_round_trip(hi, o, pre + u32_bytes(lo, o), post);
        },
    }
    assert(join64((x >> 32u64) as u32, x as u32) == x) by (bit_vector);
}

pub fn write_u16(out: &mut Vec<u8>, x: u16, o: Endianness)
    ensures
        final(out)@ == old(out)@ + u16_bytes(x, o),
{
    let hi = (x >> 8u16) as u8;
    let lo = x as u8;
    match o {
        Endianness::BigEndian => {
            out.push(hi);
            out.push(lo);
        },
        Endianness::LittleEndian => {
            out.push(lo);
            out.push(hi);
        },
    }
    assert(final(out)@ =~= old(out)@ + u16_bytes(x, o));
}

pub fn write_u32(out: &mut Vec<u8>, x: u32, o: Endianness)
    ensures
        final(out)@ == old(out)@ + u32_bytes(x, o),
{
    let b0 = (x >> 24u32) as u8;
    let b1 = (x >> 16u32) as u8;
    let b2 = (x >> 8u32) as u8;
    let b3 = x as u8;
    match o {
        Endianness::BigEndian => {
            out.push(b0);
            out.push(b1);
            out.push(b2);
            out.push(b3);
        },
        Endianness::LittleEndian => {
            out.push(b3);
            out.push(b2);
            out.push(b1);
            out.push(b0);
        },
    }
    assert(final(out)@ =~= old(out)@ + u32_bytes(x, o));
}

pub fn write_u64(out: &mut Vec<u8>, x: u64, o: Endianness)
    ensures
        final(out)@ == old(out)@ + u64_bytes(x, o),
{
    let hi = (x >> 32u64) as u32;
    let lo = x as u32;
    match o {
        Endianness::BigEndian => {
            write_u32(out, hi, o);
            write_u32(out, lo, o);
        },
        Endianness::LittleEndian => {
            write_u32(out, lo, o);
            write_u32(out, hi, o);
        },
    }
    assert(final(out)@ =~= old(out)@ + u64_bytes(x, o));
}

pub fn read_u16(b: &[u8], p: usize, o: Endianness) -> (r: u16)
    requires
        p + 2 <= b@.len(),
    ensures
        r == u16_at(b@, p as int, o),
{
    // Calling `len` tells the prover that the slice length fits a usize, so the
    // byte positions below cannot overflow.
    let _len = b.len();
    match o {
        Endianness::BigEndian => ((b[p] as u16) << 8u16) | (b[p + 1] as u16),
        Endianness::LittleEndian => ((b[p + 1] as u16) << 8u16) | (b[p] as u16),
    }
}

pub fn read_u32(b: &[u8], p: usize, o: Endianness) -> (r: u32)
    requires
        p + 4 <= b@.len(),
    ensures
        r == u32_at(b@, p as int, o),
{
    // Calling `len` tells the prover that the slice length fits a usize, so the
    // byte positions below cannot overflow.
    let _len = b.len();
    let (x0, x1, x2, x3) = match o {
        Endianness::BigEndian => (b[p], b[p + 1], b[p + 2], b[p + 3]),
        Endianness::LittleEndian => (b[p + 3], b[p + 2], b[p + 1], b[p]),
    };
    ((x0 as u32) << 24u32) | ((x1 as u32) << 16u32) | ((x2 as u32) << 8u32) | (x3 as u32)
}

pub fn read_u64(b: &[u8], p: usize, o: Endianness) -> (r: u64)
    requires
        p + 8 <= b@.len(),
    ensures
        r == u64_at(b@, p as int, o),
{
    // Calling `len` tells the prover that the slice length fits a usize, so the
    // byte positions below cannot overflow.
    let _len = b.len();
    let first = read_u32(b, p, o);
    let second = read_u32(b, p + 4, o);
    let (hi, lo) = match o {
        Endianness::BigEndian => (first, second),
        Endianness::LittleEndian => (second, first),
    };
    ((hi as u64) << 32u64) | (lo as u64)
}

/// Wire form of a name or text: its UTF-8 length as 16 bits, then its UTF-8 bytes.
pub open spec fn text_bytes(s: Seq<char>, o: Endianness) -> Seq<u8> {
    u16_bytes(encode_utf8(s).len() as u16, o) + encode_utf8(s)
}

/// Whether the UTF-8 form of `s` fits a 16-bit length prefix.
pub open spec fn text_fits(s: Seq<char>) -> bool {
    encode_utf8(s).len() <= u16::MAX
}

/// Reads a length-prefixed text at `p`: the text and the position after it.
pub open spec fn parse_text(s: Seq<u8>, p: int, o: Endianness) -> Result<(Seq<char>, int), Error> {
    if p < 0 || p + 2 > s.len() {
        Err(Error::ShortRead)
    } else {
        let n = u16_at(s, p, o) as int;
        if p + 2 + n > s.len() {
            Err(Error::ShortRead)
        } else {
            let body = s.subrange(p + 2, p + 2 + n);
            if valid_utf8(body) {
                Ok((decode_utf8(body), p + 2 + n))
            } else {
                Err(Error::MalformedText)
            }
        }
    }
}

pub proof fn lemma_text_round_trip(t: Seq<char>, o: Endianness, pre: Seq<u8>, post: Seq<u8>)
    requires
        text_fits(t),
    ensures
        parse_text(pre + text_bytes(t, o) + post, pre.len() as int, o) == Ok::<(Seq<char>, int), Error>(
            (t, pre.len() + text_bytes(t, o).len() as int),
        ),
{
    let b = encode_utf8(t);
    let s = pre + text_bytes(t, o) + post;
    let p = pre.len() as int;
    assert(s =~= pre + u16_bytes(b.len() as u16, o) + (b + post));
    lemma_u16_round_trip(b.len() as u16, o, pre, b + post);
    assert(s.subrange(p + 2, p + 2 + b.len()) =~= b);
    encode_utf8_valid_utf8(t);
    encode_utf8_decode_utf8(t);
}

/// Relies on std::str::from_utf8: it accepts exactly the valid UTF-8 byte
/// sequences, and the text it gives back has those bytes.
#[verifier::external_body]
fn utf8_text(b: &[u8]) -> (r: Option<String>)
    ensures
        match r {
            Some(t) => valid_utf8(b@) && t@ == decode_utf8(b@),
            None => !valid_utf8(b@),
        },
{
    match std::str::from_utf8(b) {
        Ok(t) => Some(t.to_string()),
        Err(_) => None,
    }
}

pub fn read_text(b: &[u8], p: usize, o: Endianness) -> (r: Result<(String, usize), Error>)
    ensures
        match parse_text(b@, p as int, o) {
            Ok((t, q)) => r matches Ok((rt, rq)) && rt@ == t && rq == q,
            Err(e) => r == Err::<(String, usize), Error>(e),
        },
{
    if p > b.len() || b.len() - p < 2 {
        return Err(Error::ShortRead);
    }
    let n = read_u16(b, p, o) as usize;
    if b.len() - (p + 2) < n {
        return Err(Error::ShortRead);
    }
    let body = slice_subrange(b, p + 2, p + 2 + n);
    assert(body@ == b@.subrange(p + 2, p + 2 + n));
    match utf8_text(body) {
        Some(t) => Ok((t, p + 2 + n)),
        None => Err(Error::MalformedText),
    }
}

/// Appends the length-prefixed UTF-8 form of `t`; fails when it is longer than
/// a 16-bit length can say.
pub fn write_text(out: &mut Vec<u8>, t: &str, o: Endianness) -> (r: Result<(), Error>)
    ensures
        r is Ok <==> text_fits(t@),
        r is Ok ==> final(out)@ == old(out)@ + text_bytes(t@, o),
        r is Err ==> r == Err::<(), Error>(Error::InvalidLength) && final(out)@ == old(out)@,
{
    let bytes = t.as_bytes();
    if bytes.len() > 0xffff {
        return Err(Error::InvalidLength);
    }
    write_u16(out, bytes.len() as u16, o);
    let ghost mid = out@;
    let mut i: usize = 0;
    while i < bytes.len()
        invariant
            i <= bytes@.len(),
            bytes@ == encode_utf8(t@),
            out@ == mid + bytes@.subrange(0, i as int),
        decreases bytes@.len() - i,
    {
        out.push(bytes[i]);
        i = i + 1;
        assert(out@ =~= mid + bytes@.subrange(0, i as int));
    }
    assert(bytes@.subrange(0, i as int) =~= bytes@);
    Ok(())
}

} // verus!
