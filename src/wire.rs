//! MessagePack primitives of the binary container, as written and read by rmp.
use vstd::prelude::*;
use vstd::string::StringSliceAdditionalSpecFns;
use vstd::utf8::{decode_utf8, encode_utf8, valid_utf8};

verus! {

/// Big-endian bytes of a 32-bit value.
pub open spec fn be32(v: u32) -> Seq<u8> {
    seq![(v >> 24u32) as u8, (v >> 16u32) as u8, (v >> 8u32) as u8, v as u8]
}

/// The 32-bit value of four big-endian bytes.
pub open spec fn from_be32(b: Seq<u8>) -> u32 {
    ((b[0] as u32) << 24u32) | ((b[1] as u32) << 16u32) | ((b[2] as u32) << 8u32) | (b[3] as u32)
}

/// Big-endian bytes of a 16-bit value.
pub open spec fn be16(v: u16) -> Seq<u8> {
    seq![(v >> 8u16) as u8, v as u8]
}

/// The 16-bit value of two big-endian bytes.
pub open spec fn from_be16(b: Seq<u8>) -> u16 {
    ((b[0] as u16) << 8u16) | (b[1] as u16)
}

pub proof fn lemma_be32(v: u32)
    ensures
        from_be32(be32(v)) == v,
{
    let b = be32(v);
    let (b0, b1, b2, b3) = (b[0], b[1], b[2], b[3]);
    assert(b0 == (v >> 24u32) as u8 && b1 == (v >> 16u32) as u8 && b2 == (v >> 8u32) as u8 && b3 == v as u8);
    assert((((v >> 24u32) as u8 as u32) << 24u32) | (((v >> 16u32) as u8 as u32) << 16u32) | (((v >> 8u32) as u8 as u32) << 8u32) | (v as u8 as u32) == v) by (bit_vector);
}

pub proof fn lemma_be16(v: u16)
    ensures
        from_be16(be16(v)) == v,
{
    let b = be16(v);
    assert(b[0] == (v >> 8u16) as u8 && b[1] == v as u8);
    assert((((v >> 8u16) as u8 as u16) << 8u16) | (v as u8 as u16) == v) by (bit_vector);
}

/// An unsigned integer in its fixed five-byte form.
pub open spec fn enc_u32(v: u32) -> Seq<u8> {
    seq![0xceu8] + be32(v)
}

/// A length in the shortest of the fix / 16-bit / 32-bit forms that share
/// the given markers.
pub open spec fn enc_len(n: u32, fix: u8, m16: u8, m32: u8) -> Seq<u8> {
    if n < 16 {
        seq![(fix + n) as u8]
    } else if n < 0x10000 {
        seq![m16] + be16(n as u16)
    } else {
        seq![m32] + be32(n)
    }
}

/// An array header.
pub open spec fn enc_array_len(n: u32) -> Seq<u8> {
    enc_len(n, 0x90, 0xdc, 0xdd)
}

/// A map header.
pub open spec fn enc_map_len(n: u32) -> Seq<u8> {
    enc_len(n, 0x80, 0xde, 0xdf)
}

/// A string header.
pub open spec fn enc_str_len(n: u32) -> Seq<u8> {
    if n < 32 {
        seq![(0xa0 + n) as u8]
    } else if n < 256 {
        seq![0xd9u8, n as u8]
    } else if n < 0x10000 {
        seq![0xdau8] + be16(n as u16)
    } else {
        seq![0xdbu8] + be32(n)
    }
}

/// A text: its header, then its UTF-8 bytes.
pub open spec fn enc_text(t: Seq<char>) -> Seq<u8> {
    enc_str_len(encode_utf8(t).len() as u32) + encode_utf8(t)
}

/// The text fits the format.
pub open spec fn text_fits(t: Seq<char>) -> bool {
    encode_utf8(t).len() <= u32::MAX
}

/// Reads an unsigned integer in its five-byte form.
pub open spec fn read_u32(b: Seq<u8>) -> Option<(u32, Seq<u8>)> {
    if b.len() >= 5 && b[0] == 0xce {
        Some((from_be32(b.subrange(1, 5)), b.skip(5)))
    } else {
        None
    }
}

/// Reads a length in any of the fix / 16-bit / 32-bit forms.
pub open spec fn read_len(b: Seq<u8>, fix: u8, m16: u8, m32: u8) -> Option<(u32, Seq<u8>)> {
    if b.len() >= 1 && fix <= b[0] < fix + 16 {
        Some(((b[0] - fix) as u32, b.skip(1)))
    } else if b.len() >= 3 && b[0] == m16 {
        Some((from_be16(b.subrange(1, 3)) as u32, b.skip(3)))
    } else if b.len() >= 5 && b[0] == m32 {
        Some((from_be32(b.subrange(1, 5)), b.skip(5)))
    } else {
        None
    }
}

pub open spec fn read_array_len(b: Seq<u8>) -> Option<(u32, Seq<u8>)> {
    read_len(b, 0x90, 0xdc, 0xdd)
}

pub open spec fn read_map_len(b: Seq<u8>) -> Option<(u32, Seq<u8>)> {
    read_len(b, 0x80, 0xde, 0xdf)
}

/// Reads a string header.
pub open spec fn read_str_len(b: Seq<u8>) -> Option<(u32, Seq<u8>)> {
    if b.len() >= 1 && 0xa0 <= b[0] <= 0xbf {
        Some(((b[0] - 0xa0) as u32, b.skip(1)))
    } else if b.len() >= 2 && b[0] == 0xd9 {
        Some((b[1] as u32, b.skip(2)))
    } else if b.len() >= 3 && b[0] == 0xda {
        Some((from_be16(b.subrange(1, 3)) as u32, b.skip(3)))
    } else if b.len() >= 5 && b[0] == 0xdb {
        Some((from_be32(b.subrange(1, 5)), b.skip(5)))
    } else {
        None
    }
}

/// Reads a text: a header, then as many bytes of well-formed UTF-8.
pub open spec fn read_text(b: Seq<u8>) -> Option<(Seq<char>, Seq<u8>)> {
    match read_str_len(b) {
        Some((n, r)) => if n <= r.len() && valid_utf8(r.take(n as int)) {
            Some((decode_utf8(r.take(n as int)), r.skip(n as int)))
        } else {
            None
        },
        None => None,
    }
}

/// A reader's result with the unread bytes as a sequence.
pub open spec fn unread<T>(r: Option<(T, &[u8])>) -> Option<(T, Seq<u8>)> {
    match r {
        Some((v, t)) => Some((v, t@)),
        None => None,
    }
}

/// Relies on rmp::encode::write_u32: the marker 0xce, then the value in four
/// big-endian bytes. Writing into a `Vec` does not fail.
#[verifier::external_body]
pub(crate) fn put_u32(out: &mut Vec<u8>, v: u32)
    ensures
        final(out)@ == old(out)@ + enc_u32(v),
{
    let _ = rmp::encode::write_u32(out, v);
}

/// Relies on rmp::encode::write_array_len: a fixarray marker below 16, else
/// array16 below 2^16, else array32, with the length big-endian.
#[verifier::external_body]
pub(crate) fn put_array_len(out: &mut Vec<u8>, n: u32)
    ensures
        final(out)@ == old(out)@ + enc_array_len(n),
{
    let _ = rmp::encode::write_array_len(out, n);
}

/// Relies on rmp::encode::write_map_len: a fixmap marker below 16, else
/// map16 below 2^16, else map32, with the length big-endian.
#[verifier::external_body]
pub(crate) fn put_map_len(out: &mut Vec<u8>, n: u32)
    ensures
        final(out)@ == old(out)@ + enc_map_len(n),
{
    let _ = rmp::encode::write_map_len(out, n);
}

/// Relies on rmp::encode::write_str: the shortest string header for the
/// byte length, then the UTF-8 bytes of the text.
#[verifier::external_body]
pub(crate) fn put_str(out: &mut Vec<u8>, t: &str)
    requires
        t.spec_bytes().len() <= u32::MAX,
    ensures
        final(out)@ == old(out)@ + enc_str_len(t.spec_bytes().len() as u32) + t.spec_bytes(),
{
    let _ = rmp::encode::write_str(out, t);
}

/// Relies on rmp::decode::read_u32 over a byte slice: it reads the marker
/// and accepts only 0xce, then reads four big-endian bytes.
#[verifier::external_body]
pub(crate) fn take_u32(b: &[u8]) -> (r: Option<(u32, &[u8])>)
    ensures
        unread(r) == read_u32(b@),
{
    let mut rd = b;
    match rmp::decode::read_u32(&mut rd) {
        Ok(v) => Some((v, rd)),
        Err(_) => None,
    }
}

/// Relies on rmp::decode::read_array_len over a byte slice: fixarray,
/// array16 or array32, with the length big-endian.
#[verifier::external_body]
pub(crate) fn take_array_len(b: &[u8]) -> (r: Option<(u32, &[u8])>)
    ensures
        unread(r) == read_array_len(b@),
{
    let mut rd = b;
    match rmp::decode::read_array_len(&mut rd) {
        Ok(v) => Some((v, rd)),
        Err(_) => None,
    }
}

/// Relies on rmp::decode::read_map_len over a byte slice: fixmap, map16 or
/// map32, with the length big-endian.
#[verifier::external_body]
pub(crate) fn take_map_len(b: &[u8]) -> (r: Option<(u32, &[u8])>)
    ensures
        unread(r) == read_map_len(b@),
{
    let mut rd = b;
    match rmp::decode::read_map_len(&mut rd) {
        Ok(v) => Some((v, rd)),
        Err(_) => None,
    }
}

/// Relies on rmp::decode::read_str_len over a byte slice: fixstr, str8,
/// str16 or str32, with the length big-endian.
#[verifier::external_body]
pub(crate) fn take_str_len(b: &[u8]) -> (r: Option<(u32, &[u8])>)
    ensures
        unread(r) == read_str_len(b@),
{
    let mut rd = b;
    match rmp::decode::read_str_len(&mut rd) {
        Ok(v) => Some((v, rd)),
        Err(_) => None,
    }
}

/// Relies on std::str::from_utf8: it accepts exactly the well-formed UTF-8
/// byte strings and then views those same bytes as text.
#[verifier::external_body]
pub(crate) fn utf8_text(b: &[u8]) -> (r: Option<&str>)
    ensures
        r is Some <==> valid_utf8(b@),
        r matches Some(t) ==> t.spec_bytes() == b@,
{
    match std::str::from_utf8(b) {
        Ok(t) => Some(t),
        Err(_) => None,
    }
}

/// Writes a text.
pub fn put_text(out: &mut Vec<u8>, t: &String)
    requires
        text_fits(t@),
    ensures
        final(out)@ == old(out)@ + enc_text(t@),
{
    let s = t.as_str();
    put_str(out, s);
    assert(final(out)@ =~= old(out)@ + enc_text(t@));
}

/// Reads a text.
pub fn take_text(b: &[u8]) -> (r: Option<(String, &[u8])>)
    ensures
        r matches Some((t, rest)) ==> read_text(b@) == Some((t@, rest@)),
        r is None ==> read_text(b@) is None,
{
    match take_str_len(b) {
        None => None,
        Some((n, rest)) => {
            if (n as usize) > rest.len() {
                return None;
            }
            let (bytes, tail) = rest.split_at(n as usize);
            assert(bytes@ == rest@.take(n as int));
            assert(tail@ == rest@.skip(n as int));
            match utf8_text(bytes) {
                None => None,
                Some(t) => {
                    proof {
                        vstd::utf8::encode_utf8_decode_utf8(t@);
                    }
                    Some((t.to_owned(), tail))
                },
            }
        },
    }
}

pub proof fn lemma_read_u32(v: u32, rest: Seq<u8>)
    ensures
        read_u32(enc_u32(v) + rest) == Some((v, rest)),
{
    let b = enc_u32(v) + rest;
    assert(b.subrange(1, 5) =~= be32(v));
    assert(b.skip(5) =~= rest);
    lemma_be32(v);
}

proof fn lemma_read_len(n: u32, fix: u8, m16: u8, m32: u8, rest: Seq<u8>)
    requires
        fix as int + 16 <= m16 as int,
        m16 != m32,
        m32 as int >= fix as int + 16,
    ensures
        read_len(enc_len(n, fix, m16, m32) + rest, fix, m16, m32) == Some((n, rest)),
{
    let b = enc_len(n, fix, m16, m32) + rest;
    if n < 16 {
        assert(b.skip(1) =~= rest);
    } else if n < 0x10000 {
        assert(b.subrange(1, 3) =~= be16(n as u16));
        assert(b.skip(3) =~= rest);
        lemma_be16(n as u16);
    } else {
        assert(b.subrange(1, 5) =~= be32(n));
        assert(b.skip(5) =~= rest);
        lemma_be32(n);
    }
}

pub proof fn lemma_read_array_len(n: u32, rest: Seq<u8>)
    ensures
        read_array_len(enc_array_len(n) + rest) == Some((n, rest)),
{
    lemma_read_len(n, 0x90, 0xdc, 0xdd, rest);
}

pub proof fn lemma_read_map_len(n: u32, rest: Seq<u8>)
    ensures
        read_map_len(enc_map_len(n) + rest) == Some((n, rest)),
{
    lemma_read_len(n, 0x80, 0xde, 0xdf, rest);
}

pub proof fn lemma_read_text(t: Seq<char>, rest: Seq<u8>)
    requires
        text_fits(t),
    ensures
        read_text(enc_text(t) + rest) == Some((t, rest)),
{
    let bytes = encode_utf8(t);
    let n = bytes.len() as u32;
    let b = enc_text(t) + rest;
    let h = enc_str_len(n);
    assert(b =~= h + (bytes + rest));
    let r = bytes + rest;
    if n < 32 {
        assert(b.skip(1) =~= r);
    } else if n < 256 {
        assert(b.skip(2) =~= r);
    } else if n < 0x10000 {
        assert(b.subrange(1, 3) =~= be16(n as u16));
        assert(b.skip(3) =~= r);
        lemma_be16(n as u16);
    } else {
        assert(b.subrange(1, 5) =~= be32(n));
        assert(b.skip(5) =~= r);
        lemma_be32(n);
    }
    assert(read_str_len(b) == Some((n, r)));
    assert(r.take(n as int) =~= bytes);
    assert(r.skip(n as int) =~= rest);
    vstd::utf8::encode_utf8_valid_utf8(t);
    vstd::utf8::encode_utf8_decode_utf8(t);
}

} // verus!
