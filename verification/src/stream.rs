//! Framing of messages on a stream: each message goes behind its length,
//! written as four bytes, the most significant first.
use crate::bytes::append;
use crate::bytes::copy_range;
use vstd::prelude::*;

verus! {

/// Bytes of the length that precedes a message.
pub const PREFIX_LEN: usize = 4;

/// A number as four bytes, the most significant first.
pub open spec fn be_bytes(n: u32) -> Seq<u8> {
    seq![
        (n / 0x100_0000) as u8,
        (n / 0x1_0000 % 0x100) as u8,
        (n / 0x100 % 0x100) as u8,
        (n % 0x100) as u8,
    ]
}

/// The number that four bytes stand for, the most significant first.
pub open spec fn be_value(b: Seq<u8>) -> int {
    b[0] * 0x100_0000 + b[1] * 0x1_0000 + b[2] * 0x100 + b[3]
}

/// The bytes of a number stand for the number.
pub proof fn lemma_be_round_trip(n: u32)
    ensures
        be_bytes(n).len() == 4,
        be_value(be_bytes(n)) == n,
{
}

/// A message behind its length.
pub open spec fn framed(payload: Seq<u8>) -> Seq<u8> {
    be_bytes(payload.len() as u32) + payload
}

/// The first message of a stream and the bytes that it takes up, its
/// length counted; none while the stream does not hold the whole of it.
pub open spec fn first_frame(stream: Seq<u8>) -> Option<(Seq<u8>, int)> {
    if stream.len() < PREFIX_LEN {
        None
    } else {
        let len = be_value(stream.subrange(0, 4));
        if stream.len() < PREFIX_LEN + len {
            None
        } else {
            Some((stream.subrange(4, 4 + len), 4 + len))
        }
    }
}

/// A message that was framed is read back as it was, whatever follows it
/// on the stream.
pub proof fn lemma_frame_round_trip(payload: Seq<u8>, rest: Seq<u8>)
    requires
        payload.len() <= u32::MAX,
    ensures
        first_frame(framed(payload) + rest) == Some((payload, 4 + payload.len() as int)),
{
    let stream = framed(payload) + rest;
    lemma_be_round_trip(payload.len() as u32);
    assert(stream.subrange(0, 4) =~= be_bytes(payload.len() as u32));
    assert(stream.subrange(4, 4 + payload.len() as int) =~= payload);
}

/// Writes a number as four bytes, the most significant first.
pub fn encode_length(n: u32) -> (out: Vec<u8>)
    ensures
        out@ == be_bytes(n),
{
    let mut out: Vec<u8> = Vec::new();
    out.push((n / 0x100_0000) as u8);
    out.push((n / 0x1_0000 % 0x100) as u8);
    out.push((n / 0x100 % 0x100) as u8);
    out.push((n % 0x100) as u8);
    assert(out@ =~= be_bytes(n));
    out
}

/// Reads four bytes as a number, the most significant first.
pub fn decode_length(prefix: &[u8]) -> (n: u32)
    requires
        prefix@.len() == PREFIX_LEN,
    ensures
        n == be_value(prefix@),
{
    prefix[0] as u32 * 0x100_0000 + prefix[1] as u32 * 0x1_0000 + prefix[2] as u32 * 0x100
        + prefix[3] as u32
}

/// Puts a message behind its length. A message of more bytes than the
/// length can say is not framed.
pub fn frame(payload: &[u8]) -> (r: Option<Vec<u8>>)
    ensures
        r is Some <==> payload@.len() <= u32::MAX,
        r matches Some(bytes) ==> bytes@ == framed(payload@),
{
    if payload.len() > u32::MAX as usize {
        return None;
    }
    let mut out = encode_length(payload.len() as u32);
    append(&mut out, payload);
    Some(out)
}

/// Takes the first message off what has come in on a stream: the message,
/// and the number of bytes that it took up. There is none while the stream
/// does not hold the whole of it.
pub fn unframe(stream: &[u8]) -> (r: Option<(Vec<u8>, usize)>)
    ensures
        match r {
            Some((payload, used)) => first_frame(stream@) == Some((payload@, used as int)),
            None => first_frame(stream@) is None,
        },
{
    if stream.len() < PREFIX_LEN {
        return None;
    }
    let prefix = copy_range(stream, 0, PREFIX_LEN);
    let len = decode_length(prefix.as_slice()) as usize;
    if stream.len() - PREFIX_LEN < len {
        return None;
    }
    let payload = copy_range(stream, PREFIX_LEN, PREFIX_LEN + len);
    Some((payload, PREFIX_LEN + len))
}

} // verus!
