//! Datagram transport: a message that is too long for one datagram is cut
//! into chunks, each sent behind a header, and put together again by the
//! receiver once every chunk has arrived.
use crate::bytes::append;
use crate::bytes::copy_range;
use vstd::bytes::spec_u32_from_le_bytes;
use vstd::bytes::spec_u32_to_le_bytes;
use vstd::bytes::spec_u64_from_le_bytes;
use vstd::bytes::spec_u64_to_le_bytes;
use vstd::bytes::u32_from_le_bytes;
use vstd::bytes::u32_to_le_bytes;
use vstd::bytes::u64_from_le_bytes;
use vstd::bytes::u64_to_le_bytes;
use vstd::prelude::*;

verus! {

/// Bytes of a chunk header on the wire.
pub const HEADER_LEN: usize = 16;

/// What precedes the payload of every chunk.
#[derive(Clone, Copy, Debug, PartialEq, Eq, Structural)]
pub struct ChunkHeader {
    /// The same for all chunks of one message.
    pub message_id: u64,
    /// Place of this chunk among those of its message, from 0.
    pub chunk_index: u32,
    /// Number of chunks of the message.
    pub total_chunks: u32,
}

/// The wire form of a header: the three fields in little-endian order.
pub open spec fn header_bytes(h: ChunkHeader) -> Seq<u8> {
    spec_u64_to_le_bytes(h.message_id) + spec_u32_to_le_bytes(h.chunk_index)
        + spec_u32_to_le_bytes(h.total_chunks)
}

/// The wire form of a chunk: the header, then the payload.
pub open spec fn packet_bytes(h: ChunkHeader, payload: Seq<u8>) -> Seq<u8> {
    header_bytes(h) + payload
}

/// The header that a datagram of at least `HEADER_LEN` bytes starts with.
pub open spec fn header_of(datagram: Seq<u8>) -> ChunkHeader {
    ChunkHeader {
        message_id: spec_u64_from_le_bytes(datagram.subrange(0, 8)),
        chunk_index: spec_u32_from_le_bytes(datagram.subrange(8, 12)),
        total_chunks: spec_u32_from_le_bytes(datagram.subrange(12, 16)),
    }
}

/// A datagram read as a chunk: its header and its payload. A datagram
/// shorter than a header is no chunk.
pub open spec fn parse_spec(datagram: Seq<u8>) -> Option<(ChunkHeader, Seq<u8>)> {
    if datagram.len() < HEADER_LEN {
        None
    } else {
        Some((header_of(datagram), datagram.subrange(HEADER_LEN as int, datagram.len() as int)))
    }
}

/// Reading a chunk that was written gives back its header and payload.
pub proof fn lemma_parse_packet(h: ChunkHeader, payload: Seq<u8>)
    ensures
        packet_bytes(h, payload).len() == HEADER_LEN + payload.len(),
        parse_spec(packet_bytes(h, payload)) == Some((h, payload)),
{
    vstd::bytes::lemma_auto_spec_u64_to_from_le_bytes();
    vstd::bytes::lemma_auto_spec_u32_to_from_le_bytes();
    let d = packet_bytes(h, payload);
    assert(d.subrange(0, 8) =~= spec_u64_to_le_bytes(h.message_id));
    assert(d.subrange(8, 12) =~= spec_u32_to_le_bytes(h.chunk_index));
    assert(d.subrange(12, 16) =~= spec_u32_to_le_bytes(h.total_chunks));
    assert(d.subrange(HEADER_LEN as int, d.len() as int) =~= payload);
}

/// Writes a header.
pub fn encode_header(h: &ChunkHeader) -> (out: Vec<u8>)
    ensures
        out@ == header_bytes(*h),
        out@.len() == HEADER_LEN,
{
    let mut out = u64_to_le_bytes(h.message_id);
    let index = u32_to_le_bytes(h.chunk_index);
    let total = u32_to_le_bytes(h.total_chunks);
    append(&mut out, index.as_slice());
    append(&mut out, total.as_slice());
    out
}

/// Writes a chunk: the header, then the payload.
pub fn encode_packet(h: &ChunkHeader, payload: &[u8]) -> (out: Vec<u8>)
    ensures
        out@ == packet_bytes(*h, payload@),
{
    let mut out = encode_header(h);
    append(&mut out, payload);
    out
}

/// Reads a datagram as a chunk.
pub fn parse_packet(datagram: &[u8]) -> (r: Option<(ChunkHeader, Vec<u8>)>)
    ensures
        match r {
            Some((h, payload)) => parse_spec(datagram@) == Some((h, payload@)),
            None => parse_spec(datagram@) is None,
        },
{
    if datagram.len() < HEADER_LEN {
        return None;
    }
    let id_bytes = copy_range(datagram, 0, 8);
    let index_bytes = copy_range(datagram, 8, 12);
    let total_bytes = copy_range(datagram, 12, 16);
    let h = ChunkHeader {
        message_id: u64_from_le_bytes(id_bytes.as_slice()),
        chunk_index: u32_from_le_bytes(index_bytes.as_slice()),
        total_chunks: u32_from_le_bytes(total_bytes.as_slice()),
    };
    let payload = copy_range(datagram, HEADER_LEN, datagram.len());
    Some((h, payload))
}

/// Number of chunks that a message of `len` bytes is cut into, with at
/// most `max` bytes to a chunk. An empty message still takes one chunk.
pub open spec fn chunk_count(len: nat, max: nat) -> nat
    recommends
        max > 0,
{
    if len == 0 {
        1
    } else {
        ((len - 1) / (max as int) + 1) as nat
    }
}

/// Where chunk `i` starts in a message of `len` bytes.
pub open spec fn chunk_start(len: nat, max: nat, i: int) -> int {
    if i * max <= len {
        i * max
    } else {
        len as int
    }
}

/// The bytes of the message that chunk `i` carries.
pub open spec fn chunk_payload(message: Seq<u8>, max: nat, i: int) -> Seq<u8> {
    message.subrange(chunk_start(message.len(), max, i), chunk_start(message.len(), max, i + 1))
}

/// The header of chunk `i` of a message.
pub open spec fn chunk_header(message_id: u64, message: Seq<u8>, max: nat, i: int) -> ChunkHeader {
    ChunkHeader {
        message_id,
        chunk_index: i as u32,
        total_chunks: chunk_count(message.len(), max) as u32,
    }
}

/// The datagram that carries chunk `i` of a message.
pub open spec fn chunk_packet(message_id: u64, message: Seq<u8>, max: nat, i: int) -> Seq<u8> {
    packet_bytes(chunk_header(message_id, message, max, i), chunk_payload(message, max, i))
}

/// Whether a message can be cut into chunks: a chunk holds at least one
/// byte, and the number of chunks fits the header.
pub open spec fn can_fragment(len: nat, max: nat) -> bool {
    max > 0 && chunk_count(len, max) <= u32::MAX
}

/// The chunks lie one behind the other and end with the message.
pub proof fn lemma_chunk_bounds(len: nat, max: nat, i: int)
    requires
        max > 0,
        0 <= i,
    ensures
        0 <= chunk_start(len, max, i) <= chunk_start(len, max, i + 1) <= len,
        chunk_start(len, max, i + 1) - chunk_start(len, max, i) <= max,
        chunk_start(len, max, 0) == 0,
        i >= chunk_count(len, max) ==> chunk_start(len, max, i) == len,
        i < chunk_count(len, max) && len > 0 ==> chunk_start(len, max, i) < len,
{
    assert((i + 1) * max == i * max + max) by (nonlinear_arith);
    assert(0 <= i * max) by (nonlinear_arith)
        requires
            0 <= i,
            max > 0,
    ;
    if len > 0 {
        let q = (len - 1) / (max as int);
        assert(q * max <= len - 1 < q * max + max) by (nonlinear_arith)
            requires
                q == (len - 1) / (max as int),
                max > 0,
                len >= 1,
        ;
        if i >= q + 1 {
            assert(i * max >= (q + 1) * max) by (nonlinear_arith)
                requires
                    i >= q + 1,
                    max > 0,
            ;
            assert((q + 1) * max == q * max + max) by (nonlinear_arith);
        } else {
            assert(i * max <= q * max) by (nonlinear_arith)
                requires
                    i <= q,
                    max > 0,
            ;
        }
    } else {
        assert(i >= 1 ==> i * max >= max) by (nonlinear_arith)
            requires
                max > 0,
        ;
    }
}

/// Cuts an encoded message into datagrams of at most `max_payload` bytes
/// of payload each, all under the given message id. A message that fits one
/// datagram gives exactly one.
pub fn fragment(message_id: u64, message: &[u8], max_payload: usize) -> (r: Option<Vec<Vec<u8>>>)
    ensures
        r is Some <==> can_fragment(message@.len(), max_payload as nat),
        match r {
            Some(packets) => {
                &&& packets@.len() == chunk_count(message@.len(), max_payload as nat)
                &&& forall|i: int|
                    0 <= i < packets@.len() ==> #[trigger] packets@[i]@ == chunk_packet(
                        message_id,
                        message@,
                        max_payload as nat,
                        i,
                    )
            },
            None => true,
        },
        message@.len() <= max_payload && max_payload > 0 ==> r is Some && r->0@.len() == 1,
{
    if max_payload == 0 {
        return None;
    }
    let len = message.len();
    let count: usize = if len == 0 {
        1
    } else {
        (len - 1) / max_payload + 1
    };
    proof {
        if 0 < len <= max_payload {
            assert((len - 1) / (max_payload as int) == 0) by (nonlinear_arith)
                requires
                    0 < len <= max_payload,
            ;
        }
    }
    if count > u32::MAX as usize {
        return None;
    }
    let total: u32 = count as u32;
    let mut packets: Vec<Vec<u8>> = Vec::new();
    let mut i: u32 = 0;
    let mut start: usize = 0;
    while i < total
        invariant
            max_payload > 0,
            len == message@.len(),
            total == chunk_count(len as nat, max_payload as nat),
            i <= total,
            start == chunk_start(len as nat, max_payload as nat, i as int),
            packets@.len() == i,
            forall|j: int|
                0 <= j < i ==> #[trigger] packets@[j]@ == chunk_packet(
                    message_id,
                    message@,
                    max_payload as nat,
                    j,
                ),
        decreases total - i,
    {
        proof {
            lemma_chunk_bounds(len as nat, max_payload as nat, i as int);
            assert((i + 1) * max_payload == i * max_payload + max_payload) by (nonlinear_arith);
        }
        let end: usize = if len - start > max_payload {
            start + max_payload
        } else {
            len
        };
        assert(end == chunk_start(len as nat, max_payload as nat, i + 1));
        let payload = copy_range(message, start, end);
        let h = ChunkHeader { message_id, chunk_index: i, total_chunks: total };
        let packet = encode_packet(&h, payload.as_slice());
        packets.push(packet);
        start = end;
        i += 1;
    }
    Some(packets)
}

/// Whether the datagrams are the chunks of the message, in order, under
/// the message id.
pub open spec fn is_fragmentation(
    packets: Seq<Vec<u8>>,
    message_id: u64,
    message: Seq<u8>,
    max: nat,
) -> bool {
    &&& packets.len() == chunk_count(message.len(), max)
    &&& forall|i: int|
        0 <= i < packets.len() ==> (#[trigger] packets[i])@ == chunk_packet(
            message_id,
            message,
            max,
            i,
        )
}

/// Cuts an encoded message into datagrams, as [`fragment`] does, under a
/// message id drawn at random.
pub fn fragment_message(message: &[u8], max_payload: usize) -> (r: Option<Vec<Vec<u8>>>)
    ensures
        r is Some <==> can_fragment(message@.len(), max_payload as nat),
        r matches Some(packets) ==> exists|message_id: u64|
            is_fragmentation(packets@, message_id, message@, max_payload as nat),
{
    let mut rng = rand::thread_rng();
    let message_id = crate::rng::gen_u64(&mut rng);
    let r = fragment(message_id, message, max_payload);
    proof {
        if r is Some {
            assert(is_fragmentation(r->0@, message_id, message@, max_payload as nat));
        }
    }
    r
}

} // verus!
