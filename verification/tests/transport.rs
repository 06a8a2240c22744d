use termarena::reassembly::Delivery;
use termarena::reassembly::Reassembler;
use termarena::reassembly::Received;
use termarena::transport::encode_header;
use termarena::transport::fragment;
use termarena::transport::parse_packet;
use termarena::transport::ChunkHeader;

fn message(len: usize) -> Vec<u8> {
    (0..len).map(|i| (i * 7 + 3) as u8).collect()
}

#[test]
fn header_is_little_endian() {
    let h = ChunkHeader { message_id: 0x0102030405060708, chunk_index: 0x0a0b0c0d, total_chunks: 2 };
    let bytes = encode_header(&h);
    assert_eq!(
        bytes,
        vec![8, 7, 6, 5, 4, 3, 2, 1, 0x0d, 0x0c, 0x0b, 0x0a, 2, 0, 0, 0]
    );
}

#[test]
fn packet_parses_back() {
    let h = ChunkHeader { message_id: 77, chunk_index: 3, total_chunks: 9 };
    let mut datagram = encode_header(&h);
    datagram.extend_from_slice(&[1, 2, 3]);
    let (parsed, payload) = parse_packet(&datagram).unwrap();
    assert_eq!(parsed, h);
    assert_eq!(payload, vec![1, 2, 3]);
}

#[test]
fn short_datagram_is_no_chunk() {
    assert!(parse_packet(&[0u8; 15]).is_none());
    assert!(parse_packet(&[0u8; 16]).is_some());
}

#[test]
fn small_message_is_one_chunk() {
    let m = message(100);
    let packets = fragment(5, &m, 100).unwrap();
    assert_eq!(packets.len(), 1);
    let (h, payload) = parse_packet(&packets[0]).unwrap();
    assert_eq!(h, ChunkHeader { message_id: 5, chunk_index: 0, total_chunks: 1 });
    assert_eq!(payload, m);
    let mut r = Reassembler::new();
    match r.receive(&packets[0], 0) {
        Received::Message(bytes) => assert_eq!(bytes, m),
        _ => panic!("one chunk completes the message"),
    }
    assert_eq!(r.len(), 0);
}

#[test]
fn empty_message_is_one_chunk() {
    let packets = fragment(1, &[], 10).unwrap();
    assert_eq!(packets.len(), 1);
    assert_eq!(packets[0].len(), 16);
}

#[test]
fn fragment_counts_chunks() {
    let m = message(25);
    let packets = fragment(9, &m, 10).unwrap();
    assert_eq!(packets.len(), 3);
    assert_eq!(packets[0].len(), 26);
    assert_eq!(packets[1].len(), 26);
    assert_eq!(packets[2].len(), 21);
    let exact = fragment(9, &message(20), 10).unwrap();
    assert_eq!(exact.len(), 2);
}

#[test]
fn fragment_refuses_empty_chunks() {
    assert!(fragment(1, &[1, 2, 3], 0).is_none());
}

#[test]
fn chunks_reassemble_in_any_order() {
    let m = message(47);
    let packets = fragment(42, &m, 10).unwrap();
    assert_eq!(packets.len(), 5);
    let orders: [[usize; 5]; 4] = [[0, 1, 2, 3, 4], [4, 3, 2, 1, 0], [2, 0, 4, 1, 3], [3, 4, 0, 2, 1]];
    for order in orders.iter() {
        let mut r = Reassembler::new();
        for (k, &i) in order.iter().enumerate() {
            let got = r.receive(&packets[i], 100 + k as u64);
            if k < 4 {
                assert!(matches!(got, Received::Incomplete));
                assert_eq!(r.len(), 1);
            } else {
                match got {
                    Received::Message(bytes) => assert_eq!(bytes, m),
                    _ => panic!("the last chunk completes the message"),
                }
                assert_eq!(r.len(), 0);
            }
        }
    }
}

#[test]
fn repeated_chunk_overwrites_its_cell() {
    let m = message(30);
    let packets = fragment(1, &m, 10).unwrap();
    let mut r = Reassembler::new();
    assert!(matches!(r.receive(&packets[0], 0), Received::Incomplete));
    assert!(matches!(r.receive(&packets[0], 1), Received::Incomplete));
    assert!(matches!(r.receive(&packets[1], 2), Received::Incomplete));
    match r.receive(&packets[2], 3) {
        Received::Message(bytes) => assert_eq!(bytes, m),
        _ => panic!("complete"),
    }
}

#[test]
fn out_of_range_index_is_rejected() {
    let mut r = Reassembler::new();
    let h = ChunkHeader { message_id: 3, chunk_index: 2, total_chunks: 2 };
    assert!(matches!(r.insert(h, vec![1], 0), Delivery::Rejected));
    assert_eq!(r.len(), 0);
    let zero = ChunkHeader { message_id: 3, chunk_index: 0, total_chunks: 0 };
    assert!(matches!(r.insert(zero, vec![1], 0), Delivery::Rejected));
    let first = ChunkHeader { message_id: 3, chunk_index: 0, total_chunks: 2 };
    assert!(matches!(r.insert(first, vec![1], 0), Delivery::Stored));
    let beyond = ChunkHeader { message_id: 3, chunk_index: 5, total_chunks: 9 };
    assert!(matches!(r.insert(beyond, vec![2], 0), Delivery::Rejected));
    assert_eq!(r.entries.get(&3).unwrap().slots, vec![Some(vec![1]), None]);
}

#[test]
fn stale_entry_is_evicted() {
    let mut r = Reassembler::new();
    let old = fragment(7, &message(30), 10).unwrap();
    assert!(matches!(r.receive(&old[0], 1_000), Received::Incomplete));
    assert!(matches!(r.receive(&old[1], 6_000), Received::Incomplete));
    assert_eq!(r.len(), 1);
    // another message arrives after the window: the stale entry goes
    let other = fragment(8, &message(15), 10).unwrap();
    assert!(matches!(r.receive(&other[0], 6_001), Received::Incomplete));
    assert_eq!(r.len(), 1);
    assert!(r.entries.get(&7).is_none());
}

#[test]
fn stale_entry_does_not_leak_into_reused_id() {
    let mut r = Reassembler::new();
    let old = fragment(7, &[9u8; 20], 10).unwrap();
    assert!(matches!(r.receive(&old[0], 0), Received::Incomplete));
    let new = fragment(7, &[1u8, 2, 3, 4, 5, 6, 7, 8, 9, 10, 11, 12], 10).unwrap();
    // the second chunk of the new message comes first, after the window
    assert!(matches!(r.receive(&new[1], 5_001), Received::Incomplete));
    match r.receive(&new[0], 5_002) {
        Received::Message(bytes) => assert_eq!(bytes, vec![1u8, 2, 3, 4, 5, 6, 7, 8, 9, 10, 11, 12]),
        _ => panic!("the new message is complete"),
    }
}

#[test]
fn entry_at_the_timeout_is_kept() {
    let mut r = Reassembler::new();
    let packets = fragment(7, &message(20), 10).unwrap();
    assert!(matches!(r.receive(&packets[0], 1_000), Received::Incomplete));
    r.purge(6_000);
    assert_eq!(r.len(), 1);
    r.purge(6_001);
    assert_eq!(r.len(), 0);
}

#[test]
fn unframed_datagram_is_handed_back() {
    let mut r = Reassembler::new();
    match r.receive(&[1, 2, 3], 0) {
        Received::Unframed(bytes) => assert_eq!(bytes, vec![1, 2, 3]),
        _ => panic!("too short for a chunk"),
    }
}

#[test]
fn chunks_of_two_messages_may_arrive_mixed() {
    let a = message(35);
    let b: Vec<u8> = (0..28u8).map(|i| 200 - i).collect();
    let pa = fragment(1, &a, 10).unwrap();
    let pb = fragment(2, &b, 10).unwrap();
    let mut r = Reassembler::new();
    assert!(matches!(r.receive(&pa[3], 10), Received::Incomplete));
    assert!(matches!(r.receive(&pb[0], 11), Received::Incomplete));
    assert!(matches!(r.receive(&pa[0], 12), Received::Incomplete));
    assert!(matches!(r.receive(&pb[2], 13), Received::Incomplete));
    assert!(matches!(r.receive(&pa[2], 14), Received::Incomplete));
    assert_eq!(r.len(), 2);
    match r.receive(&pb[1], 15) {
        Received::Message(bytes) => assert_eq!(bytes, b),
        _ => panic!("the second message is complete"),
    }
    match r.receive(&pa[1], 5_010) {
        Received::Message(bytes) => assert_eq!(bytes, a),
        _ => panic!("the first message is complete"),
    }
    assert_eq!(r.len(), 0);
}

#[test]
fn chunk_that_does_not_fit_its_message_is_rejected() {
    let mut r = Reassembler::new();
    let first = ChunkHeader { message_id: 9, chunk_index: 0, total_chunks: 5 };
    assert!(matches!(r.insert(first, vec![1], 0), Delivery::Stored));
    // in range of its own header, but the message has five chunks
    let other = ChunkHeader { message_id: 9, chunk_index: 3, total_chunks: 2 };
    assert!(matches!(r.insert(other, vec![2], 1), Delivery::Rejected));
    let fewer = ChunkHeader { message_id: 9, chunk_index: 1, total_chunks: 2 };
    assert!(matches!(r.insert(fewer, vec![2], 1), Delivery::Rejected));
    // in range of the message, but not of its own header
    let beyond = ChunkHeader { message_id: 9, chunk_index: 3, total_chunks: 3 };
    assert!(matches!(r.insert(beyond, vec![2], 1), Delivery::Rejected));
    assert_eq!(
        r.entries.get(&9).unwrap().slots,
        vec![Some(vec![1]), None, None, None, None]
    );
    assert_eq!(r.entries.get(&9).unwrap().started, 0);
    let next = ChunkHeader { message_id: 9, chunk_index: 3, total_chunks: 5 };
    assert!(matches!(r.insert(next, vec![4], 2), Delivery::Stored));
}
