use std::collections::HashMap;
use std::collections::HashSet;
use termarena::bytes::append;
use termarena::bytes::copy_range;
use termarena::ids::sorted_keys;
use termarena::math::isqrt;
use termarena::stream::decode_length;
use termarena::stream::encode_length;
use termarena::stream::frame;
use termarena::stream::unframe;
use termarena::transport::fragment_message;
use termarena::transport::parse_packet;

#[test]
fn integer_square_root_rounds_down() {
    assert_eq!(isqrt(0), 0);
    assert_eq!(isqrt(1), 1);
    assert_eq!(isqrt(3), 1);
    assert_eq!(isqrt(4), 2);
    assert_eq!(isqrt(24), 4);
    assert_eq!(isqrt(25), 5);
    assert_eq!(isqrt(2_000_000), 1414);
    assert_eq!(isqrt(25_000_000), 5000);
    assert_eq!(isqrt(u64::MAX as u128), 4294967295);
    assert_eq!(isqrt(1u128 << 64), 4294967296);
    assert_eq!(isqrt(u128::MAX), u64::MAX);
}

#[test]
fn keys_come_in_ascending_order() {
    let mut m: HashMap<u32, u8> = HashMap::new();
    assert_eq!(sorted_keys(&m), Vec::<u32>::new());
    for k in [9u32, 2, 700, 0, u32::MAX, 33] {
        m.insert(k, 0);
    }
    assert_eq!(sorted_keys(&m), vec![0, 2, 9, 33, 700, u32::MAX]);
}

#[test]
fn bytes_are_appended_and_copied() {
    let mut v = vec![1u8, 2];
    append(&mut v, &[3, 4, 5]);
    assert_eq!(v, vec![1, 2, 3, 4, 5]);
    append(&mut v, &[]);
    assert_eq!(v.len(), 5);
    assert_eq!(copy_range(&v, 1, 4), vec![2, 3, 4]);
    assert_eq!(copy_range(&v, 2, 2), Vec::<u8>::new());
    assert_eq!(copy_range(&v, 0, 5), v);
}

#[test]
fn length_is_written_most_significant_byte_first() {
    assert_eq!(encode_length(0x0102_0304), vec![1, 2, 3, 4]);
    assert_eq!(encode_length(5), vec![0, 0, 0, 5]);
    assert_eq!(encode_length(u32::MAX), vec![255, 255, 255, 255]);
    assert_eq!(decode_length(&[1, 2, 3, 4]), 0x0102_0304);
    assert_eq!(decode_length(&[0, 0, 1, 0]), 256);
}

#[test]
fn framed_message_is_read_back() {
    let framed = frame(&[9, 8, 7]).unwrap();
    assert_eq!(framed, vec![0, 0, 0, 3, 9, 8, 7]);
    assert_eq!(unframe(&framed), Some((vec![9, 8, 7], 7)));
    let mut stream = framed.clone();
    stream.extend_from_slice(&frame(&[]).unwrap());
    stream.extend_from_slice(&[0, 0]);
    assert_eq!(unframe(&stream), Some((vec![9, 8, 7], 7)));
    assert_eq!(unframe(&stream[7..]), Some((vec![], 4)));
    assert_eq!(unframe(&stream[11..]), None);
}

#[test]
fn frame_that_has_not_come_whole_is_not_read() {
    assert_eq!(unframe(&[]), None);
    assert_eq!(unframe(&[0, 0, 0]), None);
    assert_eq!(unframe(&[0, 0, 0, 2, 1]), None);
    assert_eq!(unframe(&[0, 0, 0, 2, 1, 2]), Some((vec![1, 2], 6)));
    assert_eq!(unframe(&[255, 255, 255, 255, 1, 2]), None);
}

#[test]
fn message_id_is_the_same_for_all_chunks_of_a_message() {
    let message: Vec<u8> = (0..50u8).collect();
    let packets = fragment_message(&message, 20).unwrap();
    assert_eq!(packets.len(), 3);
    let (first, _) = parse_packet(&packets[0]).unwrap();
    let mut joined = vec![];
    for (i, p) in packets.iter().enumerate() {
        let (h, payload) = parse_packet(p).unwrap();
        assert_eq!(h.message_id, first.message_id);
        assert_eq!(h.chunk_index, i as u32);
        assert_eq!(h.total_chunks, 3);
        joined.extend_from_slice(&payload);
    }
    assert_eq!(joined, message);
    assert!(fragment_message(&message, 0).is_none());
}

#[test]
fn message_ids_differ_from_message_to_message() {
    let mut ids = HashSet::new();
    for _ in 0..50 {
        let packets = fragment_message(&[1, 2, 3], 10).unwrap();
        ids.insert(parse_packet(&packets[0]).unwrap().0.message_id);
    }
    assert!(ids.len() > 1);
}
