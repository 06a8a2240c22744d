use std::collections::HashSet;
use termarena::encoding::encodes_map;
use termarena::map::TileMap;
use termarena::network::state::missing_chunks;
use termarena::network::state::MapChunk;
use termarena::network::state::MapDownloader;

fn bytes(len: usize) -> Vec<u8> {
    (0..len).map(|i| (i % 251) as u8).collect()
}

/// The encoded form of a map with a wall on every third tile.
fn encoded_map(width: u64, height: u64) -> Vec<u8> {
    let mut out = vec![];
    out.extend_from_slice(&width.to_le_bytes());
    out.extend_from_slice(&height.to_le_bytes());
    out.extend_from_slice(&height.to_le_bytes());
    for y in 0..height {
        out.extend_from_slice(&width.to_le_bytes());
        for x in 0..width {
            let tile: u32 = if (x + y) % 3 == 0 { 1 } else { 0 };
            out.extend_from_slice(&tile.to_le_bytes());
        }
    }
    out
}

#[test]
fn map_is_cut_into_chunks_of_1024_bytes() {
    let raw = bytes(2500);
    let chunks = TileMap::chunk_map(&raw);
    assert_eq!(chunks.len(), 3);
    for (i, c) in chunks.iter().enumerate() {
        assert_eq!(c.chunk_index, i as u32);
        assert_eq!(c.total_chunks, 3);
    }
    assert_eq!(chunks[0].bytes, raw[0..1024].to_vec());
    assert_eq!(chunks[1].bytes, raw[1024..2048].to_vec());
    assert_eq!(chunks[2].bytes, raw[2048..2500].to_vec());
}

#[test]
fn chunk_count_rounds_up() {
    assert_eq!(TileMap::chunk_map(&bytes(0)).len(), 0);
    assert_eq!(TileMap::chunk_map(&bytes(1)).len(), 1);
    assert_eq!(TileMap::chunk_map(&bytes(1024)).len(), 1);
    assert_eq!(TileMap::chunk_map(&bytes(1025)).len(), 2);
    assert_eq!(TileMap::chunk_map(&bytes(2048)).len(), 2);
}

#[test]
fn server_answers_with_the_complement() {
    let chunks = TileMap::chunk_map(&bytes(5000));
    assert_eq!(chunks.len(), 5);
    let held: HashSet<u32> = [1u32, 3, 9].into_iter().collect();
    let answer = missing_chunks(&chunks, &held);
    let indices: Vec<u32> = answer.iter().map(|c| c.chunk_index).collect();
    assert_eq!(indices, vec![0, 2, 4]);
    for c in answer.iter() {
        assert_eq!(c.bytes, chunks[c.chunk_index as usize].bytes);
        assert_eq!(c.total_chunks, 5);
    }
    let none: HashSet<u32> = HashSet::new();
    assert_eq!(missing_chunks(&chunks, &none).len(), 5);
    let all: HashSet<u32> = (0u32..5).collect();
    assert_eq!(missing_chunks(&chunks, &all).len(), 0);
}

#[test]
fn answer_is_all_indices_minus_the_held_ones() {
    let chunks = TileMap::chunk_map(&bytes(8 * 1024));
    for mask in 0u32..256 {
        let held: HashSet<u32> = (0u32..8).filter(|i| mask & (1 << i) != 0).collect();
        let answer: HashSet<u32> =
            missing_chunks(&chunks, &held).iter().map(|c| c.chunk_index).collect();
        let want: HashSet<u32> = (0u32..8).filter(|i| !held.contains(i)).collect();
        assert_eq!(answer, want);
    }
}

#[test]
fn encoded_form_of_a_map_is_told_from_other_bytes() {
    assert!(encodes_map(&encoded_map(5, 4)));
    assert!(encodes_map(&encoded_map(0, 0)));
    assert!(encodes_map(&encoded_map(1, 300)));
    // what follows the last row is not looked at
    let mut longer = encoded_map(5, 4);
    longer.extend_from_slice(&[9, 9, 9]);
    assert!(encodes_map(&longer));
    assert!(!encodes_map(&[]));
    assert!(!encodes_map(&[0u8; 23]));
    assert!(encodes_map(&[0u8; 24]));
    assert!(!encodes_map(&bytes(3000)));
    // a row is cut short
    let whole = encoded_map(5, 4);
    assert!(!encodes_map(&whole[..whole.len() - 1]));
    assert!(!encodes_map(&whole[..24]));
    assert!(!encodes_map(&whole[..30]));
    // a tile that is neither empty nor wall
    let mut odd = encoded_map(5, 4);
    odd[24 + 8] = 2;
    assert!(!encodes_map(&odd));
    let mut high = encoded_map(5, 4);
    high[24 + 8 + 3] = 1;
    assert!(!encodes_map(&high));
    // more rows announced than there are
    let mut more = encoded_map(5, 4);
    more[16] = 5;
    assert!(!encodes_map(&more));
    let mut many = encoded_map(5, 4);
    many[16..24].copy_from_slice(&u64::MAX.to_le_bytes());
    assert!(!encodes_map(&many));
    // a row that announces more tiles than there are bytes
    let mut wide = encoded_map(5, 4);
    wide[24..32].copy_from_slice(&u64::MAX.to_le_bytes());
    assert!(!encodes_map(&wide));
    // width and height are not held against the rows
    let mut other = encoded_map(5, 4);
    other[0] = 77;
    assert!(encodes_map(&other));
}

#[test]
fn encoded_form_is_what_the_encoder_writes() {
    let rows: Vec<Vec<u32>> = vec![vec![0, 1, 0], vec![1, 1, 0]];
    let written = bincode::serialize(&(3u64, 2u64, rows)).unwrap();
    let mut by_hand = vec![];
    for n in [3u64, 2, 2] {
        by_hand.extend_from_slice(&n.to_le_bytes());
    }
    for row in [[0u32, 1, 0], [1, 1, 0]] {
        by_hand.extend_from_slice(&3u64.to_le_bytes());
        for t in row {
            by_hand.extend_from_slice(&t.to_le_bytes());
        }
    }
    assert_eq!(written, by_hand);
    assert!(encodes_map(&written));
    let read: (u64, u64, Vec<Vec<u32>>) = bincode::deserialize(&written).unwrap();
    assert_eq!(read.2.len(), 2);
    // what the check refuses, the decoder cannot read either
    assert!(bincode::deserialize::<(u64, u64, Vec<Vec<u32>>)>(&written[..written.len() - 1])
        .is_err());
    assert!(!encodes_map(&written[..written.len() - 1]));
}

#[test]
fn new_downloader_holds_nothing() {
    let d = MapDownloader::new();
    assert_eq!(d.progress(), (0, 0));
    assert!(d.get_exist_chunk_id().is_empty());
    assert!(d.is_complete());
    // no bytes are no map
    assert_eq!(d.try_build_map(), None);
}

#[test]
fn complete_download_of_no_map_is_not_done() {
    let mut d = MapDownloader::new();
    assert!(!d.load_chunk(MapChunk { chunk_index: 0, total_chunks: 1, bytes: vec![] }));
    assert_eq!(d.progress(), (1, 1));
    let held: HashSet<u32> = [0u32].into_iter().collect();
    assert_eq!(d.get_exist_chunk_id(), held);
    assert!(d.is_complete());
    assert_eq!(d.try_build_map(), None);
    let mut other = MapDownloader::new();
    for c in TileMap::chunk_map(&bytes(3000)) {
        assert!(!other.load_chunk(c));
    }
    assert_eq!(other.progress(), (3, 3));
    assert_eq!(other.try_build_map(), None);
    // the chunk that makes a map of it ends the download
    assert!(d.load_chunk(MapChunk { chunk_index: 0, total_chunks: 1, bytes: encoded_map(2, 2) }));
    assert_eq!(d.try_build_map(), Some(encoded_map(2, 2)));
}

#[test]
fn downloader_reports_progress() {
    let raw = encoded_map(30, 20);
    let chunks = TileMap::chunk_map(&raw);
    assert_eq!(chunks.len(), 3);
    let mut d = MapDownloader::new();
    assert!(!d.load_chunk(chunks[2].clone()));
    assert_eq!(d.progress(), (1, 3));
    assert!(!d.load_chunk(chunks[2].clone()));
    assert_eq!(d.progress(), (1, 3));
    assert!(!d.load_chunk(chunks[0].clone()));
    assert_eq!(d.progress(), (2, 3));
    let held: HashSet<u32> = [0u32, 2].into_iter().collect();
    assert_eq!(d.get_exist_chunk_id(), held);
    assert_eq!(d.try_build_map(), None);
    assert!(d.load_chunk(chunks[1].clone()));
    assert_eq!(d.progress(), (3, 3));
    assert!(d.is_complete());
}

#[test]
fn chunks_in_any_order_build_the_map() {
    let raw = encoded_map(50, 20);
    let chunks = TileMap::chunk_map(&raw);
    assert_eq!(chunks.len(), 5);
    let orders: [[usize; 5]; 3] = [[0, 1, 2, 3, 4], [4, 3, 2, 1, 0], [3, 0, 4, 2, 1]];
    for order in orders.iter() {
        let mut d = MapDownloader::new();
        for (k, &i) in order.iter().enumerate() {
            let done = d.load_chunk(chunks[i].clone());
            assert_eq!(done, k == 4);
            if k < 4 {
                assert_eq!(d.try_build_map(), None);
            }
        }
        assert_eq!(d.try_build_map(), Some(raw.clone()));
    }
}

#[test]
fn download_resumes_from_the_held_chunks() {
    let raw = encoded_map(60, 24);
    let chunks = TileMap::chunk_map(&raw);
    assert_eq!(chunks.len(), 6);
    let mut d = MapDownloader::new();
    // the first answer loses every second chunk
    for c in missing_chunks(&chunks, &d.get_exist_chunk_id()).into_iter().step_by(2) {
        d.load_chunk(c);
    }
    assert_eq!(d.progress(), (3, 6));
    let second = missing_chunks(&chunks, &d.get_exist_chunk_id());
    assert_eq!(second.iter().map(|c| c.chunk_index).collect::<Vec<u32>>(), vec![1, 3, 5]);
    for c in second {
        d.load_chunk(c);
    }
    assert_eq!(d.try_build_map(), Some(raw));
}

#[test]
fn chunk_beyond_the_count_keeps_the_map_incomplete() {
    let raw = encoded_map(40, 10);
    let chunks = TileMap::chunk_map(&raw);
    assert_eq!(chunks.len(), 2);
    let mut d = MapDownloader::new();
    assert!(!d.load_chunk(chunks[0].clone()));
    assert!(!d.load_chunk(MapChunk { chunk_index: 5, total_chunks: 2, bytes: vec![2] }));
    // two chunks are held, but not the two of the map
    assert_eq!(d.progress(), (2, 2));
    assert_eq!(d.try_build_map(), None);
    assert!(!d.load_chunk(chunks[1].clone()));
    assert_eq!(d.try_build_map(), None);
}

#[test]
fn last_count_of_chunks_counts() {
    let mut d = MapDownloader::new();
    assert!(!d.load_chunk(MapChunk { chunk_index: 0, total_chunks: 2, bytes: vec![1, 2] }));
    assert!(d.load_chunk(MapChunk { chunk_index: 0, total_chunks: 1, bytes: encoded_map(3, 1) }));
    assert_eq!(d.try_build_map(), Some(encoded_map(3, 1)));
}
