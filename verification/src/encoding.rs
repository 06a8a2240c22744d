//! The encoded form of a map, as it is sent to the clients: the width and
//! the height as 64-bit numbers, then the number of rows as a 64-bit number
//! and the rows one after the other, each as the number of its tiles, a
//! 64-bit number, and its tiles, a tile as a 32-bit number, 0 for an empty
//! tile and 1 for a wall. All numbers have their least significant byte
//! first. What follows the last row is not looked at.
//!
//! The library does not decode a map. It tells whether bytes are the
//! encoded form of one, so that a download ends with bytes that can be
//! decoded.
use crate::bytes::copy_range;
use vstd::bytes::spec_u32_from_le_bytes;
use vstd::bytes::spec_u64_from_le_bytes;
use vstd::bytes::u32_from_le_bytes;
use vstd::bytes::u64_from_le_bytes;
use vstd::prelude::*;

verus! {

/// Bytes before the first row: width, height and number of rows.
pub const PREAMBLE_LEN: usize = 24;

/// The 64-bit number that stands at `at`.
pub open spec fn u64_at(b: Seq<u8>, at: int) -> int {
    spec_u64_from_le_bytes(b.subrange(at, at + 8)) as int
}

/// The 32-bit number that stands at `at`.
pub open spec fn u32_at(b: Seq<u8>, at: int) -> int {
    spec_u32_from_le_bytes(b.subrange(at, at + 4)) as int
}

/// Where the tile `i` of the row at `at` stands.
pub open spec fn tile_at(at: int, i: int) -> int {
    at + 8 + 4 * i
}

/// Whether a row stands at `at`: the number of its tiles, and as many
/// tiles, each of them 0 or 1, all within the bytes.
pub open spec fn row_at(b: Seq<u8>, at: int) -> bool {
    &&& 0 <= at
    &&& at + 8 <= b.len()
    &&& tile_at(at, u64_at(b, at)) <= b.len()
    &&& forall|i: int| 0 <= i < u64_at(b, at) ==> u32_at(b, #[trigger] tile_at(at, i)) <= 1
}

/// Where the row at `at` ends.
pub open spec fn row_end(b: Seq<u8>, at: int) -> int {
    tile_at(at, u64_at(b, at))
}

/// Whether `rows` rows stand one after the other from `at` on.
pub open spec fn rows_at(b: Seq<u8>, at: int, rows: nat) -> bool
    decreases rows,
{
    if rows == 0 {
        true
    } else {
        row_at(b, at) && rows_at(b, row_end(b, at), (rows - 1) as nat)
    }
}

/// Whether the bytes are the encoded form of a map: width and height,
/// each of a size that the machine can hold, the number of rows, and that
/// many rows.
pub open spec fn is_map_encoding(b: Seq<u8>) -> bool {
    &&& b.len() >= PREAMBLE_LEN
    &&& u64_at(b, 0) <= usize::MAX
    &&& u64_at(b, 8) <= usize::MAX
    &&& rows_at(b, PREAMBLE_LEN as int, u64_at(b, 16) as nat)
}

/// The 64-bit number that stands at `at`.
fn read_u64(bytes: &[u8], at: usize) -> (v: u64)
    requires
        at + 8 <= bytes@.len(),
    ensures
        v == u64_at(bytes@, at as int),
{
    let len = bytes.len();
    let part = copy_range(bytes, at, at + 8);
    u64_from_le_bytes(part.as_slice())
}

/// The 32-bit number that stands at `at`.
fn read_u32(bytes: &[u8], at: usize) -> (v: u32)
    requires
        at + 4 <= bytes@.len(),
    ensures
        v == u32_at(bytes@, at as int),
{
    let len = bytes.len();
    let part = copy_range(bytes, at, at + 4);
    u32_from_le_bytes(part.as_slice())
}

/// Whether a row stands at `at`, and where it ends.
fn check_row(bytes: &[u8], at: usize) -> (r: Option<usize>)
    requires
        at <= bytes@.len(),
    ensures
        r is Some <==> row_at(bytes@, at as int),
        r matches Some(end) ==> end == row_end(bytes@, at as int) && at + 8 <= end
            <= bytes@.len(),
{
    let len = bytes.len();
    if len - at < 8 {
        return None;
    }
    let tiles = read_u64(bytes, at);
    let room = (len - at - 8) / 4;
    if tiles > room as u64 {
        return None;
    }
    let tiles = tiles as usize;
    let mut i: usize = 0;
    while i < tiles
        invariant
            i <= tiles,
            len == bytes@.len(),
            at + 8 + 4 * tiles <= len,
            tiles == u64_at(bytes@, at as int),
            forall|j: int| 0 <= j < i ==> u32_at(bytes@, #[trigger] tile_at(at as int, j)) <= 1,
        decreases tiles - i,
    {
        if read_u32(bytes, at + 8 + 4 * i) > 1 {
            assert(u32_at(bytes@, tile_at(at as int, i as int)) > 1);
            return None;
        }
        i += 1;
    }
    Some(at + 8 + 4 * tiles)
}

/// Whether the bytes are the encoded form of a map.
#[verifier::loop_isolation(false)]
pub fn encodes_map(bytes: &[u8]) -> (ok: bool)
    ensures
        ok == is_map_encoding(bytes@),
{
    let len = bytes.len();
    if len < PREAMBLE_LEN {
        return false;
    }
    let width = read_u64(bytes, 0);
    let height = read_u64(bytes, 8);
    if width > usize::MAX as u64 || height > usize::MAX as u64 {
        return false;
    }
    let rows = read_u64(bytes, 16);
    let mut at: usize = PREAMBLE_LEN;
    let mut done: u64 = 0;
    while done < rows
        invariant
            done <= rows,
            PREAMBLE_LEN <= at <= bytes@.len(),
            rows_at(bytes@, PREAMBLE_LEN as int, rows as nat) == rows_at(
                bytes@,
                at as int,
                (rows - done) as nat,
            ),
        decreases rows - done,
    {
        let ghost left = (rows - done) as nat;
        assert(rows_at(bytes@, at as int, left) == (row_at(bytes@, at as int) && rows_at(
            bytes@,
            row_end(bytes@, at as int),
            (left - 1) as nat,
        )));
        match check_row(bytes, at) {
            Some(end) => {
                at = end;
            },
            None => {
                return false;
            },
        }
        done += 1;
    }
    true
}

} // verus!
