//! The pieces of the map distribution protocol: the chunks of the encoded
//! map, and the client's record of the chunks that it holds.
use crate::bytes::append;
use crate::bytes::copy_range;
use crate::config::MAP_CHUNK_SIZE;
use crate::encoding::encodes_map;
use crate::encoding::is_map_encoding;
use crate::game::player::Player;
use crate::game::state::DiffView;
use crate::game::state::Direction;
use crate::game::state::GameState;
use crate::game::state::GameStateDiff;
use crate::game::state::World;
use crate::transport::chunk_payload;
use crate::transport::chunk_start;
use crate::transport::lemma_chunk_bounds;
use std::collections::HashMap;
use std::collections::HashSet;
use vstd::prelude::*;

verus! {

/// One piece of the encoded map.
#[derive(Debug)]
pub struct MapChunk {
    pub chunk_index: u32,
    pub total_chunks: u32,
    pub bytes: Vec<u8>,
}

/// The mathematical content of a [`MapChunk`].
pub ghost struct MapChunkView {
    pub chunk_index: u32,
    pub total_chunks: u32,
    pub bytes: Seq<u8>,
}

impl View for MapChunk {
    type V = MapChunkView;

    open spec fn view(&self) -> MapChunkView {
        MapChunkView {
            chunk_index: self.chunk_index,
            total_chunks: self.total_chunks,
            bytes: self.bytes@,
        }
    }
}

impl Clone for MapChunk {
    fn clone(&self) -> (c: Self)
        ensures
            c@ == self@,
    {
        let bytes = copy_range(self.bytes.as_slice(), 0, self.bytes.len());
        assert(self.bytes@.subrange(0, self.bytes@.len() as int) =~= self.bytes@);
        MapChunk { chunk_index: self.chunk_index, total_chunks: self.total_chunks, bytes }
    }
}

/// The contents of a list of chunks.
pub open spec fn chunks_view(chunks: Seq<MapChunk>) -> Seq<MapChunkView> {
    Seq::new(chunks.len(), |i: int| chunks[i]@)
}

/// Number of chunks of an encoded map of `len` bytes.
pub open spec fn map_chunk_count(len: nat) -> nat {
    ((len + MAP_CHUNK_SIZE - 1) / (MAP_CHUNK_SIZE as int)) as nat
}

/// Chunk `i` of an encoded map.
pub open spec fn map_chunk(encoded: Seq<u8>, i: int) -> MapChunkView {
    MapChunkView {
        chunk_index: i as u32,
        total_chunks: map_chunk_count(encoded.len()) as u32,
        bytes: chunk_payload(encoded, MAP_CHUNK_SIZE as nat, i),
    }
}

/// The chunks of an encoded map, in order.
pub open spec fn map_chunks(encoded: Seq<u8>) -> Seq<MapChunkView> {
    Seq::new(map_chunk_count(encoded.len()), |i: int| map_chunk(encoded, i))
}

/// The chunks of a list that the client does not hold yet, in the order of
/// the list.
pub open spec fn unheld(chunks: Seq<MapChunkView>, held: Set<u32>) -> Seq<MapChunkView>
    decreases chunks.len(),
{
    if chunks.len() == 0 {
        Seq::empty()
    } else if held.contains(chunks.last().chunk_index) {
        unheld(chunks.drop_last(), held)
    } else {
        unheld(chunks.drop_last(), held).push(chunks.last())
    }
}

/// The answer to a client that announces the chunks it holds: the chunks
/// that it does not hold, in order.
pub fn missing_chunks(chunks: &Vec<MapChunk>, held: &HashSet<u32>) -> (out: Vec<MapChunk>)
    ensures
        chunks_view(out@) == unheld(chunks_view(chunks@), held@),
{
    broadcast use vstd::std_specs::hash::group_hash_axioms;

    let ghost all = chunks_view(chunks@);
    let mut out: Vec<MapChunk> = Vec::new();
    let mut i: usize = 0;
    assert(chunks_view(out@) =~= unheld(all.take(0), held@));
    while i < chunks.len()
        invariant
            i <= chunks@.len(),
            all == chunks_view(chunks@),
            chunks_view(out@) == unheld(all.take(i as int), held@),
        decreases chunks@.len() - i,
    {
        proof {
            assert(all.take(i + 1).drop_last() =~= all.take(i as int));
            assert(all.take(i + 1).last() == chunks@[i as int]@);
        }
        if !held.contains(&chunks[i].chunk_index) {
            let ghost before = chunks_view(out@);
            let c = chunks[i].clone();
            out.push(c);
            assert(chunks_view(out@) =~= before.push(chunks@[i as int]@));
        }
        i += 1;
    }
    assert(all.take(all.len() as int) =~= all);
    out
}

/// A chunk is in the answer exactly if it is in the list and the client
/// does not hold its index.
pub proof fn lemma_unheld_contains(chunks: Seq<MapChunkView>, held: Set<u32>, c: MapChunkView)
    ensures
        unheld(chunks, held).contains(c) <==> chunks.contains(c) && !held.contains(c.chunk_index),
    decreases chunks.len(),
{
    if chunks.len() > 0 {
        let rest = chunks.drop_last();
        let last = chunks.last();
        lemma_unheld_contains(rest, held, c);
        let r = unheld(rest, held);
        if chunks.contains(c) {
            let i = choose|i: int| 0 <= i < chunks.len() && chunks[i] == c;
            if i < rest.len() {
                assert(rest[i] == c);
            }
        }
        if rest.contains(c) {
            let i = choose|i: int| 0 <= i < rest.len() && rest[i] == c;
            assert(chunks[i] == c);
        }
        assert(chunks[chunks.len() - 1] == last);
        if !held.contains(last.chunk_index) {
            let u = r.push(last);
            if u.contains(c) {
                let i = choose|i: int| 0 <= i < u.len() && u[i] == c;
                if i < r.len() {
                    assert(r[i] == c);
                }
            }
            if r.contains(c) {
                let i = choose|i: int| 0 <= i < r.len() && r[i] == c;
                assert(u[i] == c);
            }
            assert(u[r.len() as int] == last);
        }
    }
}

/// The answer to a client that holds the chunks `held` of an encoded map
/// carries exactly the indices of the map's chunks that are not in `held`.
pub proof fn lemma_answer_is_complement(encoded: Seq<u8>, held: Set<u32>, k: u32)
    requires
        map_chunk_count(encoded.len()) <= u32::MAX,
    ensures
        (exists|c: MapChunkView|
            unheld(map_chunks(encoded), held).contains(c) && c.chunk_index == k) <==> (k
            < map_chunk_count(encoded.len()) && !held.contains(k)),
{
    let all = map_chunks(encoded);
    if k < map_chunk_count(encoded.len()) && !held.contains(k) {
        let c = map_chunk(encoded, k as int);
        assert(all[k as int] == c);
        assert(all.contains(c));
        lemma_unheld_contains(all, held, c);
        assert(unheld(all, held).contains(c) && c.chunk_index == k);
    }
    if exists|c: MapChunkView| unheld(all, held).contains(c) && c.chunk_index == k {
        let c = choose|c: MapChunkView| unheld(all, held).contains(c) && c.chunk_index == k;
        lemma_unheld_contains(all, held, c);
        let i = choose|i: int| 0 <= i < all.len() && all[i] == c;
        assert(c == map_chunk(encoded, i));
    }
}

/// The chunks `0`, .., `n - 1` of a record, one after the other.
pub open spec fn assembled(chunks: Map<u32, Seq<u8>>, n: nat) -> Seq<u8>
    decreases n,
{
    if n == 0 {
        Seq::empty()
    } else {
        assembled(chunks, (n - 1) as nat) + chunks[(n - 1) as u32]
    }
}

/// The client's record of the map chunks that have arrived.
#[derive(Debug)]
pub struct MapDownloader {
    /// Number of chunks of the map, as the last chunk that arrived said.
    pub total_chunks: u32,
    /// The bytes of the chunks that have arrived, by index.
    pub received: HashMap<u32, Vec<u8>>,
}

impl MapDownloader {
    /// The bytes of the chunks that have arrived, by index.
    pub open spec fn chunks(&self) -> Map<u32, Seq<u8>> {
        Map::new(|i: u32| self.received@.contains_key(i), |i: u32| self.received@[i]@)
    }

    /// Every chunk of the map has arrived, and nothing else.
    pub open spec fn complete(&self) -> bool {
        &&& self.chunks().dom().len() == self.total_chunks
        &&& forall|i: u32| i < self.total_chunks ==> self.chunks().contains_key(i)
    }

    /// A map can be built: every chunk has arrived, and the chunks put
    /// together are the encoded form of a map.
    pub open spec fn built(&self) -> bool {
        self.complete() && is_map_encoding(assembled(self.chunks(), self.total_chunks as nat))
    }

    /// A record with no chunk.
    pub fn new() -> (d: Self)
        ensures
            d.total_chunks == 0,
            d.chunks() == Map::<u32, Seq<u8>>::empty(),
    {
        let d = MapDownloader { total_chunks: 0, received: HashMap::new() };
        assert(d.chunks() =~= Map::<u32, Seq<u8>>::empty());
        d
    }

    /// How many chunks have arrived, and how many the map has.
    pub fn progress(&self) -> (p: (usize, usize))
        ensures
            p.0 == self.chunks().dom().len(),
            p.1 == self.total_chunks,
    {
        broadcast use vstd::std_specs::hash::group_hash_axioms;

        assert(self.chunks().dom() =~= self.received@.dom());
        (self.received.len(), self.total_chunks as usize)
    }

    /// The indices of the chunks that have arrived.
    pub fn get_exist_chunk_id(&self) -> (ids: HashSet<u32>)
        ensures
            ids@ == self.chunks().dom(),
    {
        broadcast use vstd::std_specs::hash::group_hash_axioms;

        let mut ids: HashSet<u32> = HashSet::new();
        let keys = crate::ids::sorted_keys(&self.received);
        let mut i: usize = 0;
        while i < keys.len()
            invariant
                i <= keys@.len(),
                ids@ == keys@.take(i as int).to_set(),
            decreases keys@.len() - i,
        {
            ids.insert(keys[i]);
            proof {
                let t = keys@.take(i as int);
                let t1 = keys@.take(i + 1);
                assert(t1 =~= t.push(keys@[i as int]));
                assert forall|x: u32| t1.to_set().contains(x) <==> t.to_set().insert(
                    keys@[i as int],
                ).contains(x) by {
                    if t1.to_set().contains(x) {
                        let j = choose|j: int| 0 <= j < t1.len() && t1[j] == x;
                        if j < t.len() {
                            assert(t[j] == x);
                        }
                    }
                    if t.to_set().contains(x) {
                        let j = choose|j: int| 0 <= j < t.len() && t[j] == x;
                        assert(t1[j] == x);
                    }
                    if x == keys@[i as int] {
                        assert(t1[i as int] == x);
                    }
                }
                assert(ids@ =~= t1.to_set());
            }
            i += 1;
        }
        assert(keys@.take(keys@.len() as int) =~= keys@);
        assert(self.chunks().dom() =~= self.received@.dom());
        ids
    }

    /// Takes in a chunk: its bytes are recorded under its index, over what
    /// was there, and its count of chunks becomes that of the map. Says
    /// whether a map can be built now: every chunk is there, and the chunks
    /// put together are the encoded form of a map.
    pub fn load_chunk(&mut self, chunk: MapChunk) -> (done: bool)
        ensures
            final(self).total_chunks == chunk.total_chunks,
            final(self).chunks() == old(self).chunks().insert(chunk.chunk_index, chunk.bytes@),
            done == final(self).built(),
    {
        broadcast use vstd::std_specs::hash::group_hash_axioms;

        self.total_chunks = chunk.total_chunks;
        self.received.insert(chunk.chunk_index, chunk.bytes);
        assert(self.chunks() =~= old(self).chunks().insert(chunk.chunk_index, chunk.bytes@));
        self.try_build_map().is_some()
    }

    /// Whether every chunk of the map has arrived, and nothing else.
    pub fn is_complete(&self) -> (b: bool)
        ensures
            b == self.complete(),
    {
        broadcast use vstd::std_specs::hash::group_hash_axioms;

        assert(self.chunks().dom() =~= self.received@.dom());
        if self.received.len() != self.total_chunks as usize {
            return false;
        }
        let mut i: u32 = 0;
        while i < self.total_chunks
            invariant
                i <= self.total_chunks,
                forall|j: u32| j < i ==> self.chunks().contains_key(j),
            decreases self.total_chunks - i,
        {
            if !self.received.contains_key(&i) {
                assert(!self.chunks().contains_key(i));
                return false;
            }
            i += 1;
        }
        true
    }

    /// The encoded map, once a map can be built: the chunks one after the
    /// other in the order of their indices. There is none while a chunk is
    /// missing, nor where the chunks put together are not the encoded form
    /// of a map.
    pub fn try_build_map(&self) -> (r: Option<Vec<u8>>)
        ensures
            r is Some <==> self.built(),
            r matches Some(bytes) ==> bytes@ == assembled(
                self.chunks(),
                self.total_chunks as nat,
            ),
    {
        broadcast use vstd::std_specs::hash::group_hash_axioms;

        if !self.is_complete() {
            return None;
        }
        let mut full: Vec<u8> = Vec::new();
        let mut i: u32 = 0;
        while i < self.total_chunks
            invariant
                i <= self.total_chunks,
                self.complete(),
                full@ == assembled(self.chunks(), i as nat),
            decreases self.total_chunks - i,
        {
            assert(self.chunks().contains_key(i));
            match self.received.get(&i) {
                Some(part) => {
                    append(&mut full, part.as_slice());
                },
                None => {},
            }
            i += 1;
        }
        if encodes_map(full.as_slice()) {
            Some(full)
        } else {
            None
        }
    }
}

/// The chunks of an encoded map, put together in the order of their
/// indices, are the encoded map.
pub proof fn lemma_map_chunks_assemble(encoded: Seq<u8>, chunks: Map<u32, Seq<u8>>)
    requires
        map_chunk_count(encoded.len()) <= u32::MAX,
        forall|i: u32|
            i < map_chunk_count(encoded.len()) ==> #[trigger] chunks[i] == map_chunk(
                encoded,
                i as int,
            ).bytes,
    ensures
        assembled(chunks, map_chunk_count(encoded.len())) == encoded,
{
    let n = map_chunk_count(encoded.len());
    lemma_assembled_prefix(encoded, chunks, n);
    assert(chunk_start(encoded.len(), MAP_CHUNK_SIZE as nat, n as int) == encoded.len()) by {
        lemma_chunk_bounds(encoded.len(), MAP_CHUNK_SIZE as nat, n as int);
    }
    assert(encoded.subrange(0, encoded.len() as int) =~= encoded);
}

proof fn lemma_assembled_prefix(encoded: Seq<u8>, chunks: Map<u32, Seq<u8>>, k: nat)
    requires
        map_chunk_count(encoded.len()) <= u32::MAX,
        k <= map_chunk_count(encoded.len()),
        forall|i: u32|
            i < map_chunk_count(encoded.len()) ==> #[trigger] chunks[i] == map_chunk(
                encoded,
                i as int,
            ).bytes,
    ensures
        assembled(chunks, k) == encoded.subrange(
            0,
            chunk_start(encoded.len(), MAP_CHUNK_SIZE as nat, k as int),
        ),
    decreases k,
{
    lemma_chunk_bounds(encoded.len(), MAP_CHUNK_SIZE as nat, 0);
    if k == 0 {
        assert(assembled(chunks, 0) =~= encoded.subrange(0, 0));
    } else {
        lemma_assembled_prefix(encoded, chunks, (k - 1) as nat);
        lemma_chunk_bounds(encoded.len(), MAP_CHUNK_SIZE as nat, k - 1);
        let i = (k - 1) as u32;
        assert(chunks[i] == map_chunk(encoded, i as int).bytes);
        assert(encoded.subrange(0, chunk_start(encoded.len(), MAP_CHUNK_SIZE as nat, k - 1))
            + chunk_payload(encoded, MAP_CHUNK_SIZE as nat, k - 1) =~= encoded.subrange(
            0,
            chunk_start(encoded.len(), MAP_CHUNK_SIZE as nat, k as int),
        ));
    }
}

/// The chunks that a client holds after it has taken in the first `k`
/// chunks of a list, each over what it held under that index.
pub open spec fn loaded(held: Map<u32, Seq<u8>>, incoming: Seq<MapChunkView>, k: nat) -> Map<
    u32,
    Seq<u8>,
>
    decreases k,
{
    if k == 0 {
        held
    } else {
        loaded(held, incoming, (k - 1) as nat).insert(
            incoming[k - 1].chunk_index,
            incoming[k - 1].bytes,
        )
    }
}

proof fn lemma_loaded(
    held: Map<u32, Seq<u8>>,
    incoming: Seq<MapChunkView>,
    k: nat,
    i: u32,
    bytes: Seq<u8>,
)
    requires
        k <= incoming.len(),
        forall|j: int|
            0 <= j < k && (#[trigger] incoming[j]).chunk_index == i ==> incoming[j].bytes == bytes,
    ensures
        loaded(held, incoming, k).contains_key(i) <==> held.contains_key(i) || exists|j: int|
            0 <= j < k && (#[trigger] incoming[j]).chunk_index == i,
        (forall|j: int| 0 <= j < k ==> (#[trigger] incoming[j]).chunk_index != i) ==> loaded(
            held,
            incoming,
            k,
        )[i] == held[i],
        (exists|j: int| 0 <= j < k && (#[trigger] incoming[j]).chunk_index == i) ==> loaded(
            held,
            incoming,
            k,
        )[i] == bytes,
    decreases k,
{
    if k > 0 {
        lemma_loaded(held, incoming, (k - 1) as nat, i, bytes);
        if incoming[k - 1].chunk_index == i {
            assert(0 <= k - 1 < k && incoming[k - 1].chunk_index == i);
        } else {
            if exists|j: int| 0 <= j < k && (#[trigger] incoming[j]).chunk_index == i {
                let j = choose|j: int| 0 <= j < k && (#[trigger] incoming[j]).chunk_index == i;
                assert(0 <= j < k - 1 && incoming[j].chunk_index == i);
            }
        }
    }
}

/// The download can be taken up again from any chunks of the map that the
/// client holds: with the server's answer to them taken in, the client
/// holds every chunk, and the chunks put together are the encoded map.
pub proof fn lemma_answer_completes_the_map(encoded: Seq<u8>, held: Map<u32, Seq<u8>>)
    requires
        map_chunk_count(encoded.len()) <= u32::MAX,
        forall|i: u32|
            held.contains_key(i) ==> i < map_chunk_count(encoded.len()) && #[trigger] held[i]
                == map_chunk(encoded, i as int).bytes,
    ensures
        ({
            let answer = unheld(map_chunks(encoded), held.dom());
            let all = loaded(held, answer, answer.len());
            &&& forall|i: u32| all.contains_key(i) <==> i < map_chunk_count(encoded.len())
            &&& assembled(all, map_chunk_count(encoded.len())) == encoded
        }),
{
    let n = map_chunk_count(encoded.len());
    let answer = unheld(map_chunks(encoded), held.dom());
    let all = loaded(held, answer, answer.len());
    assert forall|j: int| 0 <= j < answer.len() implies (#[trigger] answer[j]).chunk_index < n
        && answer[j] == map_chunk(encoded, answer[j].chunk_index as int) && !held.contains_key(
        answer[j].chunk_index,
    ) by {
        let c = answer[j];
        assert(answer.contains(c));
        lemma_unheld_contains(map_chunks(encoded), held.dom(), c);
        let t = choose|t: int| 0 <= t < map_chunks(encoded).len() && map_chunks(encoded)[t] == c;
        assert(c == map_chunk(encoded, t));
    }
    assert forall|i: u32| all.contains_key(i) <==> i < n by {
        lemma_loaded(held, answer, answer.len(), i, map_chunk(encoded, i as int).bytes);
        if i < n && !held.contains_key(i) {
            let c = map_chunk(encoded, i as int);
            assert(map_chunks(encoded)[i as int] == c);
            assert(map_chunks(encoded).contains(c));
            lemma_unheld_contains(map_chunks(encoded), held.dom(), c);
            let j = choose|j: int| 0 <= j < answer.len() && answer[j] == c;
            assert(answer[j].chunk_index == i);
        }
    }
    assert forall|i: u32| i < n implies #[trigger] all[i] == map_chunk(encoded, i as int).bytes by {
        lemma_loaded(held, answer, answer.len(), i, map_chunk(encoded, i as int).bytes);
        if held.contains_key(i) {
            assert(held[i] == map_chunk(encoded, i as int).bytes);
        } else {
            let c = map_chunk(encoded, i as int);
            assert(map_chunks(encoded)[i as int] == c);
            assert(map_chunks(encoded).contains(c));
            lemma_unheld_contains(map_chunks(encoded), held.dom(), c);
            let j = choose|j: int| 0 <= j < answer.len() && answer[j] == c;
            assert(answer[j].chunk_index == i);
        }
    }
    lemma_map_chunks_assemble(encoded, all);
}

/// What a client tells the server.
#[derive(Debug)]
pub enum ClientMessage {
    /// The client joins the game.
    Init,
    /// The client asks for the map, and says which chunks it holds.
    RequestMapChunks(HashSet<u32>),
    /// The client leaves.
    Quit,
    /// The client's player shall take a step.
    Move(Direction),
    /// The client's player shall shoot.
    Shoot,
}

/// What the server tells a client.
#[derive(Debug)]
pub enum ServerMessage {
    /// The client's own player.
    InitPlayer(Player),
    /// One chunk of the map.
    MapChunk(MapChunk),
    /// The whole world.
    GameState(GameState),
    /// What has changed of the world for this client.
    GameStateDiff(GameStateDiff),
}

/// The mathematical content of a [`ServerMessage`].
pub ghost enum ServerMessageView {
    InitPlayer(Player),
    MapChunk(MapChunkView),
    GameState(World),
    GameStateDiff(DiffView),
}

impl View for ServerMessage {
    type V = ServerMessageView;

    open spec fn view(&self) -> ServerMessageView {
        match self {
            ServerMessage::InitPlayer(p) => ServerMessageView::InitPlayer(*p),
            ServerMessage::MapChunk(c) => ServerMessageView::MapChunk(c@),
            ServerMessage::GameState(g) => ServerMessageView::GameState(g@),
            ServerMessage::GameStateDiff(d) => ServerMessageView::GameStateDiff(d@),
        }
    }
}

} // verus!
