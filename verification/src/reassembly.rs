//! The receiving side of the transport: chunks are collected per message
//! id until a message is complete, and messages that stay incomplete for
//! too long are given up.
use crate::bytes::append;
use crate::config::FRAGMENT_TIMEOUT;
use crate::transport::can_fragment;
use crate::transport::chunk_count;
use crate::transport::chunk_header;
use crate::transport::chunk_payload;
use crate::transport::chunk_start;
use crate::transport::lemma_chunk_bounds;
use crate::transport::parse_packet;
use crate::transport::parse_spec;
use crate::transport::ChunkHeader;
use std::collections::HashMap;
use vstd::prelude::*;
use vstd::std_specs::iter::IteratorSpec;

verus! {

/// A message of which some chunks have arrived.
#[derive(Debug)]
pub struct Pending {
    /// One cell for each chunk of the message, filled once it has arrived.
    pub slots: Vec<Option<Vec<u8>>>,
    /// When the first chunk arrived.
    pub started: u64,
}

/// The mathematical content of a [`Pending`].
pub ghost struct PendingView {
    pub slots: Seq<Option<Seq<u8>>>,
    pub started: u64,
}

/// The content of one cell.
pub open spec fn cell_view(cell: Option<Vec<u8>>) -> Option<Seq<u8>> {
    match cell {
        Some(bytes) => Some(bytes@),
        None => None,
    }
}

/// The contents of the cells.
pub open spec fn cells_view(cells: Seq<Option<Vec<u8>>>) -> Seq<Option<Seq<u8>>> {
    Seq::new(cells.len(), |i: int| cell_view(cells[i]))
}

impl View for Pending {
    type V = PendingView;

    open spec fn view(&self) -> PendingView {
        PendingView { slots: cells_view(self.slots@), started: self.started }
    }
}

/// The messages that are being put together, by message id.
#[derive(Debug)]
pub struct Reassembler {
    pub entries: HashMap<u64, Pending>,
}

impl View for Reassembler {
    type V = Map<u64, PendingView>;

    open spec fn view(&self) -> Map<u64, PendingView> {
        Map::new(|id: u64| self.entries@.contains_key(id), |id: u64| self.entries@[id]@)
    }
}

/// What became of a chunk that was handed to a [`Reassembler`].
#[derive(Debug)]
pub enum Delivery {
    /// It was the last one missing: here is the whole message.
    Complete(Vec<u8>),
    /// It was kept; the message is still incomplete.
    Stored,
    /// Its index is not below the number of chunks that its header
    /// announces, or that number is not the one of its message: it was
    /// dropped.
    Rejected,
}

/// The mathematical content of a [`Delivery`].
pub ghost enum Outcome {
    Complete(Seq<u8>),
    Stored,
    Rejected,
}

impl View for Delivery {
    type V = Outcome;

    open spec fn view(&self) -> Outcome {
        match self {
            Delivery::Complete(bytes) => Outcome::Complete(bytes@),
            Delivery::Stored => Outcome::Stored,
            Delivery::Rejected => Outcome::Rejected,
        }
    }
}

/// What became of a datagram that was handed to a [`Reassembler`].
#[derive(Debug)]
pub enum Received {
    /// The datagram completed a message: here are its bytes.
    Message(Vec<u8>),
    /// The datagram was a chunk of a message that is still incomplete.
    Incomplete,
    /// The datagram was a chunk that was out of range.
    Rejected,
    /// The datagram is too short for a chunk: it is a whole message that
    /// was sent without a header, handed back as it came.
    Unframed(Vec<u8>),
}

/// An entry is stale once more than `FRAGMENT_TIMEOUT` milliseconds have
/// passed since its first chunk.
pub open spec fn stale(p: PendingView, now: u64) -> bool {
    now - p.started > FRAGMENT_TIMEOUT
}

/// The entries that are not stale at `now`.
pub open spec fn purge_spec(m: Map<u64, PendingView>, now: u64) -> Map<u64, PendingView> {
    Map::new(|id: u64| m.contains_key(id) && !stale(m[id], now), |id: u64| m[id])
}

/// `n` empty cells.
pub open spec fn empty_cells(n: nat) -> Seq<Option<Seq<u8>>> {
    Seq::new(n, |i: int| None)
}

/// Every cell is filled.
pub open spec fn all_filled(cells: Seq<Option<Seq<u8>>>) -> bool {
    forall|i: int| 0 <= i < cells.len() ==> (#[trigger] cells[i]) is Some
}

/// The bytes of a cell; none for an empty one.
pub open spec fn cell_bytes(cell: Option<Seq<u8>>) -> Seq<u8> {
    match cell {
        Some(bytes) => bytes,
        None => Seq::empty(),
    }
}

/// The bytes of the cells, one after the other in index order.
pub open spec fn joined(cells: Seq<Option<Seq<u8>>>) -> Seq<u8>
    decreases cells.len(),
{
    if cells.len() == 0 {
        Seq::empty()
    } else {
        joined(cells.drop_last()) + cell_bytes(cells.last())
    }
}

/// The entry that a chunk goes into: the one that is there for its message
/// id, or else a new one with as many cells as the header announces.
pub open spec fn entry_for(m: Map<u64, PendingView>, h: ChunkHeader, now: u64) -> PendingView {
    if m.contains_key(h.message_id) {
        m[h.message_id]
    } else {
        PendingView { slots: empty_cells(h.total_chunks as nat), started: now }
    }
}

/// Whether a chunk is turned away from the entry that it would go into:
/// its index is not below the number of chunks that its own header
/// announces, or that number is not the number of cells of the entry.
pub open spec fn out_of_range(h: ChunkHeader, entry: PendingView) -> bool {
    h.chunk_index >= h.total_chunks || entry.slots.len() != h.total_chunks
}

/// What handing in a chunk does: the registry afterwards, and what became
/// of the chunk. Stale entries are dropped first. A chunk that is out of
/// range changes nothing more. Else it fills its cell, over what the cell
/// held; when that fills the last empty cell, the message is handed out and
/// its entry dropped.
pub open spec fn insert_spec(m: Map<u64, PendingView>, h: ChunkHeader, payload: Seq<u8>, now: u64) -> (
    Map<u64, PendingView>,
    Outcome,
) {
    let live = purge_spec(m, now);
    let entry = entry_for(live, h, now);
    if out_of_range(h, entry) {
        (live, Outcome::Rejected)
    } else {
        let cells = entry.slots.update(h.chunk_index as int, Some(payload));
        if all_filled(cells) {
            (live.remove(h.message_id), Outcome::Complete(joined(cells)))
        } else {
            (
                live.insert(h.message_id, PendingView { slots: cells, started: entry.started }),
                Outcome::Stored,
            )
        }
    }
}

/// The ids of the entries, in no particular order.
fn entry_ids(entries: &HashMap<u64, Pending>) -> (v: Vec<u64>)
    ensures
        v@.to_set() == entries@.dom(),
{
    broadcast use vstd::std_specs::hash::group_hash_axioms;

    let mut ids: Vec<u64> = Vec::new();
    for k in it: entries.keys()
        invariant
            it.seq() == entries.keys().remaining(),
            ids@ == it.seq().unref().take(it.index()),
    {
        ids.push(*k);
    }
    assert(ids@ == entries.keys().remaining().unref());
    ids
}

/// `n` empty cells.
fn new_cells(n: u32) -> (cells: Vec<Option<Vec<u8>>>)
    ensures
        cells_view(cells@) == empty_cells(n as nat),
        cells@.len() == n,
{
    let mut cells: Vec<Option<Vec<u8>>> = Vec::new();
    let mut i: u32 = 0;
    while i < n
        invariant
            i <= n,
            cells@.len() == i,
            forall|j: int| 0 <= j < i ==> (#[trigger] cells@[j]) is None,
        decreases n - i,
    {
        cells.push(None);
        i += 1;
    }
    assert(cells_view(cells@) =~= empty_cells(n as nat));
    cells
}

/// Whether every cell is filled.
fn is_complete(cells: &Vec<Option<Vec<u8>>>) -> (b: bool)
    ensures
        b == all_filled(cells_view(cells@)),
{
    let mut i: usize = 0;
    while i < cells.len()
        invariant
            i <= cells@.len(),
            forall|j: int| 0 <= j < i ==> (#[trigger] cells_view(cells@)[j]) is Some,
        decreases cells@.len() - i,
    {
        if cells[i].is_none() {
            assert(cells_view(cells@)[i as int] is None);
            return false;
        }
        i += 1;
    }
    true
}

/// Taking one more cell adds its bytes at the end.
proof fn lemma_joined_take(cells: Seq<Option<Seq<u8>>>, k: int)
    requires
        0 <= k < cells.len(),
    ensures
        joined(cells.take(k + 1)) == joined(cells.take(k)) + cell_bytes(cells[k]),
{
    assert(cells.take(k + 1).drop_last() =~= cells.take(k));
    assert(cells.take(k + 1).last() == cells[k]);
}

/// The bytes of the cells, one after the other.
fn join(cells: &Vec<Option<Vec<u8>>>) -> (out: Vec<u8>)
    ensures
        out@ == joined(cells_view(cells@)),
{
    let ghost view = cells_view(cells@);
    let mut out: Vec<u8> = Vec::new();
    let mut i: usize = 0;
    while i < cells.len()
        invariant
            i <= cells@.len(),
            view == cells_view(cells@),
            out@ == joined(view.take(i as int)),
        decreases cells@.len() - i,
    {
        proof {
            lemma_joined_take(view, i as int);
        }
        match &cells[i] {
            Some(bytes) => {
                append(&mut out, bytes.as_slice());
            },
            None => {
                assert(out@ + Seq::<u8>::empty() =~= out@);
            },
        }
        i += 1;
    }
    assert(view.take(view.len() as int) =~= view);
    out
}

impl Reassembler {
    /// A registry with no entry.
    pub fn new() -> (r: Self)
        ensures
            r@ == Map::<u64, PendingView>::empty(),
    {
        let r = Reassembler { entries: HashMap::new() };
        assert(r@ =~= Map::<u64, PendingView>::empty());
        r
    }

    /// Number of messages that are being put together.
    pub fn len(&self) -> (n: usize)
        ensures
            n == self@.dom().len(),
    {
        broadcast use vstd::std_specs::hash::group_hash_axioms;

        assert(self@.dom() =~= self.entries@.dom());
        self.entries.len()
    }

    /// Drops the entries that are stale at `now`.
    pub fn purge(&mut self, now: u64)
        ensures
            final(self)@ == purge_spec(old(self)@, now),
    {
        broadcast use vstd::std_specs::hash::group_hash_axioms;

        let ids = entry_ids(&self.entries);
        let ghost before = self.entries@;
        let mut i: usize = 0;
        while i < ids.len()
            invariant
                i <= ids@.len(),
                ids@.to_set() == before.dom(),
                forall|id: u64| #[trigger]
                    self.entries@.contains_key(id) <==> (before.contains_key(id) && !(ids@.take(
                        i as int,
                    ).contains(id) && stale(before[id]@, now))),
                forall|id: u64|
                    self.entries@.contains_key(id) ==> #[trigger] self.entries@[id] == before[id],
            decreases ids@.len() - i,
        {
            let id = ids[i];
            let ghost entries_before = self.entries@;
            let is_stale = match self.entries.get(&id) {
                Some(p) => now > p.started && now - p.started > FRAGMENT_TIMEOUT,
                None => false,
            };
            if is_stale {
                self.entries.remove(&id);
            }
            proof {
                let seen = ids@.take(i as int);
                let seen_next = ids@.take(i + 1);
                assert(seen_next =~= seen.push(id));
                assert forall|x: u64| #[trigger]
                    self.entries@.contains_key(x) <==> (before.contains_key(x) && !(
                    seen_next.contains(x) && stale(before[x]@, now))) by {
                    assert(entries_before.contains_key(x) <==> (before.contains_key(x) && !(
                    seen.contains(x) && stale(before[x]@, now))));
                    if seen.contains(x) {
                        let j = choose|j: int| 0 <= j < seen.len() && seen[j] == x;
                        assert(seen_next[j] == x);
                    }
                    if x == id {
                        assert(seen_next[i as int] == x);
                    }
                    if seen_next.contains(x) {
                        let j = choose|j: int| 0 <= j < seen_next.len() && seen_next[j] == x;
                        if j < i {
                            assert(seen[j] == x);
                        }
                    }
                }
            }
            i += 1;
        }
        proof {
            assert(ids@.take(ids@.len() as int) =~= ids@);
            assert forall|id: u64| #[trigger]
                self@.contains_key(id) <==> purge_spec(old(self)@, now).contains_key(id) by {
                if before.contains_key(id) {
                    assert(ids@.to_set().contains(id));
                    assert(ids@.contains(id));
                }
                assert(self.entries@.contains_key(id) <==> (before.contains_key(id) && !(
                ids@.contains(id) && stale(before[id]@, now))));
            }
            assert(self@ =~= purge_spec(old(self)@, now));
        }
    }

    /// Takes in one chunk at time `now`, and says what became of it.
    pub fn insert(&mut self, header: ChunkHeader, payload: Vec<u8>, now: u64) -> (d: Delivery)
        ensures
            (final(self)@, d@) == insert_spec(old(self)@, header, payload@, now),
    {
        broadcast use vstd::std_specs::hash::group_hash_axioms;

        self.purge(now);
        let ghost live = self@;
        let ghost entry = entry_for(live, header, now);
        if header.chunk_index >= header.total_chunks {
            return Delivery::Rejected;
        }
        let existing = self.entries.remove(&header.message_id);
        let was_there = existing.is_some();
        let pending = match existing {
            Some(p) => p,
            None => Pending { slots: new_cells(header.total_chunks), started: now },
        };
        assert(pending@ == entry);
        assert(was_there == live.contains_key(header.message_id));
        let index = header.chunk_index as usize;
        assert(pending.slots@.len() == entry.slots.len());
        if pending.slots.len() != header.total_chunks as usize {
            if was_there {
                self.entries.insert(header.message_id, pending);
            }
            assert(self@ =~= live);
            return Delivery::Rejected;
        }
        let started = pending.started;
        let mut slots = pending.slots;
        let ghost payload_view = payload@;
        slots.set(index, Some(payload));
        let ghost cells = entry.slots.update(header.chunk_index as int, Some(payload_view));
        assert(cells_view(slots@) =~= cells);
        if is_complete(&slots) {
            let bytes = join(&slots);
            assert(self@ =~= live.remove(header.message_id));
            Delivery::Complete(bytes)
        } else {
            self.entries.insert(header.message_id, Pending { slots, started });
            assert(self@ =~= live.insert(
                header.message_id,
                PendingView { slots: cells, started: entry.started },
            ));
            Delivery::Stored
        }
    }

    /// Takes in one datagram at time `now`. A datagram that is a chunk goes
    /// to its message; a shorter one is handed back as a message of its own.
    pub fn receive(&mut self, datagram: &[u8], now: u64) -> (r: Received)
        ensures
            match parse_spec(datagram@) {
                None => {
                    &&& final(self)@ == old(self)@
                    &&& (r matches Received::Unframed(bytes) && bytes@ == datagram@)
                },
                Some((h, payload)) => {
                    let (after, outcome) = insert_spec(old(self)@, h, payload, now);
                    &&& final(self)@ == after
                    &&& match outcome {
                        Outcome::Complete(message) => (r matches Received::Message(bytes)
                            && bytes@ == message),
                        Outcome::Stored => r is Incomplete,
                        Outcome::Rejected => r is Rejected,
                    }
                },
            },
    {
        match parse_packet(datagram) {
            None => {
                let bytes = crate::bytes::copy_range(datagram, 0, datagram.len());
                assert(datagram@.subrange(0, datagram@.len() as int) =~= datagram@);
                Received::Unframed(bytes)
            },
            Some((h, payload)) => {
                match self.insert(h, payload, now) {
                    Delivery::Complete(bytes) => Received::Message(bytes),
                    Delivery::Stored => Received::Incomplete,
                    Delivery::Rejected => Received::Rejected,
                }
            },
        }
    }
}

/// `order` holds each of the indices `0..n` exactly once.
pub open spec fn is_permutation(order: Seq<int>, n: nat) -> bool {
    &&& order.len() == n
    &&& order.no_duplicates()
    &&& forall|k: int| 0 <= k < n ==> 0 <= #[trigger] order[k] < n
    &&& forall|j: int| 0 <= j < n ==> order.contains(j)
}

/// The registry after the chunks `order[0]`, .., `order[k - 1]` of a message
/// have been handed in, the chunk `order[j]` at time `times[j]`.
pub open spec fn registry_after(
    m0: Map<u64, PendingView>,
    id: u64,
    message: Seq<u8>,
    max: nat,
    order: Seq<int>,
    times: Seq<u64>,
    k: nat,
) -> Map<u64, PendingView>
    decreases k,
{
    if k == 0 {
        m0
    } else {
        insert_spec(
            registry_after(m0, id, message, max, order, times, (k - 1) as nat),
            chunk_header(id, message, max, order[k - 1]),
            chunk_payload(message, max, order[k - 1]),
            times[k - 1],
        ).0
    }
}

/// What becomes of the chunk `order[k]` when it is handed in after the
/// chunks before it in `order`.
pub open spec fn outcome_at(
    m0: Map<u64, PendingView>,
    id: u64,
    message: Seq<u8>,
    max: nat,
    order: Seq<int>,
    times: Seq<u64>,
    k: int,
) -> Outcome {
    insert_spec(
        registry_after(m0, id, message, max, order, times, k as nat),
        chunk_header(id, message, max, order[k]),
        chunk_payload(message, max, order[k]),
        times[k],
    ).1
}

/// The cells of a message of which the chunks in `seen` have arrived.
pub open spec fn delivered_cells(message: Seq<u8>, max: nat, seen: Seq<int>) -> Seq<
    Option<Seq<u8>>,
> {
    Seq::new(
        chunk_count(message.len(), max),
        |j: int|
            if seen.contains(j) {
                Some(chunk_payload(message, max, j))
            } else {
                None
            },
    )
}

/// The payloads of all chunks of a message, joined, are the message.
pub proof fn lemma_joined_chunks(message: Seq<u8>, max: nat, cells: Seq<Option<Seq<u8>>>)
    requires
        max > 0,
        cells.len() == chunk_count(message.len(), max),
        forall|j: int|
            0 <= j < cells.len() ==> #[trigger] cells[j] == Some(chunk_payload(message, max, j)),
    ensures
        joined(cells) == message,
{
    lemma_joined_prefix(message, max, cells, cells.len());
    assert(cells.take(cells.len() as int) =~= cells);
    lemma_chunk_bounds(message.len(), max, cells.len() as int);
    assert(message.subrange(0, message.len() as int) =~= message);
}

proof fn lemma_joined_prefix(message: Seq<u8>, max: nat, cells: Seq<Option<Seq<u8>>>, k: nat)
    requires
        max > 0,
        k <= cells.len(),
        forall|j: int|
            0 <= j < cells.len() ==> #[trigger] cells[j] == Some(chunk_payload(message, max, j)),
    ensures
        joined(cells.take(k as int)) == message.subrange(
            0,
            chunk_start(message.len(), max, k as int),
        ),
    decreases k,
{
    lemma_chunk_bounds(message.len(), max, 0);
    if k == 0 {
        assert(joined(cells.take(0)) =~= message.subrange(0, 0));
    } else {
        lemma_joined_prefix(message, max, cells, (k - 1) as nat);
        lemma_joined_take(cells, k - 1);
        lemma_chunk_bounds(message.len(), max, k - 1);
        assert(cells[k - 1] == Some(chunk_payload(message, max, k - 1)));
        assert(message.subrange(0, chunk_start(message.len(), max, k - 1)) + chunk_payload(
            message,
            max,
            k - 1,
        ) =~= message.subrange(0, chunk_start(message.len(), max, k as int)));
    }
}

/// One chunk more: what handing in `order[k]` does to a registry in which
/// exactly the chunks before it in `order` have arrived.
proof fn lemma_next_chunk(
    s: Map<u64, PendingView>,
    id: u64,
    message: Seq<u8>,
    max: nat,
    order: Seq<int>,
    times: Seq<u64>,
    k: int,
)
    requires
        can_fragment(message.len(), max),
        is_permutation(order, chunk_count(message.len(), max)),
        times.len() == order.len(),
        forall|j: int| 0 <= j < times.len() ==> #[trigger] times[j] - times[0] <= FRAGMENT_TIMEOUT,
        0 <= k < order.len(),
        k == 0 ==> !purge_spec(s, times[0]).contains_key(id),
        k > 0 ==> s.contains_key(id) && s[id] == (PendingView {
            slots: delivered_cells(message, max, order.take(k)),
            started: times[0],
        }),
    ensures
        ({
            let r = insert_spec(
                s,
                chunk_header(id, message, max, order[k]),
                chunk_payload(message, max, order[k]),
                times[k],
            );
            if k + 1 < order.len() {
                &&& r.1 == Outcome::Stored
                &&& r.0.contains_key(id)
                &&& r.0[id] == (PendingView {
                    slots: delivered_cells(message, max, order.take(k + 1)),
                    started: times[0],
                })
            } else {
                &&& r.1 == Outcome::Complete(message)
                &&& !r.0.contains_key(id)
            }
        }),
{
    let n = chunk_count(message.len(), max);
    let h = chunk_header(id, message, max, order[k]);
    let payload = chunk_payload(message, max, order[k]);
    let live = purge_spec(s, times[k]);
    let entry = entry_for(live, h, times[k]);
    assert(0 <= order[k] < n);
    assert(h.chunk_index == order[k]);
    assert(h.total_chunks == n);
    let seen = order.take(k);
    let seen_next = order.take(k + 1);
    assert(seen_next =~= seen.push(order[k]));
    if k == 0 {
        assert(entry.slots =~= delivered_cells(message, max, seen)) by {
            assert forall|j: int| 0 <= j < n implies !seen.contains(j) by {}
        }
        assert(entry.started == times[0]);
    } else {
        assert(times[k] - times[0] <= FRAGMENT_TIMEOUT);
        assert(live.contains_key(id));
        assert(entry == s[id]);
    }
    let cells = entry.slots.update(order[k], Some(payload));
    assert(cells =~= delivered_cells(message, max, seen_next)) by {
        assert forall|j: int| 0 <= j < n implies cells[j] == delivered_cells(
            message,
            max,
            seen_next,
        )[j] by {
            if j == order[k] {
                assert(seen_next[k] == j);
            } else {
                if seen.contains(j) {
                    let i = choose|i: int| 0 <= i < seen.len() && seen[i] == j;
                    assert(seen_next[i] == j);
                }
                if seen_next.contains(j) {
                    let i = choose|i: int| 0 <= i < seen_next.len() && seen_next[i] == j;
                    assert(i < k);
                    assert(seen[i] == j);
                }
            }
        }
    }
    if k + 1 < order.len() {
        let missing = order[n - 1];
        assert(!seen_next.contains(missing)) by {
            if seen_next.contains(missing) {
                let i = choose|i: int| 0 <= i < seen_next.len() && seen_next[i] == missing;
                assert(order[i] == order[n - 1]);
            }
        }
        assert(0 <= missing < n);
        assert(cells[missing] is None);
        assert(!all_filled(cells));
    } else {
        assert(seen_next =~= order);
        assert forall|j: int| 0 <= j < cells.len() implies #[trigger] cells[j] == Some(
            chunk_payload(message, max, j),
        ) by {
            assert(order.contains(j));
        }
        assert(all_filled(cells));
        lemma_joined_chunks(message, max, cells);
    }
}

/// The registry in the middle of a message: after `k` chunks, with more to
/// come, every chunk so far was kept and exactly their cells are filled.
proof fn lemma_partial_delivery(
    m0: Map<u64, PendingView>,
    id: u64,
    message: Seq<u8>,
    max: nat,
    order: Seq<int>,
    times: Seq<u64>,
    k: nat,
)
    requires
        can_fragment(message.len(), max),
        is_permutation(order, chunk_count(message.len(), max)),
        times.len() == order.len(),
        forall|j: int| 0 <= j < times.len() ==> #[trigger] times[j] - times[0] <= FRAGMENT_TIMEOUT,
        !purge_spec(m0, times[0]).contains_key(id),
        1 <= k < order.len(),
    ensures
        ({
            let s = registry_after(m0, id, message, max, order, times, k);
            &&& s.contains_key(id)
            &&& s[id] == (PendingView {
                slots: delivered_cells(message, max, order.take(k as int)),
                started: times[0],
            })
        }),
        forall|j: int|
            0 <= j < k ==> #[trigger] outcome_at(m0, id, message, max, order, times, j)
                == Outcome::Stored,
    decreases k,
{
    if k > 1 {
        lemma_partial_delivery(m0, id, message, max, order, times, (k - 1) as nat);
    }
    let before = registry_after(m0, id, message, max, order, times, (k - 1) as nat);
    lemma_next_chunk(before, id, message, max, order, times, k - 1);
    assert(outcome_at(m0, id, message, max, order, times, k - 1) == Outcome::Stored);
}

/// A message that is cut into chunks and whose chunks all arrive, in any
/// order, comes out as it went in: every chunk but the last to arrive is
/// kept, the last one hands out the bytes of the message, and nothing of it
/// stays in the registry. This holds where no entry under the message id is
/// alive when the first chunk arrives, and all chunks arrive within the
/// timeout of the first.
pub proof fn lemma_reassembly_in_any_order(
    m0: Map<u64, PendingView>,
    id: u64,
    message: Seq<u8>,
    max: nat,
    order: Seq<int>,
    times: Seq<u64>,
)
    requires
        can_fragment(message.len(), max),
        is_permutation(order, chunk_count(message.len(), max)),
        times.len() == order.len(),
        forall|j: int| 0 <= j < times.len() ==> #[trigger] times[j] - times[0] <= FRAGMENT_TIMEOUT,
        !purge_spec(m0, times[0]).contains_key(id),
    ensures
        forall|j: int|
            0 <= j < order.len() - 1 ==> #[trigger] outcome_at(m0, id, message, max, order, times, j)
                == Outcome::Stored,
        outcome_at(m0, id, message, max, order, times, order.len() - 1) == Outcome::Complete(
            message,
        ),
        !registry_after(m0, id, message, max, order, times, order.len()).contains_key(id),
{
    let n = order.len();
    assert(n >= 1);
    if n > 1 {
        lemma_partial_delivery(m0, id, message, max, order, times, (n - 1) as nat);
    }
    let before = registry_after(m0, id, message, max, order, times, (n - 1) as nat);
    lemma_next_chunk(before, id, message, max, order, times, n - 1);
}

/// A message that fits one datagram is cut into exactly one chunk, and that
/// chunk, read back and handed to a registry with no live entry under its
/// id, gives the bytes of the message.
pub proof fn lemma_single_chunk_round_trip(
    m0: Map<u64, PendingView>,
    id: u64,
    message: Seq<u8>,
    max: nat,
    now: u64,
)
    requires
        max > 0,
        message.len() <= max,
        !purge_spec(m0, now).contains_key(id),
    ensures
        chunk_count(message.len(), max) == 1,
        chunk_payload(message, max, 0) == message,
        parse_spec(crate::transport::chunk_packet(id, message, max, 0)) == Some(
            (chunk_header(id, message, max, 0), message),
        ),
        insert_spec(m0, chunk_header(id, message, max, 0), message, now).1 == Outcome::Complete(
            message,
        ),
{
    if message.len() > 0 {
        assert((message.len() - 1) / (max as int) == 0) by (nonlinear_arith)
            requires
                0 < message.len() <= max,
        ;
    }
    lemma_chunk_bounds(message.len(), max, 0);
    lemma_chunk_bounds(message.len(), max, 1);
    assert(chunk_payload(message, max, 0) =~= message);
    crate::transport::lemma_parse_packet(chunk_header(id, message, max, 0), message);
    let order = seq![0int];
    let times = seq![now];
    assert(is_permutation(order, 1)) by {
        assert(order[0] == 0);
    }
    lemma_next_chunk(m0, id, message, max, order, times, 0);
}

/// An incomplete message that has gone stale is dropped by the next chunk
/// that arrives, whichever message that chunk belongs to, and nothing of it
/// is seen by a later message under the same id: the registry goes on as if
/// the stale entry had never been there.
pub proof fn lemma_stale_entry_is_forgotten(
    m: Map<u64, PendingView>,
    stale_id: u64,
    h: ChunkHeader,
    payload: Seq<u8>,
    now: u64,
)
    requires
        m.contains_key(stale_id),
        stale(m[stale_id], now),
    ensures
        !purge_spec(m, now).contains_key(stale_id),
        insert_spec(m, h, payload, now) == insert_spec(m.remove(stale_id), h, payload, now),
        h.message_id == stale_id && h.chunk_index < h.total_chunks ==> {
            let r = insert_spec(m, h, payload, now);
            r.0.contains_key(stale_id) ==> r.0[stale_id] == (PendingView {
                slots: empty_cells(h.total_chunks as nat).update(
                    h.chunk_index as int,
                    Some(payload),
                ),
                started: now,
            })
        },
{
    assert(purge_spec(m, now) =~= purge_spec(m.remove(stale_id), now));
}

/// A chunk whose index is not below the number of chunks that its own
/// header announces, or whose header announces another number of chunks
/// than the live entry of its message has cells, is rejected: it changes
/// nothing but what the time does, and no message comes of it.
pub proof fn lemma_out_of_range_is_rejected(
    m: Map<u64, PendingView>,
    h: ChunkHeader,
    payload: Seq<u8>,
    now: u64,
)
    requires
        h.chunk_index >= h.total_chunks || (purge_spec(m, now).contains_key(h.message_id)
            && m[h.message_id].slots.len() != h.total_chunks),
    ensures
        insert_spec(m, h, payload, now) == (purge_spec(m, now), Outcome::Rejected),
        m.contains_key(h.message_id) && !stale(m[h.message_id], now) ==> insert_spec(
            m,
            h,
            payload,
            now,
        ).0[h.message_id] == m[h.message_id],
{
}

/// A chunk that arrives a second time, while its message is incomplete and
/// alive, is kept over itself: the registry is as after the first time.
pub proof fn lemma_redelivery_changes_nothing(
    m: Map<u64, PendingView>,
    h: ChunkHeader,
    payload: Seq<u8>,
    now: u64,
    later: u64,
)
    requires
        insert_spec(m, h, payload, now).1 == Outcome::Stored,
        !stale(insert_spec(m, h, payload, now).0[h.message_id], later),
    ensures
        insert_spec(insert_spec(m, h, payload, now).0, h, payload, later) == (
            purge_spec(insert_spec(m, h, payload, now).0, later),
            Outcome::Stored,
        ),
{
    let once = insert_spec(m, h, payload, now).0;
    let live = purge_spec(once, later);
    let entry = entry_for(live, h, later);
    assert(once.contains_key(h.message_id));
    assert(live.contains_key(h.message_id));
    assert(entry == once[h.message_id]);
    assert(entry.slots.update(h.chunk_index as int, Some(payload)) =~= entry.slots);
    assert(live.insert(h.message_id, entry) =~= live);
}

/// A chunk of one message leaves the entries of the other messages as
/// they are, but for the stale ones, which are dropped.
pub proof fn lemma_other_messages_are_untouched(
    m: Map<u64, PendingView>,
    h: ChunkHeader,
    payload: Seq<u8>,
    now: u64,
    other: u64,
)
    requires
        other != h.message_id,
    ensures
        insert_spec(m, h, payload, now).0.contains_key(other) <==> m.contains_key(other) && !stale(
            m[other],
            now,
        ),
        insert_spec(m, h, payload, now).0.contains_key(other) ==> insert_spec(
            m,
            h,
            payload,
            now,
        ).0[other] == m[other],
{
}

/// One chunk as it arrives: its header, its payload, and the time.
pub ghost struct Arrival {
    pub header: ChunkHeader,
    pub payload: Seq<u8>,
    pub at: u64,
}

/// The registry after the first `k` arrivals.
pub open spec fn registry_after_arrivals(
    m0: Map<u64, PendingView>,
    arrivals: Seq<Arrival>,
    k: nat,
) -> Map<u64, PendingView>
    decreases k,
{
    if k == 0 {
        m0
    } else {
        insert_spec(
            registry_after_arrivals(m0, arrivals, (k - 1) as nat),
            arrivals[k - 1].header,
            arrivals[k - 1].payload,
            arrivals[k - 1].at,
        ).0
    }
}

/// What becomes of the arrival at place `k`.
pub open spec fn outcome_of_arrival(m0: Map<u64, PendingView>, arrivals: Seq<Arrival>, k: int) -> Outcome {
    insert_spec(
        registry_after_arrivals(m0, arrivals, k as nat),
        arrivals[k].header,
        arrivals[k].payload,
        arrivals[k].at,
    ).1
}

/// Whether a run of arrivals brings every chunk of a message exactly once,
/// among chunks of other messages: the chunk `order[i]` arrives at the place
/// `places[i]`, the places come one after the other, no other arrival is
/// under the message id, and everything that arrives from the first chunk
/// of the message on arrives within the timeout of that chunk.
pub open spec fn brings_message(
    arrivals: Seq<Arrival>,
    id: u64,
    message: Seq<u8>,
    max: nat,
    order: Seq<int>,
    places: Seq<int>,
) -> bool {
    &&& is_permutation(order, chunk_count(message.len(), max))
    &&& places.len() == order.len()
    &&& forall|i: int| 0 <= i < places.len() ==> 0 <= #[trigger] places[i] < arrivals.len()
    &&& forall|i: int, j: int| 0 <= i < j < places.len() ==> places[i] < places[j]
    &&& forall|i: int|
        0 <= i < places.len() ==> {
            &&& (#[trigger] arrivals[places[i]]).header == chunk_header(id, message, max, order[i])
            &&& arrivals[places[i]].payload == chunk_payload(message, max, order[i])
        }
    &&& forall|j: int|
        0 <= j < arrivals.len() && (#[trigger] arrivals[j]).header.message_id == id
            ==> places.contains(j)
    &&& forall|j: int|
        places[0] <= j < arrivals.len() ==> (#[trigger] arrivals[j]).at - arrivals[places[0]].at
            <= FRAGMENT_TIMEOUT
}

/// The times at which the chunks of the message arrive.
pub open spec fn arrival_times(arrivals: Seq<Arrival>, places: Seq<int>) -> Seq<u64> {
    Seq::new(places.len(), |i: int| arrivals[places[i]].at)
}

/// The entry of a message while its chunks arrive among others: after `k`
/// arrivals that hold the first `c` chunks of the message, with more to
/// come, the entry holds exactly those chunks, and each of them was kept.
proof fn lemma_among_others(
    m0: Map<u64, PendingView>,
    arrivals: Seq<Arrival>,
    id: u64,
    message: Seq<u8>,
    max: nat,
    order: Seq<int>,
    places: Seq<int>,
    k: nat,
    c: nat,
)
    requires
        can_fragment(message.len(), max),
        brings_message(arrivals, id, message, max, order, places),
        !m0.contains_key(id),
        k <= arrivals.len(),
        c < places.len(),
        c > 0 ==> places[c - 1] < k,
        k <= places[c as int],
    ensures
        ({
            let s = registry_after_arrivals(m0, arrivals, k);
            if c == 0 {
                !s.contains_key(id)
            } else {
                s.contains_key(id) && s[id] == (PendingView {
                    slots: delivered_cells(message, max, order.take(c as int)),
                    started: arrivals[places[0]].at,
                })
            }
        }),
        forall|i: int|
            0 <= i < c ==> outcome_of_arrival(m0, arrivals, #[trigger] places[i])
                == Outcome::Stored,
    decreases k,
{
    let times = arrival_times(arrivals, places);
    if k > 0 {
        let a = arrivals[k - 1];
        let before = registry_after_arrivals(m0, arrivals, (k - 1) as nat);
        if a.header.message_id == id {
            assert(places.contains(k - 1));
            let i = choose|i: int| 0 <= i < places.len() && places[i] == k - 1;
            assert(c > 0) by {
                if c == 0 {
                    if i > 0 {
                        assert(places[0] < places[i]);
                    }
                }
            }
            assert(i == c - 1) by {
                if i < c - 1 {
                    assert(places[i] < places[c - 1]);
                }
                if i > c - 1 {
                    if i > c {
                        assert(places[c as int] < places[i]);
                    }
                }
            }
            if c > 1 {
                assert(places[c - 2] < places[c - 1]);
            }
            lemma_among_others(
                m0,
                arrivals,
                id,
                message,
                max,
                order,
                places,
                (k - 1) as nat,
                (c - 1) as nat,
            );
            assert(times[0] == arrivals[places[0]].at);
            assert forall|j: int| 0 <= j < times.len() implies #[trigger] times[j] - times[0]
                <= FRAGMENT_TIMEOUT by {
                if j > 0 {
                    assert(places[0] < places[j]);
                }
                assert(arrivals[places[j]].at - arrivals[places[0]].at <= FRAGMENT_TIMEOUT);
            }
            assert(a.header == chunk_header(id, message, max, order[c - 1]));
            assert(times[c - 1] == a.at);
            lemma_next_chunk(before, id, message, max, order, times, c - 1);
            assert(outcome_of_arrival(m0, arrivals, places[c - 1]) == Outcome::Stored);
        } else {
            if c > 0 {
                assert(arrivals[places[c - 1]].header.message_id == id);
                assert(places[c - 1] != k - 1);
                if c > 1 {
                    assert(places[0] < places[c - 1]);
                }
                assert(a.at - arrivals[places[0]].at <= FRAGMENT_TIMEOUT);
            }
            lemma_among_others(m0, arrivals, id, message, max, order, places, (k - 1) as nat, c);
            lemma_other_messages_are_untouched(before, a.header, a.payload, a.at, id);
        }
    }
}

/// A message whose chunks all arrive, each once, in any order and among
/// the chunks of other messages, comes out as it went in: every chunk of it
/// but the last to arrive is kept, and the last one hands out the bytes of
/// the message. This holds where the registry has no entry under the
/// message id at the start, and everything that arrives from the first
/// chunk of the message on arrives within the timeout of that chunk.
pub proof fn lemma_reassembly_among_others(
    m0: Map<u64, PendingView>,
    arrivals: Seq<Arrival>,
    id: u64,
    message: Seq<u8>,
    max: nat,
    order: Seq<int>,
    places: Seq<int>,
)
    requires
        can_fragment(message.len(), max),
        brings_message(arrivals, id, message, max, order, places),
        !m0.contains_key(id),
    ensures
        forall|i: int|
            0 <= i < places.len() - 1 ==> outcome_of_arrival(m0, arrivals, #[trigger] places[i])
                == Outcome::Stored,
        outcome_of_arrival(m0, arrivals, places[places.len() - 1]) == Outcome::Complete(message),
{
    let n = places.len();
    let last = places[n - 1];
    let times = arrival_times(arrivals, places);
    if n > 1 {
        assert(places[n - 2] < places[n - 1]);
    }
    lemma_among_others(m0, arrivals, id, message, max, order, places, last as nat, (n - 1) as nat);
    assert forall|j: int| 0 <= j < times.len() implies #[trigger] times[j] - times[0]
        <= FRAGMENT_TIMEOUT by {
        if j > 0 {
            assert(places[0] < places[j]);
        }
        assert(arrivals[places[j]].at - arrivals[places[0]].at <= FRAGMENT_TIMEOUT);
    }
    let before = registry_after_arrivals(m0, arrivals, last as nat);
    assert(arrivals[last].header == chunk_header(id, message, max, order[n - 1]));
    assert(times[n - 1] == arrivals[last].at);
    assert(times[0] == arrivals[places[0]].at);
    if n == 1 {
        assert(!purge_spec(before, times[0]).contains_key(id));
    }
    lemma_next_chunk(before, id, message, max, order, times, n - 1);
}

} // verus!
