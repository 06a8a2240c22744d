//! The server's decisions: what each message of a client and each tick
//! does to the world, and what is sent to whom in answer. Receiving and
//! sending is left to the caller.
use crate::game::interest::snapshot_diff_spec;
use crate::game::interest::snapshot_spec;
use crate::game::player::new_player;
use crate::game::player::Player;
use crate::game::state::left;
use crate::game::state::moved;
use crate::game::state::next_after;
use crate::game::state::shot;
use crate::game::state::Direction;
use crate::game::state::GameState;
use crate::game::state::World;
use crate::game::tick::ticked;
use crate::map::TileMap;
use crate::network::state::chunks_view;
use crate::network::state::map_chunks;
use crate::network::state::missing_chunks;
use crate::network::state::unheld;
use crate::network::state::ClientMessage;
use crate::network::state::MapChunk;
use crate::network::state::MapChunkView;
use crate::network::state::ServerMessage;
use crate::network::state::ServerMessageView;
use crate::sessions::Address;
use crate::sessions::Client;
use crate::sessions::Sessions;
use std::collections::HashSet;
use vstd::prelude::*;

verus! {

/// A message on its way to a client.
#[derive(Debug)]
pub struct Outgoing {
    pub to: Address,
    pub message: ServerMessage,
}

/// The mathematical content of an [`Outgoing`].
pub ghost struct OutgoingView {
    pub to: Address,
    pub message: ServerMessageView,
}

impl View for Outgoing {
    type V = OutgoingView;

    open spec fn view(&self) -> OutgoingView {
        OutgoingView { to: self.to, message: self.message@ }
    }
}

/// The contents of a list of messages.
pub open spec fn outgoing_view(out: Seq<Outgoing>) -> Seq<OutgoingView> {
    Seq::new(out.len(), |i: int| out[i]@)
}

/// The server: the map and its chunks, the world, and the clients.
#[derive(Debug)]
pub struct Server {
    pub map: TileMap,
    /// The chunks of the encoded map, cut once.
    pub chunks: Vec<MapChunk>,
    pub game_state: GameState,
    pub sessions: Sessions,
}

/// The chunks of a list, each as a message to `to`.
pub open spec fn chunk_messages(chunks: Seq<MapChunkView>, to: Address) -> Seq<OutgoingView> {
    Seq::new(
        chunks.len(),
        |i: int| OutgoingView { to, message: ServerMessageView::MapChunk(chunks[i]) },
    )
}

/// The world after the diffs for the first `k` clients of a list have been
/// made, one after the other.
pub open spec fn world_after_diffs(w: World, clients: Seq<Client>, k: nat) -> World
    decreases k,
{
    if k == 0 {
        w
    } else {
        snapshot_diff_spec(
            world_after_diffs(w, clients, (k - 1) as nat),
            clients[k - 1].player_id,
        ).0
    }
}

/// The message with the diff for the client at place `i` of a list, when
/// the diffs are made one after the other.
pub open spec fn diff_message(w: World, clients: Seq<Client>, i: int) -> OutgoingView {
    OutgoingView {
        to: clients[i].address,
        message: ServerMessageView::GameStateDiff(
            snapshot_diff_spec(world_after_diffs(w, clients, i as nat), clients[i].player_id).1,
        ),
    }
}

/// The mathematical content of a [`Server`].
pub ghost struct ServerView {
    pub map: TileMap,
    pub chunks: Seq<MapChunkView>,
    pub world: World,
    /// The clients in the order of the registry.
    pub clients: Seq<Client>,
}

impl View for Server {
    type V = ServerView;

    open spec fn view(&self) -> ServerView {
        ServerView {
            map: self.map,
            chunks: chunks_view(self.chunks@),
            world: self.game_state@,
            clients: self.sessions.clients@,
        }
    }
}

/// The player of the client with the address, if the client is known and
/// has one.
pub open spec fn player_at(clients: Seq<Client>, src: Address) -> Option<u32> {
    if crate::sessions::knows(clients, src) {
        clients[crate::sessions::place_of(clients, src)].player_id
    } else {
        None
    }
}

/// The clients once the address is known: a new client has no player yet
/// and stands last.
pub open spec fn with_client(clients: Seq<Client>, src: Address) -> Seq<Client> {
    if crate::sessions::knows(clients, src) {
        clients
    } else {
        clients.push(Client { address: src, player_id: None })
    }
}

/// The clients once the client with the address has the player.
pub open spec fn with_player(clients: Seq<Client>, src: Address, player_id: u32) -> Seq<Client> {
    if crate::sessions::knows(clients, src) {
        clients.update(
            crate::sessions::place_of(clients, src),
            Client { address: src, player_id: Some(player_id) },
        )
    } else {
        clients.push(Client { address: src, player_id: Some(player_id) })
    }
}

/// The clients without the one with the address.
pub open spec fn without_client(clients: Seq<Client>, src: Address) -> Seq<Client> {
    if crate::sessions::knows(clients, src) {
        clients.remove(crate::sessions::place_of(clients, src))
    } else {
        clients
    }
}

/// One message to one client.
pub open spec fn one_message(to: Address, message: ServerMessageView) -> Seq<OutgoingView> {
    seq![OutgoingView { to, message }]
}

/// Whether a client's joining may lead from `before` to `after` with the
/// messages `out`. The client gets a new player at a place to spawn, and
/// is sent the player and the whole world. Nothing is sent, and the world
/// stays as it is, where the map has no place to spawn or no player id is
/// left; the client is known all the same.
pub open spec fn joined(before: ServerView, after: ServerView, src: Address, out: Seq<OutgoingView>) -> bool {
    &&& after.map == before.map
    &&& after.chunks == before.chunks
    &&& if before.map.has_spawn_position(crate::config::PLAYER_RADIUS) && next_after(
        before.world.players.dom(),
    ) is Some {
        exists|p: Player|
            #![trigger new_player(p.id, p.x, p.y)]
            {
                let with_p = World { players: before.world.players.insert(p.id, p), ..before.world };
                &&& next_after(before.world.players.dom()) == Some(p.id)
                &&& p == new_player(p.id, p.x, p.y)
                &&& before.map.is_spawn_position(
                    p.x as int,
                    p.y as int,
                    crate::config::PLAYER_RADIUS,
                )
                &&& after.clients == with_player(with_client(before.clients, src), src, p.id)
                &&& after.world == snapshot_spec(with_p, Some(p.id)).0
                &&& out == seq![
                    OutgoingView { to: src, message: ServerMessageView::InitPlayer(p) },
                    OutgoingView {
                        to: src,
                        message: ServerMessageView::GameState(snapshot_spec(with_p, Some(p.id)).1),
                    },
                ]
            }
    } else {
        &&& after.world == before.world
        &&& after.clients == with_client(before.clients, src)
        &&& out == Seq::<OutgoingView>::empty()
    }
}

/// What a request for the map does: the client is sent the chunks that it
/// does not hold, in order.
pub open spec fn map_requested(s: ServerView, src: Address, held: Set<u32>) -> (
    ServerView,
    Seq<OutgoingView>,
) {
    (
        ServerView { clients: with_client(s.clients, src), ..s },
        chunk_messages(unheld(s.chunks, held), src),
    )
}

/// What a command to move does: the move is made where it is accepted,
/// and the client is sent what has changed for it.
pub open spec fn move_commanded(s: ServerView, src: Address, dir: Direction) -> (
    ServerView,
    Seq<OutgoingView>,
) {
    let player = player_at(s.clients, src);
    let answer = snapshot_diff_spec(moved(s.world, player, dir, s.map), player);
    (
        ServerView { world: answer.0, clients: with_client(s.clients, src), ..s },
        one_message(src, ServerMessageView::GameStateDiff(answer.1)),
    )
}

/// What a command to shoot at `now` does: the shot is made where the
/// player may shoot, and the client is sent the whole world.
pub open spec fn shot_commanded(s: ServerView, src: Address, now: u64) -> (
    ServerView,
    Seq<OutgoingView>,
) {
    let player = player_at(s.clients, src);
    let answer = snapshot_spec(shot(s.world, player, now), player);
    (
        ServerView { world: answer.0, clients: with_client(s.clients, src), ..s },
        one_message(src, ServerMessageView::GameState(answer.1)),
    )
}

/// What a client's leaving does: its player leaves the world, the client
/// is forgotten, and it is sent the whole world as it is then.
pub open spec fn quit(s: ServerView, src: Address) -> (ServerView, Seq<OutgoingView>) {
    let player = player_at(s.clients, src);
    let answer = snapshot_spec(left(s.world, player), None);
    (
        ServerView { world: answer.0, clients: without_client(s.clients, src), ..s },
        one_message(src, ServerMessageView::GameState(answer.1)),
    )
}

/// The diffs for all clients, made one after the other in the order of the
/// registry.
pub open spec fn diffs_sent(s: ServerView) -> (ServerView, Seq<OutgoingView>) {
    (
        ServerView { world: world_after_diffs(s.world, s.clients, s.clients.len()), ..s },
        Seq::new(s.clients.len(), |i: int| diff_message(s.world, s.clients, i)),
    )
}

/// Whether a tick may lead from `before` to `after` with the messages
/// `out`: the world has its tick, and then every client is sent what has
/// changed for it.
pub open spec fn tick_done(
    before: ServerView,
    after: ServerView,
    delta_ms: u32,
    now: u64,
    out: Seq<OutgoingView>,
) -> bool {
    exists|w: World|
        #![trigger ticked(before.world, w, before.map, delta_ms, now)]
        ticked(before.world, w, before.map, delta_ms, now) && (after, out) == diffs_sent(
            ServerView { world: w, ..before },
        )
}

/// Whether a message of a client, taken in at `now`, may lead from
/// `before` to `after` with the messages `out`.
pub open spec fn handled(
    before: ServerView,
    after: ServerView,
    src: Address,
    msg: ClientMessage,
    now: u64,
    out: Seq<OutgoingView>,
) -> bool {
    match msg {
        ClientMessage::Init => joined(before, after, src, out),
        ClientMessage::RequestMapChunks(held) => (after, out) == map_requested(before, src, held@),
        ClientMessage::Move(dir) => (after, out) == move_commanded(before, src, dir),
        ClientMessage::Shoot => (after, out) == shot_commanded(before, src, now),
        ClientMessage::Quit => (after, out) == quit(before, src),
    }
}

impl Server {
    /// The map and the registry of clients are well formed.
    pub open spec fn wf(&self) -> bool {
        self.map.wf() && self.sessions.wf()
    }

    /// A server for a map, given the map's encoded form, with an empty
    /// world and no clients.
    pub fn new(map: TileMap, encoded_map: &[u8], now: u64) -> (s: Self)
        requires
            map.wf(),
            crate::network::state::map_chunk_count(encoded_map@.len()) <= u32::MAX,
        ensures
            s.wf(),
            s@ == (ServerView {
                map,
                chunks: map_chunks(encoded_map@),
                world: crate::game::state::new_world(now),
                clients: Seq::empty(),
            }),
    {
        let s = Server {
            map,
            chunks: TileMap::chunk_map(encoded_map),
            game_state: GameState::new(now),
            sessions: Sessions::new(),
        };
        assert(s.sessions.clients@ =~= Seq::<Client>::empty());
        s
    }

    /// A client joins. It gets a new player at a random place to spawn,
    /// and is sent the player and the whole world. Nothing is sent, and the
    /// world stays as it is, where the map has no place to spawn or no
    /// player id is left; the client is known all the same.
    pub fn on_init(&mut self, src: Address) -> (out: Vec<Outgoing>)
        requires
            old(self).wf(),
        ensures
            final(self).wf(),
            joined(old(self)@, final(self)@, src, outgoing_view(out@)),
    {
        self.sessions.register(src);
        let mut out: Vec<Outgoing> = Vec::new();
        match self.game_state.create_player(&self.map) {
            Some(p) => {
                self.sessions.assign(src, p.id);
                let snapshot = self.game_state.get_snapshot(Some(&p.id));
                out.push(Outgoing { to: src, message: ServerMessage::InitPlayer(p) });
                out.push(Outgoing { to: src, message: ServerMessage::GameState(snapshot) });
                proof {
                    assert(p == new_player(p.id, p.x, p.y));
                    assert(outgoing_view(out@) =~= seq![out@[0]@, out@[1]@]);
                }
            },
            None => {
                assert(outgoing_view(out@) =~= Seq::<OutgoingView>::empty());
            },
        }
        out
    }

    /// A client asks for the map and says which chunks it holds. It is
    /// sent the chunks that it does not hold, in order.
    pub fn on_map_request(&mut self, src: Address, held: &HashSet<u32>) -> (out: Vec<Outgoing>)
        requires
            old(self).wf(),
        ensures
            final(self).wf(),
            (final(self)@, outgoing_view(out@)) == map_requested(old(self)@, src, held@),
    {
        self.sessions.register(src);
        let missing = missing_chunks(&self.chunks, held);
        let ghost all = missing@;
        let mut out: Vec<Outgoing> = Vec::new();
        for chunk in it: missing.into_iter()
            invariant
                it.seq() == all,
                out@.len() == it.index(),
                forall|j: int|
                    0 <= j < out@.len() ==> (#[trigger] out@[j])@ == (OutgoingView {
                        to: src,
                        message: ServerMessageView::MapChunk(all[j]@),
                    }),
        {
            out.push(Outgoing { to: src, message: ServerMessage::MapChunk(chunk) });
        }
        proof {
            assert(outgoing_view(out@) =~= chunk_messages(chunks_view(all), src));
        }
        out
    }

    /// A client's player shall take a step. The move is made where it is
    /// accepted, and the client is sent what has changed for it.
    pub fn on_move(&mut self, src: Address, dir: Direction) -> (out: Vec<Outgoing>)
        requires
            old(self).wf(),
        ensures
            final(self).wf(),
            (final(self)@, outgoing_view(out@)) == move_commanded(old(self)@, src, dir),
    {
        self.sessions.register(src);
        let player = self.sessions.player_of(&src);
        self.game_state.move_player(player.as_ref(), dir, &self.map);
        let diff = self.game_state.get_snapshot_diff(player.as_ref());
        let mut out: Vec<Outgoing> = Vec::new();
        out.push(Outgoing { to: src, message: ServerMessage::GameStateDiff(diff) });
        proof {
            assert(outgoing_view(out@) =~= seq![out@[0]@]);
        }
        out
    }

    /// A client's player shall shoot, at time `now`. The shot is made where
    /// the player may shoot, and the client is sent the whole world.
    pub fn on_shoot(&mut self, src: Address, now: u64) -> (out: Vec<Outgoing>)
        requires
            old(self).wf(),
        ensures
            final(self).wf(),
            (final(self)@, outgoing_view(out@)) == shot_commanded(old(self)@, src, now),
    {
        self.sessions.register(src);
        let player = self.sessions.player_of(&src);
        self.game_state.shoot(player.as_ref(), now);
        let snapshot = self.game_state.get_snapshot(player.as_ref());
        let mut out: Vec<Outgoing> = Vec::new();
        out.push(Outgoing { to: src, message: ServerMessage::GameState(snapshot) });
        proof {
            assert(outgoing_view(out@) =~= seq![out@[0]@]);
        }
        out
    }

    /// A client leaves. Its player leaves the world, the client is
    /// forgotten, and it is sent the whole world as it is then.
    pub fn on_quit(&mut self, src: Address) -> (out: Vec<Outgoing>)
        requires
            old(self).wf(),
        ensures
            final(self).wf(),
            (final(self)@, outgoing_view(out@)) == quit(old(self)@, src),
    {
        let player = self.sessions.player_of(&src);
        self.game_state.remove(player.as_ref());
        self.sessions.forget(&src);
        let snapshot = self.game_state.get_snapshot(None);
        let mut out: Vec<Outgoing> = Vec::new();
        out.push(Outgoing { to: src, message: ServerMessage::GameState(snapshot) });
        proof {
            assert(outgoing_view(out@) =~= seq![out@[0]@]);
        }
        out
    }

    /// The diffs for all clients, one after the other in the order of the
    /// registry. A client without a player is sent the whole world.
    pub fn broadcast_diffs(&mut self) -> (out: Vec<Outgoing>)
        requires
            old(self).wf(),
        ensures
            final(self).wf(),
            (final(self)@, outgoing_view(out@)) == diffs_sent(old(self)@),
    {
        let mut out: Vec<Outgoing> = Vec::new();
        let mut i: usize = 0;
        while i < self.sessions.clients.len()
            invariant
                i <= self.sessions.clients@.len(),
                self.map == old(self).map,
                self.chunks == old(self).chunks,
                self.sessions == old(self).sessions,
                self.game_state@ == world_after_diffs(
                    old(self).game_state@,
                    old(self).sessions.clients@,
                    i as nat,
                ),
                out@.len() == i,
                forall|j: int|
                    0 <= j < i ==> (#[trigger] out@[j])@ == diff_message(
                        old(self).game_state@,
                        old(self).sessions.clients@,
                        j,
                    ),
            decreases self.sessions.clients@.len() - i,
        {
            let client = self.sessions.clients[i];
            let diff = self.game_state.get_snapshot_diff(client.player_id.as_ref());
            out.push(Outgoing { to: client.address, message: ServerMessage::GameStateDiff(diff) });
            i += 1;
        }
        proof {
            assert(outgoing_view(out@) =~= diffs_sent(old(self)@).1);
        }
        out
    }

    /// One tick, `delta_ms` milliseconds after the last, at time `now`: the
    /// world has its tick, and every client is sent what has changed for
    /// it.
    pub fn tick(&mut self, delta_ms: u32, now: u64) -> (out: Vec<Outgoing>)
        requires
            old(self).wf(),
        ensures
            final(self).wf(),
            tick_done(old(self)@, final(self)@, delta_ms, now, outgoing_view(out@)),
    {
        self.game_state.update(&self.map, delta_ms, now);
        let ghost w = self.game_state@;
        let out = self.broadcast_diffs();
        proof {
            assert(ticked(old(self)@.world, w, old(self)@.map, delta_ms, now));
            assert((self@, outgoing_view(out@)) == diffs_sent(
                ServerView { world: w, ..old(self)@ },
            ));
        }
        out
    }

    /// Takes in a message of a client at time `now`, and gives what is to
    /// be sent in answer.
    pub fn handle(&mut self, src: Address, msg: &ClientMessage, now: u64) -> (out: Vec<Outgoing>)
        requires
            old(self).wf(),
        ensures
            final(self).wf(),
            handled(old(self)@, final(self)@, src, *msg, now, outgoing_view(out@)),
    {
        match msg {
            ClientMessage::Init => self.on_init(src),
            ClientMessage::RequestMapChunks(held) => self.on_map_request(src, held),
            ClientMessage::Move(dir) => self.on_move(src, *dir),
            ClientMessage::Shoot => self.on_shoot(src, now),
            ClientMessage::Quit => self.on_quit(src),
        }
    }
}

} // verus!
