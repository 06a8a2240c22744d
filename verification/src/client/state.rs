//! What a client knows: its player's id, the map, and its copy of the
//! world, which the snapshots and diffs of the server keep up to date.
use crate::game::player::Player;
use crate::game::state::DiffView;
use crate::game::state::GameState;
use crate::game::state::GameStateDiff;
use crate::game::state::World;
use crate::ids::lemma_take_next;
use crate::ids::sorted_keys;
use crate::map::TileMap;
use std::collections::HashMap;
use std::sync::Arc;
use vstd::prelude::*;

verus! {

/// What a client knows.
#[derive(Debug)]
pub struct ClientState {
    /// The id of the client's own player, once the server has told it.
    pub id: Option<u32>,
    pub map: Option<TileMap>,
    /// The client's copy of the world, once a snapshot or a diff has come.
    /// It is shared with those who read it: a change puts a new copy in its
    /// place and leaves the old one as it is.
    pub game_state: Option<Arc<GameState>>,
}

/// The entities of a map but for those whose ids are listed.
pub open spec fn without<T>(m: Map<u32, T>, ids: Seq<u32>) -> Map<u32, T> {
    Map::new(|id: u32| m.contains_key(id) && !ids.contains(id), |id: u32| m[id])
}

/// A player that the client does not draw.
pub open spec fn hidden(p: Player) -> Player {
    Player { to_render: false, ..p }
}

/// The players of a client after a diff: the players of the diff are taken
/// over, and the removed ones are dropped; the client's own player is
/// never dropped, only hidden.
pub open spec fn merged_players(players: Map<u32, Player>, d: DiffView, own: Option<u32>) -> Map<
    u32,
    Player,
> {
    let taken = players.union_prefer_right(d.players);
    Map::new(
        |id: u32| taken.contains_key(id) && (!d.removed_players.contains(id) || own == Some(id)),
        |id: u32|
            if d.removed_players.contains(id) {
                hidden(taken[id])
            } else {
                taken[id]
            },
    )
}

/// A client's copy of the world after a diff: of each kind, the entities
/// of the diff are taken over, and then the removed ones are dropped.
pub open spec fn merged(w: World, d: DiffView, own: Option<u32>) -> World {
    World {
        players: merged_players(w.players, d, own),
        bullets: without(w.bullets.union_prefer_right(d.bullets), d.removed_bullets),
        modifieres: without(w.modifieres.union_prefer_right(d.modifieres), d.removed_modifieres),
        ..w
    }
}

/// The copy of the world of a client that has heard nothing yet.
pub open spec fn empty_world() -> World {
    crate::game::state::new_world(0)
}

/// Merging the same diff a second time changes nothing.
pub proof fn lemma_merge_idempotent(w: World, d: DiffView, own: Option<u32>)
    ensures
        merged(merged(w, d, own), d, own) == merged(w, d, own),
{
    let once = merged(w, d, own);
    let twice = merged(once, d, own);
    assert(twice.players =~= once.players);
    assert(twice.bullets =~= once.bullets);
    assert(twice.modifieres =~= once.modifieres);
}

/// Takes over every entity of `src`.
fn upsert_all<T: Copy>(dst: &mut HashMap<u32, T>, src: &HashMap<u32, T>)
    ensures
        final(dst)@ == old(dst)@.union_prefer_right(src@),
{
    broadcast use vstd::std_specs::hash::group_hash_axioms;

    let ids = sorted_keys(src);
    let mut i: usize = 0;
    while i < ids.len()
        invariant
            i <= ids@.len(),
            ids@.to_set() == src@.dom(),
            forall|k: u32| #[trigger]
                dst@.contains_key(k) <==> old(dst)@.contains_key(k) || ids@.take(
                    i as int,
                ).contains(k),
            forall|k: u32|
                dst@.contains_key(k) ==> #[trigger] dst@[k] == (if ids@.take(i as int).contains(
                    k,
                ) {
                    src@[k]
                } else {
                    old(dst)@[k]
                }),
        decreases ids@.len() - i,
    {
        let id = ids[i];
        proof {
            lemma_take_next(ids@, i as int);
            assert(ids@.to_set().contains(id));
        }
        if let Some(e) = src.get(&id) {
            dst.insert(id, *e);
        }
        i += 1;
    }
    proof {
        assert(ids@.take(ids@.len() as int) =~= ids@);
        assert forall|k: u32| src@.contains_key(k) <==> ids@.contains(k) by {
            assert(ids@.to_set().contains(k) <==> src@.contains_key(k));
        }
        assert(dst@ =~= old(dst)@.union_prefer_right(src@));
    }
}

/// Drops every entity whose id is listed.
fn remove_all<T>(dst: &mut HashMap<u32, T>, ids: &Vec<u32>)
    ensures
        final(dst)@ == without(old(dst)@, ids@),
{
    broadcast use vstd::std_specs::hash::group_hash_axioms;

    let mut i: usize = 0;
    while i < ids.len()
        invariant
            i <= ids@.len(),
            dst@ == without(old(dst)@, ids@.take(i as int)),
        decreases ids@.len() - i,
    {
        let ghost before = dst@;
        let id = ids[i];
        dst.remove(&id);
        proof {
            lemma_take_next(ids@, i as int);
            assert(dst@ =~= without(old(dst)@, ids@.take(i + 1)));
        }
        i += 1;
    }
    proof {
        assert(ids@.take(ids@.len() as int) =~= ids@);
    }
}

/// Drops the players whose ids are listed; the player `own` is not dropped
/// but hidden.
fn remove_players(dst: &mut HashMap<u32, Player>, ids: &Vec<u32>, own: Option<u32>)
    ensures
        final(dst)@ == Map::new(
            |id: u32| old(dst)@.contains_key(id) && (!ids@.contains(id) || own == Some(id)),
            |id: u32|
                if ids@.contains(id) {
                    hidden(old(dst)@[id])
                } else {
                    old(dst)@[id]
                },
        ),
{
    broadcast use vstd::std_specs::hash::group_hash_axioms;

    let mut i: usize = 0;
    while i < ids.len()
        invariant
            i <= ids@.len(),
            dst@ == Map::new(
                |id: u32|
                    old(dst)@.contains_key(id) && (!ids@.take(i as int).contains(id) || own
                        == Some(id)),
                |id: u32|
                    if ids@.take(i as int).contains(id) {
                        hidden(old(dst)@[id])
                    } else {
                        old(dst)@[id]
                    },
            ),
        decreases ids@.len() - i,
    {
        let id = ids[i];
        let is_own = match own {
            Some(o) => o == id,
            None => false,
        };
        if is_own {
            let found = match dst.get(&id) {
                Some(p) => Some(*p),
                None => None,
            };
            if let Some(p) = found {
                dst.insert(id, Player { to_render: false, ..p });
            }
        } else {
            dst.remove(&id);
        }
        proof {
            lemma_take_next(ids@, i as int);
            assert(dst@ =~= Map::new(
                |k: u32|
                    old(dst)@.contains_key(k) && (!ids@.take(i + 1).contains(k) || own == Some(
                        k,
                    )),
                |k: u32|
                    if ids@.take(i + 1).contains(k) {
                        hidden(old(dst)@[k])
                    } else {
                        old(dst)@[k]
                    },
            ));
        }
        i += 1;
    }
    proof {
        assert(ids@.take(ids@.len() as int) =~= ids@);
    }
}

impl ClientState {
    /// The client's copy of the world, if it has one.
    pub open spec fn world(&self) -> Option<World> {
        match self.game_state {
            Some(g) => Some(g@),
            None => None,
        }
    }

    /// A client that knows nothing yet.
    pub fn new() -> (c: Self)
        ensures
            c.id is None,
            c.map is None,
            c.game_state is None,
    {
        ClientState { id: None, map: None, game_state: None }
    }

    /// Takes the id of the client's player from the server's greeting. A
    /// client that has its id keeps it.
    pub fn init_player(&mut self, player: Player)
        ensures
            final(self).id == (match old(self).id {
                Some(id) => Some(id),
                None => Some(player.id),
            }),
            final(self).map == old(self).map,
            final(self).game_state == old(self).game_state,
    {
        if self.id.is_none() {
            self.id = Some(player.id);
        }
    }

    /// Takes the id of the client's player, over the one it had.
    pub fn set_player(&mut self, player: Player)
        ensures
            final(self).id == Some(player.id),
            final(self).map == old(self).map,
            final(self).game_state == old(self).game_state,
    {
        self.id = Some(player.id);
    }

    /// Takes the map. A client that has a map keeps it.
    pub fn set_map(&mut self, map: TileMap)
        ensures
            final(self).map == (match old(self).map {
                Some(m) => Some(m),
                None => Some(map),
            }),
            final(self).id == old(self).id,
            final(self).game_state == old(self).game_state,
    {
        if self.map.is_none() {
            self.map = Some(map);
        }
    }

    /// A full snapshot takes the place of the client's copy of the world.
    pub fn update_state(&mut self, state: GameState)
        ensures
            final(self).world() == Some(state@),
            final(self).id == old(self).id,
            final(self).map == old(self).map,
    {
        self.game_state = Some(Arc::new(state));
    }

    /// A full snapshot takes the place of the client's copy of the world.
    pub fn set_game_state(&mut self, game_state: GameState)
        ensures
            final(self).world() == Some(game_state@),
            final(self).id == old(self).id,
            final(self).map == old(self).map,
    {
        self.update_state(game_state);
    }

    /// Merges a diff into the client's copy of the world; a client without
    /// a copy starts from an empty world. Of each kind, the entities of the
    /// diff are taken over, and then the removed ones are dropped. The
    /// client's own player is never dropped, only hidden. The merge is made
    /// on a copy, which then takes the place of the shared one: who holds the
    /// old copy sees it unchanged.
    pub fn update_state_diff(&mut self, state_diff: GameStateDiff)
        ensures
            final(self).world() == Some(
                merged(
                    match old(self).world() {
                        Some(w) => w,
                        None => empty_world(),
                    },
                    state_diff@,
                    old(self).id,
                ),
            ),
            final(self).id == old(self).id,
            final(self).map == old(self).map,
    {
        let mut state = match &self.game_state {
            Some(shared) => {
                let held: &GameState = &**shared;
                held.clone()
            },
            None => GameState::new(0),
        };
        let ghost before = state@;
        upsert_all(&mut state.players, &state_diff.players);
        remove_players(&mut state.players, &state_diff.removed_players, self.id);
        upsert_all(&mut state.bullets, &state_diff.bullets);
        remove_all(&mut state.bullets, &state_diff.removed_bullets);
        upsert_all(&mut state.modifieres, &state_diff.modifieres);
        remove_all(&mut state.modifieres, &state_diff.removed_modifieres);
        proof {
            let want = merged(before, state_diff@, self.id);
            assert(state@.players =~= want.players);
            assert(state@.bullets =~= want.bullets);
            assert(state@.modifieres =~= want.modifieres);
            assert(state@.prev_states =~= want.prev_states);
        }
        self.game_state = Some(Arc::new(state));
    }

    /// The client's own player, as its copy of the world has it.
    pub fn get_current_player(&self) -> (r: Option<Player>)
        ensures
            r == (match (self.world(), self.id) {
                (Some(w), Some(id)) => if w.players.contains_key(id) {
                    Some(w.players[id])
                } else {
                    None
                },
                _ => None,
            }),
    {
        broadcast use vstd::std_specs::hash::group_hash_axioms;

        match &self.game_state {
            Some(state) => match self.id {
                Some(id) => match state.players.get(&id) {
                    Some(p) => Some(*p),
                    None => None,
                },
                None => None,
            },
            None => None,
        }
    }

    /// The client's own player, as its copy of the world has it.
    pub fn current_player(&self) -> (r: Option<Player>)
        ensures
            r == (match (self.world(), self.id) {
                (Some(w), Some(id)) => if w.players.contains_key(id) {
                    Some(w.players[id])
                } else {
                    None
                },
                _ => None,
            }),
    {
        self.get_current_player()
    }
}

} // verus!
