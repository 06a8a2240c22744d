//! Interest management: what of the world one client sees, and what has
//! changed for it since its last snapshot.
use crate::config;
use crate::game::bullet::Bullet;
use crate::game::modifier::Modifier;
use crate::game::player::Player;
use crate::game::state::empty_diff;
use crate::game::state::no_entities;
use crate::game::state::DiffView;
use crate::game::state::Entities;
use crate::game::state::GameState;
use crate::game::state::GameStateDiff;
use crate::game::state::PlayerPrevState;
use crate::game::state::World;
use crate::ids::ascending;
use crate::ids::ascending_ids;
use crate::ids::lemma_take_next;
use crate::ids::sorted_keys;
use crate::math::abs_diff;
use std::collections::HashMap;
use vstd::prelude::*;

verus! {

/// The box that a client sees: what lies no farther from `(x, y)` than
/// `half_w` to the left or right and `half_h` up or down.
#[derive(Clone, Copy, Debug, PartialEq, Eq, Structural)]
pub struct Viewport {
    pub x: i32,
    pub y: i32,
    pub half_w: u32,
    pub half_h: u32,
}

/// Whether `(ox, oy)` lies in the box round `(px, py)`, its border
/// included.
pub open spec fn in_viewport(px: int, py: int, ox: int, oy: int, half_w: int, half_h: int) -> bool {
    abs_diff(ox, px) <= half_w && abs_diff(oy, py) <= half_h
}

impl Viewport {
    /// Whether the place lies in the box.
    pub open spec fn sees(&self, at: (int, int)) -> bool {
        in_viewport(
            self.x as int,
            self.y as int,
            at.0,
            at.1,
            self.half_w as int,
            self.half_h as int,
        )
    }

    /// Whether the place lies in the box.
    pub fn contains(&self, x: i32, y: i32) -> (b: bool)
        ensures
            b == self.sees((x as int, y as int)),
    {
        let dx: i64 = if x >= self.x {
            x as i64 - self.x as i64
        } else {
            self.x as i64 - x as i64
        };
        let dy: i64 = if y >= self.y {
            y as i64 - self.y as i64
        } else {
            self.y as i64 - y as i64
        };
        dx <= self.half_w as i64 && dy <= self.half_h as i64
    }
}

/// What has a place in the world and can be told from another of its kind.
pub trait Entity: Copy + Sized {
    /// Where it is.
    spec fn place(&self) -> (int, int);

    /// Where it is.
    fn position(&self) -> (p: (i32, i32))
        ensures
            (p.0 as int, p.1 as int) == self.place(),
    ;

    /// Whether the two are equal in every field.
    fn same(&self, other: &Self) -> (b: bool)
        ensures
            b == (*self == *other),
    ;
}

impl Entity for Player {
    open spec fn place(&self) -> (int, int) {
        (self.x as int, self.y as int)
    }

    fn position(&self) -> (p: (i32, i32)) {
        (self.x, self.y)
    }

    fn same(&self, other: &Self) -> (b: bool) {
        *self == *other
    }
}

impl Entity for Bullet {
    open spec fn place(&self) -> (int, int) {
        (self.x as int, self.y as int)
    }

    fn position(&self) -> (p: (i32, i32)) {
        (self.x, self.y)
    }

    fn same(&self, other: &Self) -> (b: bool) {
        *self == *other
    }
}

impl Entity for Modifier {
    open spec fn place(&self) -> (int, int) {
        (self.x as int, self.y as int)
    }

    fn position(&self) -> (p: (i32, i32)) {
        (self.x, self.y)
    }

    fn same(&self, other: &Self) -> (b: bool) {
        *self == *other
    }
}

/// The entities that lie in the viewport.
pub open spec fn seen<T: Entity>(all: Map<u32, T>, v: Viewport) -> Map<u32, T> {
    Map::new(|id: u32| all.contains_key(id) && v.sees(all[id].place()), |id: u32| all[id])
}

/// The entities of `now` that `prev` does not hold as they are: the new
/// ones and the ones that differ.
pub open spec fn changed<T>(now: Map<u32, T>, prev: Map<u32, T>) -> Map<u32, T> {
    Map::new(
        |id: u32| now.contains_key(id) && !(prev.contains_key(id) && prev[id] == now[id]),
        |id: u32| now[id],
    )
}

/// The ids of `prev` that `now` does not hold any more, but for the id
/// `keep`.
pub open spec fn dropped<T>(now: Map<u32, T>, prev: Map<u32, T>, keep: Option<u32>) -> Set<u32> {
    Set::new(|id: u32| prev.contains_key(id) && !now.contains_key(id) && keep != Some(id))
}

/// The entities of an optional map; none where there is no map.
pub open spec fn map_or_empty<T>(m: Option<&HashMap<u32, T>>) -> Map<u32, T> {
    match m {
        Some(m) => m@,
        None => Map::empty(),
    }
}

/// The entities of a world that lie in the viewport.
pub open spec fn visible(w: World, v: Viewport) -> Entities {
    Entities {
        players: seen(w.players, v),
        bullets: seen(w.bullets, v),
        modifieres: seen(w.modifieres, v),
    }
}

/// The viewport of the client whose player this is.
pub open spec fn viewport_of(p: Player) -> Viewport {
    Viewport {
        x: p.x,
        y: p.y,
        half_w: config::VIEW_HALF_WIDTH,
        half_h: config::VIEW_HALF_HEIGHT,
    }
}

/// What a client saw last; nothing where nothing is recorded for it.
pub open spec fn last_seen(prev_states: Map<u32, Entities>, pid: u32) -> Entities {
    if prev_states.contains_key(pid) {
        prev_states[pid]
    } else {
        no_entities()
    }
}

/// The diff for the client of player `pid`, who saw `prev` last and now
/// sees through `v`. Of each kind it holds the entities in the viewport
/// that the client has not seen as they are, and, in ascending order, the
/// ids that the client saw and that are not in the viewport any more. The
/// client's own player is never among the removed.
pub open spec fn diff_for(w: World, prev: Entities, pid: u32, v: Viewport) -> DiffView {
    DiffView {
        players: changed(seen(w.players, v), prev.players),
        removed_players: ascending_ids(dropped(seen(w.players, v), prev.players, Some(pid))),
        bullets: changed(seen(w.bullets, v), prev.bullets),
        removed_bullets: ascending_ids(dropped(seen(w.bullets, v), prev.bullets, None)),
        modifieres: changed(seen(w.modifieres, v), prev.modifieres),
        removed_modifieres: ascending_ids(dropped(seen(w.modifieres, v), prev.modifieres, None)),
    }
}

/// The diff that holds the whole world.
pub open spec fn full_diff(w: World) -> DiffView {
    DiffView {
        players: w.players,
        bullets: w.bullets,
        modifieres: w.modifieres,
        ..empty_diff()
    }
}

/// What asking for a diff does: the world with its record of what the
/// client has seen, and the diff. With no player id the diff is the whole
/// world. For a player who is not in the world the diff is empty. Else the
/// diff holds what has changed in the player's viewport since the client's
/// last snapshot, and what the client saw becomes exactly what is in the
/// viewport now.
pub open spec fn snapshot_diff_spec(w: World, player_id: Option<u32>) -> (World, DiffView) {
    match player_id {
        None => (w, full_diff(w)),
        Some(pid) => if w.players.contains_key(pid) {
            let v = viewport_of(w.players[pid]);
            (
                World { prev_states: w.prev_states.insert(pid, visible(w, v)), ..w },
                diff_for(w, last_seen(w.prev_states, pid), pid, v),
            )
        } else {
            (w, empty_diff())
        },
    }
}

/// What asking for a full snapshot does: the world with its record of
/// what the client has seen, and the snapshot, which is the world without
/// those records.
pub open spec fn snapshot_spec(w: World, player_id: Option<u32>) -> (World, World) {
    (
        match player_id {
            Some(pid) => if w.players.contains_key(pid) {
                World {
                    prev_states: w.prev_states.insert(
                        pid,
                        visible(w, viewport_of(w.players[pid])),
                    ),
                    ..w
                }
            } else {
                w
            },
            None => w,
        },
        World { prev_states: Map::empty(), ..w },
    )
}

/// The entities of a map that lie in the viewport.
fn visible_of<T: Entity>(all: &HashMap<u32, T>, v: &Viewport) -> (out: HashMap<u32, T>)
    ensures
        out@ == seen(all@, *v),
{
    broadcast use vstd::std_specs::hash::group_hash_axioms;

    let ids = sorted_keys(all);
    let mut out: HashMap<u32, T> = HashMap::new();
    let mut i: usize = 0;
    while i < ids.len()
        invariant
            i <= ids@.len(),
            ids@.to_set() == all@.dom(),
            forall|k: u32| #[trigger]
                out@.contains_key(k) <==> ids@.take(i as int).contains(k) && seen(
                    all@,
                    *v,
                ).contains_key(k),
            forall|k: u32| out@.contains_key(k) ==> #[trigger] out@[k] == all@[k],
        decreases ids@.len() - i,
    {
        let id = ids[i];
        proof {
            lemma_take_next(ids@, i as int);
            assert(ids@.to_set().contains(id));
        }
        if let Some(e) = all.get(&id) {
            let at = e.position();
            if v.contains(at.0, at.1) {
                out.insert(id, *e);
            }
        }
        i += 1;
    }
    proof {
        assert(ids@.take(ids@.len() as int) =~= ids@);
        assert forall|k: u32| #[trigger] out@.contains_key(k) <==> seen(all@, *v).contains_key(k) by {
            if seen(all@, *v).contains_key(k) {
                assert(ids@.to_set().contains(k));
            }
        }
        assert(out@ =~= seen(all@, *v));
    }
    out
}

/// Adds to `out` the entities in the viewport that `prev` does not hold as
/// they are.
fn collect_upserts<T: Entity>(
    all: &HashMap<u32, T>,
    prev: Option<&HashMap<u32, T>>,
    v: &Viewport,
    out: &mut HashMap<u32, T>,
)
    ensures
        final(out)@ == old(out)@.union_prefer_right(changed(seen(all@, *v), map_or_empty(prev))),
{
    broadcast use vstd::std_specs::hash::group_hash_axioms;

    let ids = sorted_keys(all);
    let ghost news = changed(seen(all@, *v), map_or_empty(prev));
    let mut i: usize = 0;
    while i < ids.len()
        invariant
            i <= ids@.len(),
            ids@.to_set() == all@.dom(),
            news == changed(seen(all@, *v), map_or_empty(prev)),
            forall|k: u32| #[trigger]
                out@.contains_key(k) <==> old(out)@.contains_key(k) || (ids@.take(
                    i as int,
                ).contains(k) && news.contains_key(k)),
            forall|k: u32|
                out@.contains_key(k) ==> #[trigger] out@[k] == (if ids@.take(i as int).contains(k)
                    && news.contains_key(k) {
                    news[k]
                } else {
                    old(out)@[k]
                }),
        decreases ids@.len() - i,
    {
        let id = ids[i];
        proof {
            lemma_take_next(ids@, i as int);
            assert(ids@.to_set().contains(id));
        }
        if let Some(e) = all.get(&id) {
            let at = e.position();
            if v.contains(at.0, at.1) {
                let is_new = match prev {
                    None => true,
                    Some(p) => match p.get(&id) {
                        Some(before) => !before.same(e),
                        None => true,
                    },
                };
                if is_new {
                    out.insert(id, *e);
                }
            }
        }
        i += 1;
    }
    proof {
        assert(ids@.take(ids@.len() as int) =~= ids@);
        assert forall|k: u32| news.contains_key(k) implies ids@.contains(k) by {
            assert(ids@.to_set().contains(k));
        }
        assert(out@ =~= old(out)@.union_prefer_right(news));
    }
}

/// Adds to `out`, in ascending order, the ids that `prev` holds and that
/// are not in the viewport any more, but for the id `keep`.
fn collect_removed<T: Entity>(
    all: &HashMap<u32, T>,
    prev: Option<&HashMap<u32, T>>,
    v: &Viewport,
    keep: Option<u32>,
    out: &mut Vec<u32>,
)
    ensures
        final(out)@ == old(out)@ + ascending_ids(
            dropped(seen(all@, *v), map_or_empty(prev), keep),
        ),
{
    broadcast use vstd::std_specs::hash::group_hash_axioms;

    let ghost lost = dropped(seen(all@, *v), map_or_empty(prev), keep);
    let mut found: Vec<u32> = Vec::new();
    if let Some(p) = prev {
        let ids = sorted_keys(p);
        let mut i: usize = 0;
        while i < ids.len()
            invariant
                i <= ids@.len(),
                ascending(ids@),
                ids@.to_set() == p@.dom(),
                map_or_empty(prev) == p@,
                lost == dropped(seen(all@, *v), p@, keep),
                ascending(found@),
                forall|k: u32| #[trigger]
                    found@.contains(k) <==> ids@.take(i as int).contains(k) && lost.contains(k),
            decreases ids@.len() - i,
        {
            let id = ids[i];
            proof {
                lemma_take_next(ids@, i as int);
                assert(ids@.to_set().contains(id));
            }
            let still_seen = match all.get(&id) {
                Some(e) => {
                    let at = e.position();
                    v.contains(at.0, at.1)
                },
                None => false,
            };
            let kept = match keep {
                Some(k) => k == id,
                None => false,
            };
            if !still_seen && !kept {
                let ghost before = found@;
                found.push(id);
                proof {
                    assert forall|a: int, b: int| 0 <= a < b < found@.len() implies found@[a]
                        < found@[b] by {
                        if b == before.len() {
                            assert(before.contains(before[a]));
                        } else {
                            assert(before[a] < before[b]);
                        }
                    }
                    assert forall|k: u32| #[trigger]
                        found@.contains(k) <==> ids@.take(i + 1).contains(k) && lost.contains(
                            k,
                        ) by {
                        if found@.contains(k) {
                            let j = choose|j: int| 0 <= j < found@.len() && found@[j] == k;
                            if j < before.len() {
                                assert(before.contains(k));
                            }
                        }
                        if before.contains(k) {
                            let j = choose|j: int| 0 <= j < before.len() && before[j] == k;
                            assert(found@[j] == k);
                        }
                        if k == id {
                            assert(found@[before.len() as int] == k);
                        }
                    }
                }
            }
            i += 1;
        }
        proof {
            assert(ids@.take(ids@.len() as int) =~= ids@);
            assert forall|k: u32| lost.contains(k) implies ids@.contains(k) by {
                assert(ids@.to_set().contains(k));
            }
            assert(found@.to_set() =~= lost);
        }
    } else {
        proof {
            assert(found@.to_set() =~= lost);
        }
    }
    proof {
        crate::ids::lemma_listing_is_ascending_ids(found@, lost);
    }
    out.append(&mut found);
}

impl GameState {
    /// Whether `(ox, oy)` lies in the box round `(px, py)`, its border
    /// included.
    pub fn is_in_viewport(
        &self,
        px: i32,
        py: i32,
        ox: i32,
        oy: i32,
        half_w: u32,
        half_h: u32,
    ) -> (b: bool)
        ensures
            b == in_viewport(
                px as int,
                py as int,
                ox as int,
                oy as int,
                half_w as int,
                half_h as int,
            ),
    {
        let v = Viewport { x: px, y: py, half_w, half_h };
        v.contains(ox, oy)
    }

    /// The viewport of the client of player `pid`: where the player is,
    /// how far the client sees to each side, and the id. There is none
    /// where there is no such player.
    pub fn resolve_viewport(&self, pid: &u32) -> (r: Option<(i32, i32, u32, u32, u32)>)
        ensures
            r is Some <==> self@.players.contains_key(*pid),
            r matches Some(t) ==> {
                let v = viewport_of(self@.players[*pid]);
                t == (v.x, v.y, v.half_w, v.half_h, *pid)
            },
    {
        broadcast use vstd::std_specs::hash::group_hash_axioms;

        match self.players.get(pid) {
            Some(player) => Some(
                (player.x, player.y, config::VIEW_HALF_WIDTH, config::VIEW_HALF_HEIGHT, *pid),
            ),
            None => None,
        }
    }

    /// Adds to a diff what has changed of the players for the client of
    /// player `pid`: the players in the viewport that the client has not
    /// seen as they are, and the ids of those that it saw and that are not
    /// in the viewport any more, its own never among them.
    pub fn collect_player_changes(
        &self,
        diff: &mut GameStateDiff,
        pid: u32,
        px: i32,
        py: i32,
        half_w: u32,
        half_h: u32,
        prev: Option<&PlayerPrevState>,
    )
        ensures
            ({
                let v = Viewport { x: px, y: py, half_w, half_h };
                let before = match prev {
                    Some(p) => p@.players,
                    None => Map::empty(),
                };
                final(diff)@ == (DiffView {
                    players: old(diff)@.players.union_prefer_right(
                        changed(seen(self@.players, v), before),
                    ),
                    removed_players: old(diff)@.removed_players + ascending_ids(
                        dropped(seen(self@.players, v), before, Some(pid)),
                    ),
                    ..old(diff)@
                })
            }),
    {
        let v = Viewport { x: px, y: py, half_w, half_h };
        let before = match prev {
            Some(p) => Some(&p.players),
            None => None,
        };
        collect_upserts(&self.players, before, &v, &mut diff.players);
        collect_removed(&self.players, before, &v, Some(pid), &mut diff.removed_players);
    }

    /// Adds to a diff what has changed of the bullets for a client: the
    /// bullets in the viewport that the client has not seen as they are,
    /// and the ids of those that it saw and that are not in the viewport
    /// any more.
    pub fn collect_bullet_changes(
        &self,
        diff: &mut GameStateDiff,
        px: i32,
        py: i32,
        half_w: u32,
        half_h: u32,
        prev: Option<&PlayerPrevState>,
    )
        ensures
            ({
                let v = Viewport { x: px, y: py, half_w, half_h };
                let before = match prev {
                    Some(p) => p@.bullets,
                    None => Map::empty(),
                };
                final(diff)@ == (DiffView {
                    bullets: old(diff)@.bullets.union_prefer_right(
                        changed(seen(self@.bullets, v), before),
                    ),
                    removed_bullets: old(diff)@.removed_bullets + ascending_ids(
                        dropped(seen(self@.bullets, v), before, None),
                    ),
                    ..old(diff)@
                })
            }),
    {
        let v = Viewport { x: px, y: py, half_w, half_h };
        let before = match prev {
            Some(p) => Some(&p.bullets),
            None => None,
        };
        collect_upserts(&self.bullets, before, &v, &mut diff.bullets);
        collect_removed(&self.bullets, before, &v, None, &mut diff.removed_bullets);
    }

    /// Adds to a diff what has changed of the modifiers for a client: the
    /// modifiers in the viewport that the client has not seen as they are,
    /// and the ids of those that it saw and that are not in the viewport
    /// any more.
    pub fn collect_modifier_changes(
        &self,
        diff: &mut GameStateDiff,
        px: i32,
        py: i32,
        half_w: u32,
        half_h: u32,
        prev: Option<&PlayerPrevState>,
    )
        ensures
            ({
                let v = Viewport { x: px, y: py, half_w, half_h };
                let before = match prev {
                    Some(p) => p@.modifieres,
                    None => Map::empty(),
                };
                final(diff)@ == (DiffView {
                    modifieres: old(diff)@.modifieres.union_prefer_right(
                        changed(seen(self@.modifieres, v), before),
                    ),
                    removed_modifieres: old(diff)@.removed_modifieres + ascending_ids(
                        dropped(seen(self@.modifieres, v), before, None),
                    ),
                    ..old(diff)@
                })
            }),
    {
        let v = Viewport { x: px, y: py, half_w, half_h };
        let before = match prev {
            Some(p) => Some(&p.modifieres),
            None => None,
        };
        collect_upserts(&self.modifieres, before, &v, &mut diff.modifieres);
        collect_removed(&self.modifieres, before, &v, None, &mut diff.removed_modifieres);
    }

    /// What a client with the given viewport sees now: exactly the
    /// entities in the viewport.
    pub fn build_new_prev_state(&self, px: i32, py: i32, half_w: u32, half_h: u32) -> (p:
        PlayerPrevState)
        ensures
            p@ == visible(self@, Viewport { x: px, y: py, half_w, half_h }),
    {
        let v = Viewport { x: px, y: py, half_w, half_h };
        PlayerPrevState {
            players: visible_of(&self.players, &v),
            bullets: visible_of(&self.bullets, &v),
            modifieres: visible_of(&self.modifieres, &v),
        }
    }

    /// The whole world as a diff: every entity, and nothing removed.
    pub fn full_snapshot(&mut self) -> (diff: GameStateDiff)
        ensures
            diff@ == full_diff(old(self)@),
            final(self)@ == old(self)@,
    {
        GameStateDiff {
            players: self.players.clone(),
            removed_players: Vec::new(),
            bullets: self.bullets.clone(),
            removed_bullets: Vec::new(),
            modifieres: self.modifieres.clone(),
            removed_modifieres: Vec::new(),
        }
    }

    /// The whole world for a client that starts: its players, bullets and
    /// modifiers, and none of what the clients saw. Where the client's
    /// player is in the world, what it sees now is recorded as seen.
    pub fn get_snapshot(&mut self, player_id: Option<&u32>) -> (snapshot: GameState)
        ensures
            (final(self)@, snapshot@) == snapshot_spec(
                old(self)@,
                match player_id {
                    Some(pid) => Some(*pid),
                    None => None,
                },
            ),
    {
        broadcast use vstd::std_specs::hash::group_hash_axioms;

        if let Some(pid) = player_id {
            if let Some((px, py, half_w, half_h, _)) = self.resolve_viewport(pid) {
                let seen_now = self.build_new_prev_state(px, py, half_w, half_h);
                self.prev_states.insert(*pid, seen_now);
                assert(self@.prev_states =~= old(self)@.prev_states.insert(
                    *pid,
                    visible(old(self)@, viewport_of(old(self)@.players[*pid])),
                ));
            }
        }
        let snapshot = GameState {
            players: self.players.clone(),
            bullets: self.bullets.clone(),
            modifieres: self.modifieres.clone(),
            last_spawn_modifieres: self.last_spawn_modifieres,
            prev_states: HashMap::new(),
        };
        assert(snapshot@.prev_states =~= Map::<u32, Entities>::empty());
        snapshot
    }

    /// The diff for one client, and the record of what it has seen. With
    /// no player id the diff is the whole world. For a player who is not in
    /// the world the diff is empty. Else the diff holds what has changed in
    /// the player's viewport since the client's last snapshot, and what the
    /// client saw becomes exactly what is in the viewport now.
    pub fn get_snapshot_diff(&mut self, player_id: Option<&u32>) -> (diff: GameStateDiff)
        ensures
            (final(self)@, diff@) == snapshot_diff_spec(
                old(self)@,
                match player_id {
                    Some(pid) => Some(*pid),
                    None => None,
                },
            ),
    {
        broadcast use vstd::std_specs::hash::group_hash_axioms;

        let pid = match player_id {
            None => {
                return self.full_snapshot();
            },
            Some(pid) => *pid,
        };
        let mut diff = GameStateDiff::new();
        let (px, py, half_w, half_h) = match self.resolve_viewport(&pid) {
            None => {
                return diff;
            },
            Some((px, py, half_w, half_h, _)) => (px, py, half_w, half_h),
        };
        let ghost v = Viewport { x: px, y: py, half_w, half_h };
        let prev = self.prev_states.get(&pid);
        assert(match prev {
            Some(p) => p@,
            None => no_entities(),
        } == last_seen(self@.prev_states, pid));
        self.collect_player_changes(&mut diff, pid, px, py, half_w, half_h, prev);
        self.collect_bullet_changes(&mut diff, px, py, half_w, half_h, prev);
        self.collect_modifier_changes(&mut diff, px, py, half_w, half_h, prev);
        proof {
            let want = diff_for(self@, last_seen(self@.prev_states, pid), pid, v);
            assert(diff@.players =~= want.players);
            assert(diff@.bullets =~= want.bullets);
            assert(diff@.modifieres =~= want.modifieres);
            assert(diff@.removed_players =~= want.removed_players);
            assert(diff@.removed_bullets =~= want.removed_bullets);
            assert(diff@.removed_modifieres =~= want.removed_modifieres);
        }
        let seen_now = self.build_new_prev_state(px, py, half_w, half_h);
        self.prev_states.insert(pid, seen_now);
        assert(self@.prev_states =~= old(self)@.prev_states.insert(pid, visible(old(self)@, v)));
        diff
    }
}

/// An entity that a client saw at one snapshot and that is not in its
/// viewport at the next, because it has left the viewport or the world, is
/// among the removed of the next diff, unless it is the one that is kept;
/// and an entity that was not in the viewport at a snapshot is not among
/// the removed of the diff that follows it, whatever the world is then.
pub proof fn lemma_left_is_removed_once<T: Entity>(
    first: Map<u32, T>,
    second: Map<u32, T>,
    third: Map<u32, T>,
    v1: Viewport,
    v2: Viewport,
    v3: Viewport,
    keep: Option<u32>,
    id: u32,
)
    requires
        seen(first, v1).contains_key(id),
        !seen(second, v2).contains_key(id),
        keep != Some(id),
    ensures
        ascending_ids(dropped(seen(second, v2), seen(first, v1), keep)).contains(id),
        !ascending_ids(dropped(seen(third, v3), seen(second, v2), keep)).contains(id),
{
    let lost = dropped(seen(second, v2), seen(first, v1), keep);
    let later = dropped(seen(third, v3), seen(second, v2), keep);
    crate::ids::lemma_ascending_ids_lists(lost);
    crate::ids::lemma_ascending_ids_lists(later);
    assert(lost.contains(id));
    assert(!later.contains(id));
}

/// Viewport completeness, for a client whose player `pid` is in the world
/// at three snapshots in a row: a bullet that the client saw at the first
/// and that is not in its viewport at the second is among the removed
/// bullets of the second diff, and not of the third. The same holds of a
/// modifier, and of a player other than the client's own.
pub proof fn lemma_viewport_completeness(w1: World, w2: World, w3: World, pid: u32, id: u32)
    requires
        w1.players.contains_key(pid),
        w2.players.contains_key(pid),
        w3.players.contains_key(pid),
    ensures
        ({
            let v1 = viewport_of(w1.players[pid]);
            let v2 = viewport_of(w2.players[pid]);
            let v3 = viewport_of(w3.players[pid]);
            let second = diff_for(w2, visible(w1, v1), pid, v2);
            let third = diff_for(w3, visible(w2, v2), pid, v3);
            &&& visible(w1, v1).bullets.contains_key(id) && !visible(w2, v2).bullets.contains_key(
                id,
            ) ==> second.removed_bullets.contains(id) && !third.removed_bullets.contains(id)
            &&& visible(w1, v1).modifieres.contains_key(id) && !visible(
                w2,
                v2,
            ).modifieres.contains_key(id) ==> second.removed_modifieres.contains(id)
                && !third.removed_modifieres.contains(id)
            &&& id != pid && visible(w1, v1).players.contains_key(id) && !visible(
                w2,
                v2,
            ).players.contains_key(id) ==> second.removed_players.contains(id)
                && !third.removed_players.contains(id)
            &&& !second.removed_players.contains(pid)
        }),
{
    let v1 = viewport_of(w1.players[pid]);
    let v2 = viewport_of(w2.players[pid]);
    let v3 = viewport_of(w3.players[pid]);
    let second = diff_for(w2, visible(w1, v1), pid, v2);
    let third = diff_for(w3, visible(w2, v2), pid, v3);
    if visible(w1, v1).bullets.contains_key(id) && !visible(w2, v2).bullets.contains_key(id) {
        lemma_left_is_removed_once(w1.bullets, w2.bullets, w3.bullets, v1, v2, v3, None, id);
        assert(second.removed_bullets.contains(id) && !third.removed_bullets.contains(id));
    }
    if visible(w1, v1).modifieres.contains_key(id) && !visible(w2, v2).modifieres.contains_key(
        id,
    ) {
        lemma_left_is_removed_once(
            w1.modifieres,
            w2.modifieres,
            w3.modifieres,
            v1,
            v2,
            v3,
            None,
            id,
        );
    }
    if id != pid && visible(w1, v1).players.contains_key(id) && !visible(
        w2,
        v2,
    ).players.contains_key(id) {
        lemma_left_is_removed_once(
            w1.players,
            w2.players,
            w3.players,
            v1,
            v2,
            v3,
            Some(pid),
            id,
        );
    }
    let own = dropped(seen(w2.players, v2), seen(w1.players, v1), Some(pid));
    crate::ids::lemma_ascending_ids_lists(own);
    assert(!own.contains(pid));
    assert(!ascending_ids(own).contains(pid));
    assert(second.removed_players == ascending_ids(own));
}

} // verus!
