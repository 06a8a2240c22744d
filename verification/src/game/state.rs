//! The state of the world, and what the commands of the players do to it.
use crate::config;
use crate::game::bullet::Bullet;
use crate::game::modifier::Modifier;
use crate::game::player::new_player;
use crate::game::player::plus_or_max;
use crate::game::player::Player;
use crate::game::player::Point;
use crate::ids::ascending_ids;
use crate::ids::lists;
use crate::ids::sorted_keys;
use crate::map::TileMap;
use std::collections::HashMap;
use vstd::prelude::*;

verus! {

/// The four ways a player can face.
#[derive(Clone, Copy, Debug, PartialEq, Eq, Structural)]
pub enum Direction {
    Up,
    Down,
    Left,
    Right,
}

/// What has changed for one client since its last snapshot: the entities
/// that it has to take over, and the ids of those that it has to drop.
#[derive(Debug)]
pub struct GameStateDiff {
    pub players: HashMap<u32, Player>,
    pub removed_players: Vec<u32>,
    pub bullets: HashMap<u32, Bullet>,
    pub removed_bullets: Vec<u32>,
    pub modifieres: HashMap<u32, Modifier>,
    pub removed_modifieres: Vec<u32>,
}

/// The mathematical content of a [`GameStateDiff`].
pub ghost struct DiffView {
    pub players: Map<u32, Player>,
    pub removed_players: Seq<u32>,
    pub bullets: Map<u32, Bullet>,
    pub removed_bullets: Seq<u32>,
    pub modifieres: Map<u32, Modifier>,
    pub removed_modifieres: Seq<u32>,
}

impl View for GameStateDiff {
    type V = DiffView;

    open spec fn view(&self) -> DiffView {
        DiffView {
            players: self.players@,
            removed_players: self.removed_players@,
            bullets: self.bullets@,
            removed_bullets: self.removed_bullets@,
            modifieres: self.modifieres@,
            removed_modifieres: self.removed_modifieres@,
        }
    }
}

/// A diff that changes nothing.
pub open spec fn empty_diff() -> DiffView {
    DiffView {
        players: Map::empty(),
        removed_players: Seq::empty(),
        bullets: Map::empty(),
        removed_bullets: Seq::empty(),
        modifieres: Map::empty(),
        removed_modifieres: Seq::empty(),
    }
}

impl GameStateDiff {
    /// A diff that changes nothing.
    pub fn new() -> (d: Self)
        ensures
            d@ == empty_diff(),
    {
        GameStateDiff {
            players: HashMap::new(),
            removed_players: Vec::new(),
            bullets: HashMap::new(),
            removed_bullets: Vec::new(),
            modifieres: HashMap::new(),
            removed_modifieres: Vec::new(),
        }
    }
}

impl Clone for GameStateDiff {
    fn clone(&self) -> (d: Self)
        ensures
            d@ == self@,
    {
        GameStateDiff {
            players: self.players.clone(),
            removed_players: self.removed_players.clone(),
            bullets: self.bullets.clone(),
            removed_bullets: self.removed_bullets.clone(),
            modifieres: self.modifieres.clone(),
            removed_modifieres: self.removed_modifieres.clone(),
        }
    }
}

/// What one client saw of the world at its last snapshot.
#[derive(Debug)]
pub struct PlayerPrevState {
    pub players: HashMap<u32, Player>,
    pub bullets: HashMap<u32, Bullet>,
    pub modifieres: HashMap<u32, Modifier>,
}

/// The mathematical content of a [`PlayerPrevState`]: the entities of each
/// kind by id.
pub ghost struct Entities {
    pub players: Map<u32, Player>,
    pub bullets: Map<u32, Bullet>,
    pub modifieres: Map<u32, Modifier>,
}

impl View for PlayerPrevState {
    type V = Entities;

    open spec fn view(&self) -> Entities {
        Entities {
            players: self.players@,
            bullets: self.bullets@,
            modifieres: self.modifieres@,
        }
    }
}

/// No entity at all.
pub open spec fn no_entities() -> Entities {
    Entities { players: Map::empty(), bullets: Map::empty(), modifieres: Map::empty() }
}

impl PlayerPrevState {
    /// The view of a client that has seen nothing.
    pub fn new() -> (p: Self)
        ensures
            p@ == no_entities(),
    {
        PlayerPrevState {
            players: HashMap::new(),
            bullets: HashMap::new(),
            modifieres: HashMap::new(),
        }
    }
}

impl Clone for PlayerPrevState {
    fn clone(&self) -> (p: Self)
        ensures
            p@ == self@,
    {
        PlayerPrevState {
            players: self.players.clone(),
            bullets: self.bullets.clone(),
            modifieres: self.modifieres.clone(),
        }
    }
}

/// The world: its players, bullets and modifiers by id, when the
/// modifiers were last regenerated, and what each client saw last.
#[derive(Debug)]
pub struct GameState {
    pub players: HashMap<u32, Player>,
    pub bullets: HashMap<u32, Bullet>,
    pub modifieres: HashMap<u32, Modifier>,
    /// When the modifiers were last regenerated, in milliseconds.
    pub last_spawn_modifieres: u64,
    /// What each client saw at its last snapshot, by the id of its player.
    pub prev_states: HashMap<u32, PlayerPrevState>,
}

impl Clone for GameState {
    fn clone(&self) -> (s: Self)
        ensures
            s@ == self@,
    {
        let s = GameState {
            players: self.players.clone(),
            bullets: self.bullets.clone(),
            modifieres: self.modifieres.clone(),
            last_spawn_modifieres: self.last_spawn_modifieres,
            prev_states: self.prev_states.clone(),
        };
        assert(s@.prev_states =~= self@.prev_states);
        s
    }
}

/// The mathematical content of a [`GameState`].
pub ghost struct World {
    pub players: Map<u32, Player>,
    pub bullets: Map<u32, Bullet>,
    pub modifieres: Map<u32, Modifier>,
    pub last_spawn_modifieres: u64,
    pub prev_states: Map<u32, Entities>,
}

impl View for GameState {
    type V = World;

    open spec fn view(&self) -> World {
        World {
            players: self.players@,
            bullets: self.bullets@,
            modifieres: self.modifieres@,
            last_spawn_modifieres: self.last_spawn_modifieres,
            prev_states: Map::new(
                |id: u32| self.prev_states@.contains_key(id),
                |id: u32| self.prev_states@[id]@,
            ),
        }
    }
}

/// A world without entities, whose modifiers count as regenerated at
/// `now`.
pub open spec fn new_world(now: u64) -> World {
    World {
        players: Map::empty(),
        bullets: Map::empty(),
        modifieres: Map::empty(),
        last_spawn_modifieres: now,
        prev_states: Map::empty(),
    }
}

/// The id for the next entity: one more than the greatest id in use, and 1
/// where none is in use. There is none once the greatest id is in use.
pub open spec fn next_after(ids: Set<u32>) -> Option<u32> {
    let listed = ascending_ids(ids);
    if listed.len() == 0 {
        Some(1u32)
    } else if listed.last() == u32::MAX {
        None
    } else {
        Some((listed.last() + 1) as u32)
    }
}

/// The next id is greater than every id in use: no id comes twice.
pub proof fn lemma_next_after_is_fresh(ids: Set<u32>, listed: Seq<u32>)
    requires
        lists(listed, ids),
    ensures
        next_after(ids) matches Some(id) ==> id >= 1 && forall|k: u32|
            ids.contains(k) ==> k < id,
        next_after(ids) is None <==> ids.contains(u32::MAX),
{
    crate::ids::lemma_listing_is_ascending_ids(listed, ids);
    if listed.len() > 0 {
        let last = listed.last();
        assert(listed.to_set().contains(last));
        assert forall|k: u32| ids.contains(k) implies k <= last by {
            assert(listed.to_set().contains(k));
            let i = choose|i: int| 0 <= i < listed.len() && listed[i] == k;
            if i < listed.len() - 1 {
                assert(listed[i] < listed[listed.len() - 1]);
            }
        }
    } else {
        if ids.contains(u32::MAX) {
            assert(listed.to_set().contains(u32::MAX));
        }
    }
}

/// The id after the greatest key of a map.
fn next_key<V>(m: &HashMap<u32, V>) -> (r: Option<u32>)
    ensures
        r == next_after(m@.dom()),
        r matches Some(id) ==> !m@.contains_key(id),
{
    let keys = sorted_keys(m);
    proof {
        lemma_next_after_is_fresh(m@.dom(), keys@);
    }
    if keys.len() == 0 {
        Some(1)
    } else {
        let last = keys[keys.len() - 1];
        if last == u32::MAX {
            None
        } else {
            Some(last + 1)
        }
    }
}

/// The place one step from a player in a direction.
pub open spec fn step_target(p: Player, dir: Direction) -> (int, int) {
    match dir {
        Direction::Up => (p.x as int, p.y - config::STEP),
        Direction::Down => (p.x as int, p.y + config::STEP),
        Direction::Left => (p.x - config::STEP, p.y as int),
        Direction::Right => (p.x + config::STEP, p.y as int),
    }
}

/// Whether a player's command to move is accepted: the player is not
/// walking already, and the place one step ahead is free of walls.
pub open spec fn move_accepted(p: Player, dir: Direction, map: TileMap) -> bool {
    !p.is_moving && !map.wall_at(step_target(p, dir).0, step_target(p, dir).1)
}

/// A player whose command to move was accepted: facing the direction, and
/// walking to the place one step ahead.
pub open spec fn after_move(p: Player, dir: Direction) -> Player {
    Player {
        direction: dir,
        is_moving: true,
        move_target: Some(
            Point { x: step_target(p, dir).0 as i32, y: step_target(p, dir).1 as i32 },
        ),
        ..p
    }
}

/// Whether a player may shoot at `now`: the player has not shot yet, or
/// the time since the last shot, in seconds, is at least one over the fire
/// rate in shots per second.
pub open spec fn can_shoot(p: Player, now: u64) -> bool {
    match p.last_shot {
        None => true,
        Some(last) => (now - last) * p.fire_rate >= 1_000_000,
    }
}

/// The unit vector of a direction. Up is towards smaller `y`.
pub open spec fn direction_vector(dir: Direction) -> (int, int) {
    match dir {
        Direction::Up => (0, -1),
        Direction::Down => (0, 1),
        Direction::Left => (-1, 0),
        Direction::Right => (1, 0),
    }
}

/// The bullet that the player under the id `owner_id` shoots: it starts
/// where the player stands, flies the way the player faces, and has the
/// player's bullet stats.
pub open spec fn bullet_of(p: Player, owner_id: u32, id: u32) -> Bullet {
    Bullet {
        id,
        owner_id,
        x: p.x,
        y: p.y,
        dx: direction_vector(p.direction).0 as i32,
        dy: direction_vector(p.direction).1 as i32,
        speed: p.bullet_speed,
        range: p.bullet_range,
        traveled: 0,
        damage: p.bullet_damage,
        hit_radius: p.hit_radius,
    }
}

/// A player put back into the game at a new place, or, with no place to
/// go, where the player is: unhurt, facing up, ready to shoot, and with one
/// death more.
pub open spec fn respawned(p: Player, place: Option<(i32, i32)>) -> Player {
    Player {
        x: match place {
            Some(at) => at.0,
            None => p.x,
        },
        y: match place {
            Some(at) => at.1,
            None => p.y,
        },
        health: p.max_health,
        direction: Direction::Up,
        last_shot: None,
        deths: plus_or_max(p.deths, 1),
        ..p
    }
}

/// The world after a player's command to move. Where the command is
/// accepted, the player faces the direction and walks to the place one
/// step ahead. It is refused, and nothing changes, where there is no such
/// player, the player is walking already, or the place ahead is not free of
/// walls.
pub open spec fn moved(w: World, player_id: Option<u32>, dir: Direction, map: TileMap) -> World {
    match player_id {
        Some(id) => if w.players.contains_key(id) && move_accepted(w.players[id], dir, map) {
            World { players: w.players.insert(id, after_move(w.players[id], dir)), ..w }
        } else {
            w
        },
        None => w,
    }
}

/// The world after a player's command to shoot at `now`. Where the player
/// may shoot, a bullet with the next bullet id starts from the player, and
/// the player has shot at `now`. Nothing changes where there is no such
/// player, the player's last shot is too short a time ago, or no bullet id
/// is left.
pub open spec fn shot(w: World, player_id: Option<u32>, now: u64) -> World {
    match player_id {
        Some(id) => if w.players.contains_key(id) && can_shoot(w.players[id], now) && next_after(
            w.bullets.dom(),
        ) is Some {
            let shooter = w.players[id];
            let bullet_id = next_after(w.bullets.dom())->0;
            World {
                players: w.players.insert(id, Player { last_shot: Some(now), ..shooter }),
                bullets: w.bullets.insert(bullet_id, bullet_of(shooter, id, bullet_id)),
                ..w
            }
        } else {
            w
        },
        None => w,
    }
}

/// The world without a player, and without what the player's client saw
/// last.
pub open spec fn left(w: World, player_id: Option<u32>) -> World {
    match player_id {
        Some(id) => World {
            players: w.players.remove(id),
            prev_states: w.prev_states.remove(id),
            ..w
        },
        None => w,
    }
}

/// Whether `elapsed` milliseconds are at least one over the fire rate.
fn enough_time(elapsed: u64, fire_rate: u32) -> (b: bool)
    ensures
        b == (elapsed * fire_rate >= 1_000_000),
{
    assert(elapsed * fire_rate <= 0xffff_ffff_ffff_ffff * 0xffff_ffff) by (nonlinear_arith)
        requires
            0 <= elapsed <= 0xffff_ffff_ffff_ffff,
            0 <= fire_rate <= 0xffff_ffff,
    ;
    elapsed as u128 * fire_rate as u128 >= 1_000_000
}

impl GameState {
    /// A world without entities, whose modifiers count as regenerated at
    /// `now`.
    pub fn new(now: u64) -> (s: Self)
        ensures
            s@ == new_world(now),
    {
        let s = GameState {
            players: HashMap::new(),
            bullets: HashMap::new(),
            modifieres: HashMap::new(),
            last_spawn_modifieres: now,
            prev_states: HashMap::new(),
        };
        assert(s@.prev_states =~= Map::<u32, Entities>::empty());
        s
    }

    /// The id for the next player.
    pub fn next_id(&self) -> (r: Option<u32>)
        ensures
            r == next_after(self@.players.dom()),
            r matches Some(id) ==> !self@.players.contains_key(id),
    {
        next_key(&self.players)
    }

    /// The id for the next bullet.
    pub fn next_bullet_id(&self) -> (r: Option<u32>)
        ensures
            r == next_after(self@.bullets.dom()),
            r matches Some(id) ==> !self@.bullets.contains_key(id),
    {
        next_key(&self.bullets)
    }

    /// Takes a player out of the world, and with the player what its
    /// client saw last.
    pub fn remove(&mut self, player_id: Option<&u32>)
        ensures
            final(self)@ == left(
                old(self)@,
                match player_id {
                    Some(id) => Some(*id),
                    None => None,
                },
            ),
    {
        broadcast use vstd::std_specs::hash::group_hash_axioms;

        if let Some(id) = player_id {
            self.players.remove(id);
            self.prev_states.remove(id);
            assert(self@.prev_states =~= old(self)@.prev_states.remove(*id));
        }
    }

    /// Puts a new player into the world at a given place. There is no id
    /// left for a player once the greatest id is in use.
    pub fn create_player_at(&mut self, x: i32, y: i32) -> (r: Option<Player>)
        ensures
            match next_after(old(self)@.players.dom()) {
                Some(id) => r == Some(new_player(id, x, y)) && final(self)@ == (World {
                    players: old(self)@.players.insert(id, new_player(id, x, y)),
                    ..old(self)@
                }),
                None => r is None && final(self)@ == old(self)@,
            },
    {
        broadcast use vstd::std_specs::hash::group_hash_axioms;

        match self.next_id() {
            Some(id) => {
                let player = Player::new(id, x, y);
                self.players.insert(id, player);
                assert(self@.prev_states =~= old(self)@.prev_states);
                Some(player)
            },
            None => None,
        }
    }

    /// Puts a new player into the world, at a random place round which no
    /// tile within the player's radius is a wall. No player is made where
    /// the map has no such place, or no id is left.
    pub fn create_player(&mut self, map: &TileMap) -> (r: Option<Player>)
        requires
            map.wf(),
        ensures
            r is Some <==> map.has_spawn_position(config::PLAYER_RADIUS) && next_after(
                old(self)@.players.dom(),
            ) is Some,
            r matches Some(p) ==> {
                &&& next_after(old(self)@.players.dom()) == Some(p.id)
                &&& p == new_player(p.id, p.x, p.y)
                &&& map.is_spawn_position(p.x as int, p.y as int, config::PLAYER_RADIUS)
                &&& final(self)@ == (World {
                    players: old(self)@.players.insert(p.id, p),
                    ..old(self)@
                })
            },
            r is None ==> final(self)@ == old(self)@,
    {
        match map.generate_spawn_position(config::PLAYER_RADIUS) {
            Some((x, y)) => self.create_player_at(x, y),
            None => None,
        }
    }

    /// A player's command to move. Where it is accepted, the player faces
    /// the direction and starts to walk to the place one step ahead. It is
    /// refused, and nothing changes, where there is no such player, the
    /// player is walking already, or the place ahead is not free of walls.
    pub fn move_player(&mut self, player_id: Option<&u32>, dir: Direction, map: &TileMap)
        requires
            map.wf(),
        ensures
            final(self)@ == moved(
                old(self)@,
                match player_id {
                    Some(id) => Some(*id),
                    None => None,
                },
                dir,
                *map,
            ),
    {
        broadcast use vstd::std_specs::hash::group_hash_axioms;

        if let Some(id) = player_id {
            let found = match self.players.get(id) {
                Some(p) => Some(*p),
                None => None,
            };
            if let Some(player) = found {
                if player.is_moving {
                    return ;
                }
                let step: i64 = config::STEP as i64;
                let (tx, ty): (i64, i64) = match dir {
                    Direction::Up => (player.x as i64, player.y as i64 - step),
                    Direction::Down => (player.x as i64, player.y as i64 + step),
                    Direction::Left => (player.x as i64 - step, player.y as i64),
                    Direction::Right => (player.x as i64 + step, player.y as i64),
                };
                if !map.is_wall(tx, ty) {
                    let moved = Player {
                        direction: dir,
                        is_moving: true,
                        move_target: Some(Point { x: tx as i32, y: ty as i32 }),
                        ..player
                    };
                    self.players.insert(*id, moved);
                    assert(self@.prev_states =~= old(self)@.prev_states);
                }
            }
        }
    }

    /// A player's command to shoot, at time `now`. Where the player may
    /// shoot, a bullet with the next bullet id starts from the player, and
    /// the player has shot at `now`. Nothing changes where there is no such
    /// player, the player's last shot is too short a time ago, or no bullet
    /// id is left.
    pub fn shoot(&mut self, player_id: Option<&u32>, now: u64)
        ensures
            final(self)@ == shot(
                old(self)@,
                match player_id {
                    Some(id) => Some(*id),
                    None => None,
                },
                now,
            ),
    {
        broadcast use vstd::std_specs::hash::group_hash_axioms;

        if let Some(id) = player_id {
            let bullet_id = match self.next_bullet_id() {
                Some(b) => b,
                None => {
                    return ;
                },
            };
            let found = match self.players.get(id) {
                Some(p) => Some(*p),
                None => None,
            };
            if let Some(player) = found {
                let ready = match player.last_shot {
                    None => true,
                    Some(last) => now >= last && enough_time(now - last, player.fire_rate),
                };
                proof {
                    if let Some(last) = player.last_shot {
                        if now < last {
                            assert((now - last) * player.fire_rate <= 0) by (nonlinear_arith)
                                requires
                                    now - last < 0,
                                    player.fire_rate >= 0,
                            ;
                        }
                    }
                }
                if !ready {
                    return ;
                }
                let (dx, dy): (i32, i32) = match player.direction {
                    Direction::Up => (0, -1),
                    Direction::Down => (0, 1),
                    Direction::Left => (-1, 0),
                    Direction::Right => (1, 0),
                };
                let bullet = Bullet {
                    id: bullet_id,
                    owner_id: *id,
                    x: player.x,
                    y: player.y,
                    dx,
                    dy,
                    speed: player.bullet_speed,
                    range: player.bullet_range,
                    traveled: 0,
                    damage: player.bullet_damage,
                    hit_radius: player.hit_radius,
                };
                self.players.insert(*id, Player { last_shot: Some(now), ..player });
                self.bullets.insert(bullet_id, bullet);
                assert(self@.prev_states =~= old(self)@.prev_states);
            }
        }
    }

    /// Puts a player back into the game at a given place, or where the
    /// player is: unhurt, facing up, ready to shoot, with one death more.
    pub fn respawn_at(&mut self, player_id: u32, place: Option<(i32, i32)>)
        ensures
            if old(self)@.players.contains_key(player_id) {
                final(self)@ == (World {
                    players: old(self)@.players.insert(
                        player_id,
                        respawned(old(self)@.players[player_id], place),
                    ),
                    ..old(self)@
                })
            } else {
                final(self)@ == old(self)@
            },
    {
        broadcast use vstd::std_specs::hash::group_hash_axioms;

        let found = match self.players.get(&player_id) {
            Some(p) => Some(*p),
            None => None,
        };
        if let Some(player) = found {
            let (x, y) = match place {
                Some(at) => at,
                None => (player.x, player.y),
            };
            let back = Player {
                x,
                y,
                health: player.max_health,
                direction: Direction::Up,
                last_shot: None,
                deths: player.deths.saturating_add(1),
                ..player
            };
            self.players.insert(player_id, back);
            assert(self@.prev_states =~= old(self)@.prev_states);
        }
    }

    /// Puts a player back into the game at a random place round which no
    /// tile within the player's radius is a wall: unhurt, facing up, ready
    /// to shoot, with one death more. Where the map has no such place, the
    /// player stays where it is.
    pub fn respawn(&mut self, player_id: u32, map: &TileMap)
        requires
            map.wf(),
        ensures
            !old(self)@.players.contains_key(player_id) ==> final(self)@ == old(self)@,
            old(self)@.players.contains_key(player_id) ==> exists|place: Option<(i32, i32)>|
                #![trigger respawned(old(self)@.players[player_id], place)]
                {
                    &&& place is Some <==> map.has_spawn_position(
                        old(self)@.players[player_id].radius,
                    )
                    &&& place matches Some(at) ==> map.is_spawn_position(
                        at.0 as int,
                        at.1 as int,
                        old(self)@.players[player_id].radius,
                    )
                    &&& final(self)@ == (World {
                        players: old(self)@.players.insert(
                            player_id,
                            respawned(old(self)@.players[player_id], place),
                        ),
                        ..old(self)@
                    })
                },
    {
        broadcast use vstd::std_specs::hash::group_hash_axioms;

        let radius = match self.players.get(&player_id) {
            Some(p) => p.radius,
            None => {
                return ;
            },
        };
        let place = map.generate_spawn_position(radius);
        self.respawn_at(player_id, place);
    }
}

} // verus!
