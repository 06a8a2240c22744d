//! One tick of the world: the bullets fly and hit, the players walk and
//! pick up, and the modifiers are regenerated when their time has come.
use crate::config;
use crate::game::bullet::Bullet;
use crate::game::modifier::Modifier;
use crate::game::modifier::ModifierKind;
use crate::game::player::damaged;
use crate::game::player::minus_or_zero;
use crate::game::player::overlaps;
use crate::game::player::plus_or_max;
use crate::game::player::touches;
use crate::game::player::Player;
use crate::game::state::respawned;
use crate::game::state::Direction;
use crate::game::state::GameState;
use crate::game::state::World;
use crate::ids::ascending_ids;
use crate::ids::lemma_take_next;
use crate::ids::sorted_keys;
use crate::map::TileMap;
use std::collections::HashMap;
use vstd::prelude::*;

verus! {

/// How far something with the given speed gets in `delta_ms` milliseconds.
pub open spec fn travel(speed: u32, delta_ms: u32) -> int {
    speed * delta_ms / 1000
}

/// How far something with the given speed gets in `delta_ms` milliseconds.
pub fn travel_of(speed: u32, delta_ms: u32) -> (d: u64)
    ensures
        d == travel(speed, delta_ms),
{
    assert(speed * delta_ms <= 0xffff_ffff * 0xffff_ffff) by (nonlinear_arith)
        requires
            0 <= speed <= 0xffff_ffff,
            0 <= delta_ms <= 0xffff_ffff,
    ;
    speed as u64 * delta_ms as u64 / 1000
}

/// Where a bullet is after `delta_ms` milliseconds of flight, and how far
/// it has travelled by then.
pub open spec fn flown(b: Bullet, delta_ms: u32) -> (int, int, int) {
    (
        b.x + b.dx * travel(b.speed, delta_ms),
        b.y + b.dy * travel(b.speed, delta_ms),
        b.traveled + travel(b.speed, delta_ms),
    )
}

/// Whether a bullet ends in this tick: where it gets to is a wall, or it
/// has travelled its range.
pub open spec fn bullet_ends(map: TileMap, b: Bullet, delta_ms: u32) -> bool {
    map.wall_at(flown(b, delta_ms).0, flown(b, delta_ms).1) || flown(b, delta_ms).2 >= b.range
}

/// A bullet after `delta_ms` milliseconds of flight.
pub open spec fn bullet_after(b: Bullet, delta_ms: u32) -> Bullet {
    Bullet {
        x: flown(b, delta_ms).0 as i32,
        y: flown(b, delta_ms).1 as i32,
        traveled: flown(b, delta_ms).2 as u32,
        ..b
    }
}

/// A place outside the range of coordinates is outside every map.
proof fn lemma_far_is_wall(map: TileMap, x: int, y: int)
    requires
        map.wf(),
        x < 0 || x > i32::MAX || y < 0 || y > i32::MAX,
    ensures
        map.wall_at(x, y),
{
    assert(map.width * config::UNIT <= 2_000_000_000) by (nonlinear_arith)
        requires
            map.width <= 2_000_000,
            config::UNIT == 1000,
    ;
    assert(map.height * config::UNIT <= 2_000_000_000) by (nonlinear_arith)
        requires
            map.height <= 2_000_000,
            config::UNIT == 1000,
    ;
}

/// A place that is free of walls is a place on the map.
pub proof fn lemma_free_is_on_map(map: TileMap, x: int, y: int)
    requires
        map.wf(),
        !map.wall_at(x, y),
    ensures
        0 <= x <= i32::MAX,
        0 <= y <= i32::MAX,
{
    if x < 0 || x > i32::MAX || y < 0 || y > i32::MAX {
        lemma_far_is_wall(map, x, y);
    }
}

/// Whether the place `(x, y)`, which may lie far outside the map, is a
/// wall.
fn wall_at_wide(map: &TileMap, x: i128, y: i128) -> (b: bool)
    requires
        map.wf(),
    ensures
        b == map.wall_at(x as int, y as int),
{
    if x < 0 || x > i32::MAX as i128 || y < 0 || y > i32::MAX as i128 {
        proof {
            lemma_far_is_wall(*map, x as int, y as int);
        }
        true
    } else {
        map.is_wall(x as i64, y as i64)
    }
}

/// Lets a bullet fly for `delta_ms` milliseconds. There is no bullet
/// afterwards where it has flown into a wall or as far as its range.
pub fn fly(b: &Bullet, map: &TileMap, delta_ms: u32) -> (r: Option<Bullet>)
    requires
        map.wf(),
    ensures
        r is None <==> bullet_ends(*map, *b, delta_ms),
        r matches Some(after) ==> after == bullet_after(*b, delta_ms),
{
    let step = travel_of(b.speed, delta_ms);
    assert(-0x8000_0000 * 0x1_0000_0000_0000_0000 <= b.dx * step <= 0x8000_0000
        * 0x1_0000_0000_0000_0000 && -0x8000_0000 * 0x1_0000_0000_0000_0000 <= b.dy * step
        <= 0x8000_0000 * 0x1_0000_0000_0000_0000) by (nonlinear_arith)
        requires
            -0x8000_0000 <= b.dx <= 0x8000_0000,
            -0x8000_0000 <= b.dy <= 0x8000_0000,
            0 <= step <= 0x1_0000_0000_0000_0000,
    ;
    let x: i128 = b.x as i128 + b.dx as i128 * step as i128;
    let y: i128 = b.y as i128 + b.dy as i128 * step as i128;
    let traveled: u128 = b.traveled as u128 + step as u128;
    if wall_at_wide(map, x, y) || traveled >= b.range as u128 {
        None
    } else {
        proof {
            lemma_free_is_on_map(*map, x as int, y as int);
        }
        Some(Bullet { x: x as i32, y: y as i32, traveled: traveled as u32, ..*b })
    }
}

/// Whether a bullet hits the player under the id `pid`: the player is not
/// its owner, and their circles overlap.
pub open spec fn is_hit(p: Player, pid: u32, b: Bullet) -> bool {
    pid != b.owner_id && overlaps(p, b.x as int, b.y as int, b.hit_radius as int)
}

/// The first player that a bullet hits among the ids from `from` on.
pub open spec fn first_victim(players: Map<u32, Player>, ids: Seq<u32>, b: Bullet, from: int) -> Option<
    u32,
>
    decreases ids.len() - from,
{
    if from < 0 || from >= ids.len() {
        None
    } else if players.contains_key(ids[from]) && is_hit(players[ids[from]], ids[from], b) {
        Some(ids[from])
    } else {
        first_victim(players, ids, b, from + 1)
    }
}

/// The first player, in the order of `ids`, that a bullet hits.
pub fn find_victim(players: &HashMap<u32, Player>, ids: &Vec<u32>, b: &Bullet) -> (r: Option<u32>)
    ensures
        r == first_victim(players@, ids@, *b, 0),
        r matches Some(pid) ==> players@.contains_key(pid) && pid != b.owner_id,
{
    broadcast use vstd::std_specs::hash::group_hash_axioms;

    let mut i: usize = 0;
    while i < ids.len()
        invariant
            i <= ids@.len(),
            first_victim(players@, ids@, *b, 0) == first_victim(players@, ids@, *b, i as int),
        decreases ids@.len() - i,
    {
        let pid = ids[i];
        if pid != b.owner_id {
            if let Some(p) = players.get(&pid) {
                if touches(p, b.x, b.y, b.hit_radius) {
                    return Some(pid);
                }
            }
        }
        i += 1;
    }
    None
}

/// The state of the bullet phase of a tick: the players and bullets as
/// they are so far, and the players that have to respawn, in the order in
/// which they were brought down.
pub ghost struct BulletPhase {
    pub players: Map<u32, Player>,
    pub bullets: Map<u32, Bullet>,
    pub respawns: Seq<u32>,
}

/// A player with one kill more.
pub open spec fn credited(p: Player) -> Player {
    Player { kills: plus_or_max(p.kills, 1), ..p }
}

/// What the bullet `bid` does in its tick. It flies; where it ends in a
/// wall or at its range, it is gone. Else it hits the first player, in
/// ascending order of the ids, who is not its owner and whose circle its
/// own overlaps: the player loses health, the bullet is gone, and where
/// the health is zero then, the player has to respawn and the owner, if
/// still in the world, has one kill more. A bullet that hits nobody flies
/// on.
pub open spec fn bullet_step(s: BulletPhase, map: TileMap, bid: u32, delta_ms: u32) -> BulletPhase {
    if !s.bullets.contains_key(bid) {
        s
    } else if bullet_ends(map, s.bullets[bid], delta_ms) {
        BulletPhase { bullets: s.bullets.remove(bid), ..s }
    } else {
        let b = bullet_after(s.bullets[bid], delta_ms);
        match first_victim(s.players, ascending_ids(s.players.dom()), b, 0) {
            None => BulletPhase { bullets: s.bullets.insert(bid, b), ..s },
            Some(pid) => {
                let victim = damaged(s.players[pid], b.damage);
                let hurt = s.players.insert(pid, victim);
                if victim.health == 0 {
                    BulletPhase {
                        players: if hurt.contains_key(b.owner_id) {
                            hurt.insert(b.owner_id, credited(hurt[b.owner_id]))
                        } else {
                            hurt
                        },
                        bullets: s.bullets.remove(bid),
                        respawns: s.respawns.push(pid),
                    }
                } else {
                    BulletPhase { players: hurt, bullets: s.bullets.remove(bid), ..s }
                }
            },
        }
    }
}

/// The bullet phase after the first `k` bullets of `order`.
pub open spec fn bullets_phase(
    s: BulletPhase,
    map: TileMap,
    order: Seq<u32>,
    delta_ms: u32,
    k: nat,
) -> BulletPhase
    decreases k,
{
    if k == 0 {
        s
    } else {
        bullet_step(
            bullets_phase(s, map, order, delta_ms, (k - 1) as nat),
            map,
            order[k - 1],
            delta_ms,
        )
    }
}

/// The bullet phase of a tick: every bullet of the world has its step, in
/// ascending order of the bullet ids.
pub open spec fn after_bullets(w: World, map: TileMap, delta_ms: u32) -> BulletPhase {
    bullets_phase(
        BulletPhase { players: w.players, bullets: w.bullets, respawns: Seq::empty() },
        map,
        ascending_ids(w.bullets.dom()),
        delta_ms,
        ascending_ids(w.bullets.dom()).len(),
    )
}

impl GameState {
    /// The bullet phase of a tick without the respawns: every bullet flies
    /// and hits, in ascending order of the bullet ids. Gives the players
    /// that have to respawn.
    pub fn advance_bullets(&mut self, map: &TileMap, delta_ms: u32) -> (respawns: Vec<u32>)
        requires
            map.wf(),
        ensures
            final(self)@ == (World {
                players: after_bullets(old(self)@, *map, delta_ms).players,
                bullets: after_bullets(old(self)@, *map, delta_ms).bullets,
                ..old(self)@
            }),
            respawns@ == after_bullets(old(self)@, *map, delta_ms).respawns,
            final(self)@.players.dom() == old(self)@.players.dom(),
            forall|i: int|
                0 <= i < respawns@.len() ==> final(self)@.players.contains_key(
                    #[trigger] respawns@[i],
                ),
    {
        broadcast use vstd::std_specs::hash::group_hash_axioms;

        let bullet_ids = sorted_keys(&self.bullets);
        let player_ids = sorted_keys(&self.players);
        let mut respawns: Vec<u32> = Vec::new();
        let ghost start = BulletPhase {
            players: self.players@,
            bullets: self.bullets@,
            respawns: Seq::empty(),
        };
        let mut i: usize = 0;
        while i < bullet_ids.len()
            invariant
                map.wf(),
                i <= bullet_ids@.len(),
                self.players@.dom() == old(self)@.players.dom(),
                player_ids@ == ascending_ids(old(self)@.players.dom()),
                self@.prev_states == old(self)@.prev_states,
                self@.modifieres == old(self)@.modifieres,
                self@.last_spawn_modifieres == old(self)@.last_spawn_modifieres,
                bullets_phase(start, *map, bullet_ids@, delta_ms, i as nat) == (BulletPhase {
                    players: self.players@,
                    bullets: self.bullets@,
                    respawns: respawns@,
                }),
                forall|j: int|
                    0 <= j < respawns@.len() ==> self.players@.contains_key(
                        #[trigger] respawns@[j],
                    ),
            decreases bullet_ids@.len() - i,
        {
            let bid = bullet_ids[i];
            let ghost before = BulletPhase {
                players: self.players@,
                bullets: self.bullets@,
                respawns: respawns@,
            };
            let found = match self.bullets.get(&bid) {
                Some(b) => Some(*b),
                None => None,
            };
            if let Some(bullet) = found {
                match fly(&bullet, map, delta_ms) {
                    None => {
                        self.bullets.remove(&bid);
                    },
                    Some(b) => {
                        match find_victim(&self.players, &player_ids, &b) {
                            None => {
                                self.bullets.insert(bid, b);
                            },
                            Some(pid) => {
                                self.bullets.remove(&bid);
                                let hit = match self.players.get(&pid) {
                                    Some(p) => Some(*p),
                                    None => None,
                                };
                                if let Some(p) = hit {
                                    let victim = Player {
                                        health: p.health.saturating_sub(b.damage),
                                        ..p
                                    };
                                    self.players.insert(pid, victim);
                                    if victim.health == 0 {
                                        respawns.push(pid);
                                        let owner = match self.players.get(&b.owner_id) {
                                            Some(o) => Some(*o),
                                            None => None,
                                        };
                                        if let Some(o) = owner {
                                            self.players.insert(
                                                b.owner_id,
                                                Player { kills: o.kills.saturating_add(1), ..o },
                                            );
                                        }
                                    }
                                }
                            },
                        }
                    },
                }
            }
            proof {
                let after = BulletPhase {
                    players: self.players@,
                    bullets: self.bullets@,
                    respawns: respawns@,
                };
                let want = bullet_step(before, *map, bid, delta_ms);
                assert(after.players =~= want.players);
                assert(after.bullets =~= want.bullets);
                assert(after.respawns =~= want.respawns);
                assert(self.players@.dom() =~= old(self)@.players.dom());
                assert(self@.prev_states =~= old(self)@.prev_states);
            }
            i += 1;
        }
        assert(self@.prev_states =~= old(self)@.prev_states);
        respawns
    }
}

/// How often an id occurs in a list.
pub open spec fn occurrences(s: Seq<u32>, id: u32) -> nat
    decreases s.len(),
{
    if s.len() == 0 {
        0
    } else {
        occurrences(s.drop_last(), id) + if s.last() == id {
            1nat
        } else {
            0nat
        }
    }
}

/// `a + n`, and the greatest number where that would be greater.
pub open spec fn plus_n_or_max(a: u32, n: nat) -> u32 {
    if a + n <= u32::MAX {
        (a + n) as u32
    } else {
        u32::MAX
    }
}

/// Where a player is after a respawn: at a place round which no tile
/// within the player's radius is a wall, or, on a map without such a
/// place, where the player was.
pub open spec fn respawn_place(before: Player, after: Player, map: TileMap) -> bool {
    if map.has_spawn_position(before.radius) {
        map.is_spawn_position(after.x as int, after.y as int, before.radius)
    } else {
        after.x == before.x && after.y == before.y
    }
}

/// Whether `after` is the player `before` after `n` respawns: for no
/// respawn the same, else at a respawn place, unhurt, facing up, ready to
/// shoot, and with `n` deaths more.
pub open spec fn respawned_times(before: Player, after: Player, map: TileMap, n: nat) -> bool {
    if n == 0 {
        after == before
    } else {
        &&& after == (Player {
            x: after.x,
            y: after.y,
            health: before.max_health,
            direction: Direction::Up,
            last_shot: None,
            deths: plus_n_or_max(before.deths, n),
            ..before
        })
        &&& respawn_place(before, after, map)
    }
}

/// What the bullet phase of a tick makes of a world: the bullets have had
/// their steps, and every player who was brought down has respawned, once
/// for each time.
pub open spec fn bullets_updated(before: World, after: World, map: TileMap, delta_ms: u32) -> bool {
    let phase = after_bullets(before, map, delta_ms);
    &&& after.bullets == phase.bullets
    &&& after.modifieres == before.modifieres
    &&& after.last_spawn_modifieres == before.last_spawn_modifieres
    &&& after.prev_states == before.prev_states
    &&& after.players.dom() == phase.players.dom()
    &&& forall|pid: u32|
        phase.players.contains_key(pid) ==> respawned_times(
            phase.players[pid],
            #[trigger] after.players[pid],
            map,
            occurrences(phase.respawns, pid),
        )
}

impl GameState {
    /// The bullet phase of a tick. Every bullet flies for `delta_ms`
    /// milliseconds, in ascending order of the bullet ids: a bullet that
    /// gets into a wall or to its range is gone; a bullet that hits a player
    /// other than its owner takes its damage from the player's health and is
    /// gone. A player whose health is zero after a hit respawns at the end
    /// of the phase, and the owner of the bullet has one kill more.
    pub fn update_bullets(&mut self, map: &TileMap, delta_ms: u32)
        requires
            map.wf(),
        ensures
            bullets_updated(old(self)@, final(self)@, *map, delta_ms),
    {
        broadcast use vstd::std_specs::hash::group_hash_axioms;

        let respawns = self.advance_bullets(map, delta_ms);
        let ghost phase = self@;
        let mut i: usize = 0;
        while i < respawns.len()
            invariant
                map.wf(),
                i <= respawns@.len(),
                self@.bullets == phase.bullets,
                self@.modifieres == phase.modifieres,
                self@.last_spawn_modifieres == phase.last_spawn_modifieres,
                self@.prev_states == phase.prev_states,
                self@.players.dom() == phase.players.dom(),
                forall|pid: u32|
                    phase.players.contains_key(pid) ==> respawned_times(
                        phase.players[pid],
                        #[trigger] self@.players[pid],
                        *map,
                        occurrences(respawns@.take(i as int), pid),
                    ),
            decreases respawns@.len() - i,
        {
            let id = respawns[i];
            let ghost before = self@;
            self.respawn(id, map);
            proof {
                assert(respawns@.take(i + 1).drop_last() =~= respawns@.take(i as int));
                assert(respawns@.take(i + 1).last() == id);
                if before.players.contains_key(id) {
                    let place = choose|place: Option<(i32, i32)>|
                        #![trigger respawned(before.players[id], place)]
                        {
                            &&& place is Some <==> map.has_spawn_position(
                                before.players[id].radius,
                            )
                            &&& place matches Some(at) ==> map.is_spawn_position(
                                at.0 as int,
                                at.1 as int,
                                before.players[id].radius,
                            )
                            &&& self@ == (World {
                                players: before.players.insert(
                                    id,
                                    respawned(before.players[id], place),
                                ),
                                ..before
                            })
                        };
                    assert(self@.players.dom() =~= phase.players.dom());
                    assert forall|pid: u32| phase.players.contains_key(pid) implies respawned_times(
                        phase.players[pid],
                        #[trigger] self@.players[pid],
                        *map,
                        occurrences(respawns@.take(i + 1), pid),
                    ) by {
                        assert(respawned_times(
                            phase.players[pid],
                            before.players[pid],
                            *map,
                            occurrences(respawns@.take(i as int), pid),
                        ));
                    }
                }
            }
            i += 1;
        }
        proof {
            assert(respawns@.take(respawns@.len() as int) =~= respawns@);
        }
    }
}

/// How far a walker gets along one axis: its share `d` of the way
/// `dist`, for a step of length `step`, rounded towards zero.
pub open spec fn toward(d: int, step: int, dist: int) -> int {
    if d >= 0 {
        step * d / dist
    } else {
        -(step * (-d) / dist)
    }
}

/// A player who stands still.
pub open spec fn halted(p: Player) -> Player {
    Player { is_moving: false, move_target: None, ..p }
}

/// A player after `delta_ms` milliseconds of walking. A player who walks
/// to a target gets there, and stands, where the target is no farther than
/// the step; else the player takes the step towards it, or stands where
/// the step would end in a wall. A player who is in a wall then stands.
pub open spec fn walked(p: Player, map: TileMap, delta_ms: u32) -> Player {
    let q = if p.is_moving && p.move_target is Some {
        let target = p.move_target->0;
        let dx = target.x - p.x;
        let dy = target.y - p.y;
        let step = travel(p.walk_speed, delta_ms);
        if dx * dx + dy * dy <= step * step {
            Player { x: target.x, y: target.y, ..halted(p) }
        } else {
            let dist = crate::math::sqrt_floor(dx * dx + dy * dy);
            let x = p.x + toward(dx, step, dist);
            let y = p.y + toward(dy, step, dist);
            if map.wall_at(x, y) {
                halted(p)
            } else {
                Player { x: x as i32, y: y as i32, ..p }
            }
        }
    } else {
        p
    };
    if map.wall_at(q.x as int, q.y as int) {
        halted(q)
    } else {
        q
    }
}

/// Whether a modifier is close enough to a player to be picked up.
pub open spec fn in_pickup_range(p: Player, m: Modifier) -> bool {
    (m.x - p.x) * (m.x - p.x) + (m.y - p.y) * (m.y - p.y) < config::PICKUP_RADIUS
        * config::PICKUP_RADIUS
}

/// A player who has picked up a modifier of the given kind.
pub open spec fn with_modifier(p: Player, kind: ModifierKind) -> Player {
    match kind {
        ModifierKind::Heal(health) => Player {
            health: plus_or_max(p.health, health),
            max_health: plus_or_max(p.max_health, health),
            ..p
        },
        ModifierKind::Speed(speed) => Player { walk_speed: plus_or_max(p.walk_speed, speed), ..p },
        ModifierKind::Damage(damage) => Player {
            bullet_damage: plus_or_max(p.bullet_damage, damage),
            ..p
        },
        ModifierKind::FireRate(rate) => Player { fire_rate: plus_or_max(p.fire_rate, rate), ..p },
    }
}

/// The player `p` after picking up, of the first `k` modifiers of `ids`,
/// those that are in range of the place where `at` stands.
pub open spec fn picked_up(
    p: Player,
    at: Player,
    mods: Map<u32, Modifier>,
    ids: Seq<u32>,
    k: nat,
) -> Player
    decreases k,
{
    if k == 0 {
        p
    } else {
        let q = picked_up(p, at, mods, ids, (k - 1) as nat);
        let id = ids[k - 1];
        if mods.contains_key(id) && in_pickup_range(at, mods[id]) {
            with_modifier(q, mods[id].kind)
        } else {
            q
        }
    }
}

/// A player after the player phase of a tick: the player has walked, and
/// has then picked up every modifier in range.
pub open spec fn player_after(
    p: Player,
    map: TileMap,
    mods: Map<u32, Modifier>,
    delta_ms: u32,
) -> Player {
    let at = walked(p, map, delta_ms);
    picked_up(at, at, mods, ascending_ids(mods.dom()), ascending_ids(mods.dom()).len())
}

/// Whether one of the first `k` players of `ids`, after walking, is in
/// range of the modifier.
pub open spec fn picked_by(
    players: Map<u32, Player>,
    ids: Seq<u32>,
    k: int,
    map: TileMap,
    delta_ms: u32,
    m: Modifier,
) -> bool {
    exists|j: int|
        0 <= j < k && j < ids.len() && players.contains_key(#[trigger] ids[j]) && in_pickup_range(
            walked(players[ids[j]], map, delta_ms),
            m,
        )
}

/// Whether a player of the world, after walking, is in range of the
/// modifier.
pub open spec fn is_picked(players: Map<u32, Player>, map: TileMap, delta_ms: u32, m: Modifier) -> bool {
    exists|pid: u32| #[trigger]
        players.contains_key(pid) && in_pickup_range(walked(players[pid], map, delta_ms), m)
}

/// The world after the player phase of a tick: every player has walked
/// and picked up the modifiers in range, and the modifiers that a player
/// has picked up are gone.
pub open spec fn after_players(w: World, map: TileMap, delta_ms: u32) -> World {
    World {
        players: Map::new(
            |pid: u32| w.players.contains_key(pid),
            |pid: u32| player_after(w.players[pid], map, w.modifieres, delta_ms),
        ),
        modifieres: Map::new(
            |id: u32|
                w.modifieres.contains_key(id) && !is_picked(
                    w.players,
                    map,
                    delta_ms,
                    w.modifieres[id],
                ),
            |id: u32| w.modifieres[id],
        ),
        ..w
    }
}

/// Whether a modifier is close enough to a player to be picked up.
pub fn reaches(p: &Player, m: &Modifier) -> (b: bool)
    ensures
        b == in_pickup_range(*p, *m),
{
    let dx: i128 = m.x as i128 - p.x as i128;
    let dy: i128 = m.y as i128 - p.y as i128;
    assert(0 <= dx * dx <= 0x1_0000_0000_0000_0000 && 0 <= dy * dy <= 0x1_0000_0000_0000_0000)
        by (nonlinear_arith)
        requires
            -0x1_0000_0000 <= dx <= 0x1_0000_0000,
            -0x1_0000_0000 <= dy <= 0x1_0000_0000,
    ;
    dx * dx + dy * dy < 1_000_000
}

/// A player who has picked up a modifier of the given kind.
pub fn apply_modifier(p: &Player, kind: &ModifierKind) -> (q: Player)
    ensures
        q == with_modifier(*p, *kind),
{
    match kind {
        ModifierKind::Heal(health) => Player {
            health: p.health.saturating_add(*health),
            max_health: p.max_health.saturating_add(*health),
            ..*p
        },
        ModifierKind::Speed(speed) => Player {
            walk_speed: p.walk_speed.saturating_add(*speed),
            ..*p
        },
        ModifierKind::Damage(damage) => Player {
            bullet_damage: p.bullet_damage.saturating_add(*damage),
            ..*p
        },
        ModifierKind::FireRate(rate) => Player {
            fire_rate: p.fire_rate.saturating_add(*rate),
            ..*p
        },
    }
}

/// The share of a step along one axis, as a signed number.
fn share(d: i64, step: u64, dist: u64) -> (r: i128)
    requires
        -0x1_0000_0000 <= d <= 0x1_0000_0000,
        dist > 0,
    ensures
        r == toward(d as int, step as int, dist as int),
        -0x1_0000_0000_0000_0000_0000_0000 <= r <= 0x1_0000_0000_0000_0000_0000_0000,
{
    let size: u128 = if d >= 0 {
        d as u128
    } else {
        (-d) as u128
    };
    assert(step * size <= 0x1_0000_0000_0000_0000 * 0x1_0000_0000) by (nonlinear_arith)
        requires
            0 <= step <= 0x1_0000_0000_0000_0000,
            0 <= size <= 0x1_0000_0000,
    ;
    let part: u128 = step as u128 * size / dist as u128;
    assert(part <= step * size) by (nonlinear_arith)
        requires
            part == (step * size) / (dist as int),
            dist > 0,
            step * size >= 0,
    ;
    if d >= 0 {
        part as i128
    } else {
        -(part as i128)
    }
}

/// Lets a player walk for `delta_ms` milliseconds.
pub fn walk(p: &Player, map: &TileMap, delta_ms: u32) -> (q: Player)
    requires
        map.wf(),
    ensures
        q == walked(*p, *map, delta_ms),
{
    let mut q = *p;
    if p.is_moving {
        if let Some(target) = p.move_target {
            let dx: i64 = target.x as i64 - p.x as i64;
            let dy: i64 = target.y as i64 - p.y as i64;
            let step: u64 = travel_of(p.walk_speed, delta_ms);
            assert(0 <= dx * dx <= 0x1_0000_0000_0000_0000 && 0 <= dy * dy
                <= 0x1_0000_0000_0000_0000 && 0 <= step * step <= 0x1_0000_0000_0000_0000
                * 0x1_0000_0000_0000_0000) by (nonlinear_arith)
                requires
                    -0x1_0000_0000 <= dx <= 0x1_0000_0000,
                    -0x1_0000_0000 <= dy <= 0x1_0000_0000,
                    0 <= step <= 0x1_0000_0000_0000_0000,
            ;
            let far: u128 = (dx as i128 * dx as i128 + dy as i128 * dy as i128) as u128;
            let near: u128 = match (step as u128).checked_mul(step as u128) {
                Some(square) => square,
                None => u128::MAX,
            };
            if far <= near {
                q = Player { x: target.x, y: target.y, is_moving: false, move_target: None, ..*p };
            } else {
                let dist = crate::math::isqrt(far);
                assert(dist > 0) by {
                    if dist == 0 {
                        assert((dist + 1) * (dist + 1) == 1) by (nonlinear_arith)
                            requires
                                dist == 0,
                        ;
                    }
                }
                let x: i128 = p.x as i128 + share(dx, step, dist);
                let y: i128 = p.y as i128 + share(dy, step, dist);
                if wall_at_wide(map, x, y) {
                    q = Player { is_moving: false, move_target: None, ..*p };
                } else {
                    proof {
                        lemma_free_is_on_map(*map, x as int, y as int);
                    }
                    q = Player { x: x as i32, y: y as i32, ..*p };
                }
            }
        }
    }
    if map.is_wall(q.x as i64, q.y as i64) {
        q = Player { is_moving: false, move_target: None, ..q };
    }
    q
}

/// Lets a player who stands at `at` pick up the modifiers in range, in
/// ascending order of their ids, and notes their ids.
fn pick_up(
    at: &Player,
    mods: &HashMap<u32, Modifier>,
    ids: &Vec<u32>,
    picked: &mut Vec<u32>,
) -> (q: Player)
    ensures
        q == picked_up(*at, *at, mods@, ids@, ids@.len()),
        forall|id: u32|
            final(picked)@.contains(id) <==> old(picked)@.contains(id) || (ids@.contains(id)
                && mods@.contains_key(id) && in_pickup_range(*at, mods@[id])),
{
    broadcast use vstd::std_specs::hash::group_hash_axioms;

    let mut q = *at;
    let mut j: usize = 0;
    while j < ids.len()
        invariant
            j <= ids@.len(),
            q == picked_up(*at, *at, mods@, ids@, j as nat),
            forall|id: u32|
                picked@.contains(id) <==> old(picked)@.contains(id) || (ids@.take(
                    j as int,
                ).contains(id) && mods@.contains_key(id) && in_pickup_range(*at, mods@[id])),
        decreases ids@.len() - j,
    {
        let id = ids[j];
        let ghost before = picked@;
        proof {
            lemma_take_next(ids@, j as int);
        }
        if let Some(m) = mods.get(&id) {
            if reaches(at, m) {
                q = apply_modifier(&q, &m.kind);
                picked.push(id);
                proof {
                    assert forall|x: u32| picked@.contains(x) <==> before.contains(x) || x
                        == id by {
                        if picked@.contains(x) {
                            let t = choose|t: int| 0 <= t < picked@.len() && picked@[t] == x;
                            if t < before.len() {
                                assert(before[t] == x);
                            }
                        }
                        if before.contains(x) {
                            let t = choose|t: int| 0 <= t < before.len() && before[t] == x;
                            assert(picked@[t] == x);
                        }
                        if x == id {
                            assert(picked@[before.len() as int] == x);
                        }
                    }
                }
            }
        }
        j += 1;
    }
    proof {
        assert(ids@.take(ids@.len() as int) =~= ids@);
    }
    q
}

impl GameState {
    /// The player phase of a tick. Every player walks for `delta_ms`
    /// milliseconds and then picks up the modifiers in range, in ascending
    /// order of their ids; the modifiers that a player has picked up are
    /// gone afterwards.
    pub fn update_players(&mut self, map: &TileMap, delta_ms: u32)
        requires
            map.wf(),
        ensures
            final(self)@ == after_players(old(self)@, *map, delta_ms),
    {
        broadcast use vstd::std_specs::hash::group_hash_axioms;

        let player_ids = sorted_keys(&self.players);
        let modifier_ids = sorted_keys(&self.modifieres);
        let ghost start = self@;
        let mut picked: Vec<u32> = Vec::new();
        let mut i: usize = 0;
        while i < player_ids.len()
            invariant
                map.wf(),
                i <= player_ids@.len(),
                crate::ids::ascending(player_ids@),
                player_ids@.to_set() == start.players.dom(),
                modifier_ids@ == ascending_ids(start.modifieres.dom()),
                modifier_ids@.to_set() == start.modifieres.dom(),
                self@.bullets == start.bullets,
                self@.modifieres == start.modifieres,
                self@.last_spawn_modifieres == start.last_spawn_modifieres,
                self@.prev_states == start.prev_states,
                self@.players.dom() == start.players.dom(),
                forall|pid: u32|
                    start.players.contains_key(pid) ==> #[trigger] self@.players[pid] == (
                    if player_ids@.take(i as int).contains(pid) {
                        player_after(start.players[pid], *map, start.modifieres, delta_ms)
                    } else {
                        start.players[pid]
                    }),
                forall|id: u32|
                    picked@.contains(id) <==> start.modifieres.contains_key(id) && picked_by(
                        start.players,
                        player_ids@,
                        i as int,
                        *map,
                        delta_ms,
                        start.modifieres[id],
                    ),
            decreases player_ids@.len() - i,
        {
            let pid = player_ids[i];
            let ghost before = picked@;
            proof {
                lemma_take_next(player_ids@, i as int);
                crate::ids::lemma_ascending_no_duplicates(player_ids@);
                assert(player_ids@.to_set().contains(pid));
                if player_ids@.take(i as int).contains(pid) {
                    let t = choose|t: int|
                        0 <= t < player_ids@.take(i as int).len() && player_ids@.take(
                            i as int,
                        )[t] == pid;
                    assert(player_ids@[t] == player_ids@[i as int]);
                }
            }
            let found = match self.players.get(&pid) {
                Some(p) => Some(*p),
                None => None,
            };
            if let Some(p) = found {
                let at = walk(&p, map, delta_ms);
                let q = pick_up(&at, &self.modifieres, &modifier_ids, &mut picked);
                self.players.insert(pid, q);
                proof {
                    assert(self@.players.dom() =~= start.players.dom());
                    assert(self@.prev_states =~= start.prev_states);
                    assert forall|id: u32|
                        picked@.contains(id) <==> start.modifieres.contains_key(id) && picked_by(
                            start.players,
                            player_ids@,
                            i + 1,
                            *map,
                            delta_ms,
                            start.modifieres[id],
                        ) by {
                        let m = start.modifieres[id];
                        if start.modifieres.contains_key(id) {
                            assert(modifier_ids@.to_set().contains(id));
                            if picked_by(start.players, player_ids@, i as int, *map, delta_ms, m) {
                                let j = choose|j: int|
                                    0 <= j < i && j < player_ids@.len()
                                        && start.players.contains_key(#[trigger] player_ids@[j])
                                        && in_pickup_range(
                                        walked(start.players[player_ids@[j]], *map, delta_ms),
                                        m,
                                    );
                                assert(0 <= j < i + 1 && start.players.contains_key(
                                    player_ids@[j],
                                ));
                            }
                            if in_pickup_range(at, m) {
                                assert(0 <= i < i + 1 && start.players.contains_key(
                                    player_ids@[i as int],
                                ));
                            }
                            if picked_by(start.players, player_ids@, i + 1, *map, delta_ms, m) {
                                let j = choose|j: int|
                                    0 <= j < i + 1 && j < player_ids@.len()
                                        && start.players.contains_key(#[trigger] player_ids@[j])
                                        && in_pickup_range(
                                        walked(start.players[player_ids@[j]], *map, delta_ms),
                                        m,
                                    );
                                if j < i {
                                    assert(picked_by(
                                        start.players,
                                        player_ids@,
                                        i as int,
                                        *map,
                                        delta_ms,
                                        m,
                                    ));
                                }
                            }
                        }
                    }
                }
            }
            i += 1;
        }
        let ghost walked_world = self@;
        let mut k: usize = 0;
        while k < picked.len()
            invariant
                k <= picked@.len(),
                self@.players == walked_world.players,
                self@.bullets == walked_world.bullets,
                self@.last_spawn_modifieres == walked_world.last_spawn_modifieres,
                self@.prev_states == walked_world.prev_states,
                forall|id: u32| #[trigger]
                    self.modifieres@.contains_key(id) <==> start.modifieres.contains_key(id)
                        && !picked@.take(k as int).contains(id),
                forall|id: u32|
                    self.modifieres@.contains_key(id) ==> #[trigger] self.modifieres@[id]
                        == start.modifieres[id],
            decreases picked@.len() - k,
        {
            let ghost mods_before = self.modifieres@;
            let gone = picked[k];
            self.modifieres.remove(&gone);
            proof {
                lemma_take_next(picked@, k as int);
                assert(self.modifieres@ == mods_before.remove(gone));
                assert forall|id: u32| #[trigger]
                    self.modifieres@.contains_key(id) <==> start.modifieres.contains_key(id)
                        && !picked@.take(k + 1).contains(id) by {
                    assert(mods_before.contains_key(id) <==> start.modifieres.contains_key(id)
                        && !picked@.take(k as int).contains(id));
                    assert(picked@.take(k + 1).contains(id) <==> picked@.take(k as int).contains(
                        id,
                    ) || id == gone);
                }
                assert(self@.prev_states =~= walked_world.prev_states);
            }
            k += 1;
        }
        proof {
            assert(picked@.take(picked@.len() as int) =~= picked@);
            assert(player_ids@.take(player_ids@.len() as int) =~= player_ids@);
            let want = after_players(start, *map, delta_ms);
            assert forall|id: u32| start.modifieres.contains_key(id) implies (picked_by(
                start.players,
                player_ids@,
                player_ids@.len() as int,
                *map,
                delta_ms,
                start.modifieres[id],
            ) <==> is_picked(start.players, *map, delta_ms, start.modifieres[id])) by {
                let m = start.modifieres[id];
                if is_picked(start.players, *map, delta_ms, m) {
                    let pid = choose|pid: u32| #[trigger]
                        start.players.contains_key(pid) && in_pickup_range(
                            walked(start.players[pid], *map, delta_ms),
                            m,
                        );
                    assert(player_ids@.to_set().contains(pid));
                    let j = choose|j: int| 0 <= j < player_ids@.len() && player_ids@[j] == pid;
                    assert(start.players.contains_key(player_ids@[j]));
                }
                if picked_by(
                    start.players,
                    player_ids@,
                    player_ids@.len() as int,
                    *map,
                    delta_ms,
                    m,
                ) {
                    let j = choose|j: int|
                        0 <= j < player_ids@.len() && j < player_ids@.len()
                            && start.players.contains_key(#[trigger] player_ids@[j])
                            && in_pickup_range(
                            walked(start.players[player_ids@[j]], *map, delta_ms),
                            m,
                        );
                    assert(start.players.contains_key(player_ids@[j]));
                }
            }
            assert forall|pid: u32| start.players.contains_key(pid) implies self@.players[pid]
                == want.players[pid] by {
                assert(player_ids@.to_set().contains(pid));
                assert(player_ids@.contains(pid));
            }
            assert(self@.players =~= want.players);
            assert(self@.modifieres =~= want.modifieres);
        }
    }
}

/// Number of modifiers on a map: one for every `TILES_PER_MODIFIER`
/// tiles, rounded to the nearest, and no more than the ids allow.
pub open spec fn modifier_count(map: TileMap) -> int {
    let n = (map.width * map.height + config::TILES_PER_MODIFIER / 2) / (
    config::TILES_PER_MODIFIER as int);
    if n > u32::MAX {
        u32::MAX as int
    } else {
        n
    }
}

/// Whether the modifiers are due for regeneration at `now`.
pub open spec fn modifiers_due(w: World, now: u64) -> bool {
    now - w.last_spawn_modifieres >= config::MODIFIER_RESPAWN_TIME
}

/// Whether `m` may be the modifier that is generated under `id`: it lies
/// at the centre of a tile whose box is free of walls, and is of one of the
/// four kinds.
pub open spec fn fresh_modifier(m: Modifier, id: u32, map: TileMap) -> bool {
    &&& m.id == id
    &&& map.is_free_centre(m.x as int, m.y as int)
    &&& exists|choice: int| 0 <= choice < 4 && m.kind == crate::game::modifier::kind_of_choice(choice)
}

/// What the modifier phase of a tick makes of a world. Before the
/// modifiers are due, nothing. Once they are due, the old ones are gone and
/// new ones are there under the ids from 0, as many as the size of the map
/// asks for, unless the map has no place for them.
pub open spec fn modifiers_updated(before: World, after: World, map: TileMap, now: u64) -> bool {
    if !modifiers_due(before, now) {
        after == before
    } else {
        &&& after.players == before.players
        &&& after.bullets == before.bullets
        &&& after.prev_states == before.prev_states
        &&& after.last_spawn_modifieres == now
        &&& forall|id: u32| #[trigger]
            after.modifieres.contains_key(id) ==> id < modifier_count(map) && fresh_modifier(
                after.modifieres[id],
                id,
                map,
            )
        &&& map.has_free_centre() ==> forall|id: u32|
            id < modifier_count(map) ==> #[trigger] after.modifieres.contains_key(id)
    }
}

/// What a tick makes of a world: the bullet phase, then the player phase,
/// then the modifier phase, each on what the one before it left.
pub open spec fn ticked(before: World, after: World, map: TileMap, delta_ms: u32, now: u64) -> bool {
    exists|a: World, b: World|
        #![trigger bullets_updated(before, a, map, delta_ms), modifiers_updated(b, after, map, now)]
        bullets_updated(before, a, map, delta_ms) && b == after_players(a, map, delta_ms)
            && modifiers_updated(b, after, map, now)
}

/// Number of modifiers on a map.
pub fn count_modifiers(map: &TileMap) -> (n: u32)
    requires
        map.wf(),
    ensures
        n == modifier_count(*map),
{
    assert(map.width * map.height <= 4_000_000_000_000) by (nonlinear_arith)
        requires
            map.width <= 2_000_000,
            map.height <= 2_000_000,
    ;
    let n: u64 = (map.width as u64 * map.height as u64 + 250) / 500;
    if n > u32::MAX as u64 {
        u32::MAX
    } else {
        n as u32
    }
}

impl GameState {
    /// The modifier phase of a tick. Once `MODIFIER_RESPAWN_TIME`
    /// milliseconds have passed since the last regeneration, all modifiers
    /// are dropped and new ones are generated, each at the centre of a
    /// random tile whose box is free of walls, and of a random kind.
    pub fn spawn_modifiers(&mut self, map: &TileMap, now: u64)
        requires
            map.wf(),
        ensures
            modifiers_updated(old(self)@, final(self)@, *map, now),
    {
        broadcast use vstd::std_specs::hash::group_hash_axioms;

        if now < self.last_spawn_modifieres || now - self.last_spawn_modifieres
            < config::MODIFIER_RESPAWN_TIME {
            return ;
        }
        self.last_spawn_modifieres = now;
        self.modifieres.clear();
        let mut rng = rand::thread_rng();
        let count = count_modifiers(map);
        let mut id: u32 = 0;
        while id < count
            invariant
                map.wf(),
                id <= count,
                count == modifier_count(*map),
                self@.players == old(self)@.players,
                self@.bullets == old(self)@.bullets,
                self@.prev_states == old(self)@.prev_states,
                self@.last_spawn_modifieres == now,
                forall|k: u32| #[trigger]
                    self.modifieres@.contains_key(k) ==> k < id && fresh_modifier(
                        self.modifieres@[k],
                        k,
                        *map,
                    ),
                map.has_free_centre() ==> forall|k: u32|
                    k < id ==> #[trigger] self.modifieres@.contains_key(k),
            decreases count - id,
        {
            if let Some((x, y)) = map.random_free_centre(&mut rng) {
                let kind = ModifierKind::random(&mut rng);
                self.modifieres.insert(id, Modifier { id, x, y, kind });
                proof {
                    assert(self@.prev_states =~= old(self)@.prev_states);
                }
            }
            id += 1;
        }
    }

    /// One tick of the world: the bullet phase, then the player phase,
    /// then the modifier phase.
    pub fn update(&mut self, map: &TileMap, delta_ms: u32, now: u64)
        requires
            map.wf(),
        ensures
            ticked(old(self)@, final(self)@, *map, delta_ms, now),
    {
        self.update_bullets(map, delta_ms);
        let ghost a = self@;
        self.update_players(map, delta_ms);
        let ghost b = self@;
        self.spawn_modifiers(map, now);
        proof {
            assert(bullets_updated(old(self)@, a, *map, delta_ms) && b == after_players(
                a,
                *map,
                delta_ms,
            ) && modifiers_updated(b, self@, *map, now));
        }
    }
}

/// Whether the player `a` is the only one that a bullet hits.
pub open spec fn only_victim(players: Map<u32, Player>, a: u32, b: Bullet) -> bool {
    &&& players.contains_key(a)
    &&& is_hit(players[a], a, b)
    &&& forall|p: u32| #[trigger] players.contains_key(p) && p != a ==> !is_hit(players[p], p, b)
}

/// Where one player only is hit, that player is the first that is hit.
proof fn lemma_only_victim_is_first(
    players: Map<u32, Player>,
    ids: Seq<u32>,
    b: Bullet,
    a: u32,
    from: int,
    at: int,
)
    requires
        only_victim(players, a, b),
        0 <= from <= at < ids.len(),
        ids[at] == a,
    ensures
        first_victim(players, ids, b, from) == Some(a),
    decreases at - from,
{
    if from < at {
        if ids[from] != a {
            assert(players.contains_key(ids[from]) ==> !is_hit(players[ids[from]], ids[from], b));
        }
        lemma_only_victim_is_first(players, ids, b, a, from + 1, at);
    }
}

/// What one hit does, in a world with any number of bullets and players:
/// where the bullet `bid` flies on and hits the player `a` and nobody else,
/// the bullet is gone, `a` has lost the damage of the bullet from its
/// health, which does not go below zero, and the health of every other
/// player is as it was. Where that brings the health of `a` to zero, `a`
/// has to respawn, the owner of the bullet has one kill more, and nobody
/// else's kills have changed; where `a` survives, nobody's kills have
/// changed and nobody has to respawn.
pub proof fn lemma_hit_takes_damage(
    s: BulletPhase,
    map: TileMap,
    bid: u32,
    delta_ms: u32,
    a: u32,
)
    requires
        s.bullets.contains_key(bid),
        !bullet_ends(map, s.bullets[bid], delta_ms),
        only_victim(s.players, a, bullet_after(s.bullets[bid], delta_ms)),
    ensures
        ({
            let b = bullet_after(s.bullets[bid], delta_ms);
            let r = bullet_step(s, map, bid, delta_ms);
            let killed = s.players[a].health <= b.damage;
            &&& !r.bullets.contains_key(bid)
            &&& r.bullets == s.bullets.remove(bid)
            &&& r.players.dom() == s.players.dom()
            &&& r.players[a].health == minus_or_zero(s.players[a].health, b.damage)
            &&& forall|p: u32|
                s.players.contains_key(p) && p != a ==> (#[trigger] r.players[p]).health
                    == s.players[p].health
            &&& forall|p: u32|
                s.players.contains_key(p) ==> (#[trigger] r.players[p]).kills == (if killed && p
                    == b.owner_id {
                    plus_or_max(s.players[p].kills, 1)
                } else {
                    s.players[p].kills
                })
            &&& r.respawns == (if killed {
                s.respawns.push(a)
            } else {
                s.respawns
            })
        }),
{
    let b = bullet_after(s.bullets[bid], delta_ms);
    let ids = ascending_ids(s.players.dom());
    crate::ids::lemma_ascending_ids_lists(s.players.dom());
    assert(ids.contains(a));
    let at = choose|i: int| 0 <= i < ids.len() && ids[i] == a;
    lemma_only_victim_is_first(s.players, ids, b, a, 0, at);
    let r = bullet_step(s, map, bid, delta_ms);
    let victim = damaged(s.players[a], b.damage);
    let hurt = s.players.insert(a, victim);
    assert(a != b.owner_id);
    if victim.health == 0 {
        if hurt.contains_key(b.owner_id) {
            assert(r.players =~= hurt.insert(b.owner_id, credited(hurt[b.owner_id])));
        }
    }
    assert(r.players.dom() =~= s.players.dom());
}

/// A player who was brought down once in a tick is back in the game after
/// the bullet phase: at a place round which no tile within the player's
/// radius is a wall, where the map has one, unhurt, with one death more,
/// and with the kills that the bullets gave. A player who was not brought
/// down is as the bullets left it.
pub proof fn lemma_respawn_after_the_bullets(
    before: World,
    after: World,
    map: TileMap,
    delta_ms: u32,
    pid: u32,
)
    requires
        bullets_updated(before, after, map, delta_ms),
        after_bullets(before, map, delta_ms).players.contains_key(pid),
    ensures
        ({
            let phase = after_bullets(before, map, delta_ms);
            let hit = phase.players[pid];
            let back = after.players[pid];
            &&& after.players.contains_key(pid)
            &&& occurrences(phase.respawns, pid) == 0 ==> back == hit
            &&& occurrences(phase.respawns, pid) == 1 ==> {
                &&& back.health == hit.max_health
                &&& back.deths == plus_or_max(hit.deths, 1)
                &&& back.kills == hit.kills
                &&& back.id == hit.id
                &&& map.has_spawn_position(hit.radius) ==> map.is_spawn_position(
                    back.x as int,
                    back.y as int,
                    hit.radius,
                )
            }
        }),
{
    let phase = after_bullets(before, map, delta_ms);
    assert(respawned_times(
        phase.players[pid],
        after.players[pid],
        map,
        occurrences(phase.respawns, pid),
    ));
    assert(after.players.dom().contains(pid));
}

/// The bullet phase of a world with one bullet is the step of that bullet.
pub proof fn lemma_one_bullet(w: World, map: TileMap, delta_ms: u32, bid: u32)
    requires
        w.bullets.dom() == set![bid],
    ensures
        after_bullets(w, map, delta_ms) == bullet_step(
            BulletPhase { players: w.players, bullets: w.bullets, respawns: Seq::empty() },
            map,
            bid,
            delta_ms,
        ),
{
    let order = seq![bid];
    assert(order.to_set() =~= set![bid]) by {
        assert(order[0] == bid);
    }
    crate::ids::lemma_listing_is_ascending_ids(order, set![bid]);
    let start = BulletPhase { players: w.players, bullets: w.bullets, respawns: Seq::empty() };
    assert(bullets_phase(start, map, order, delta_ms, 0) == start);
    assert(bullets_phase(start, map, order, delta_ms, 1) == bullet_step(
        bullets_phase(start, map, order, delta_ms, 0),
        map,
        order[0],
        delta_ms,
    ));
}

/// A tick with one bullet that hits one player: in a world whose only
/// bullet flies on and hits the player `a` and nobody else, the bullet is
/// gone after the bullet phase and the health of every other player is as
/// it was. Where the hit leaves `a` alive, `a` has lost the damage of the
/// bullet and nobody's kills have changed. Where it brings `a` down, `a` is
/// back in the game, unhurt, at a place to spawn where the map has one, with
/// one death more; the owner of the bullet has exactly one kill more, and
/// nobody else's kills have changed.
pub proof fn lemma_one_hit(
    before: World,
    after: World,
    map: TileMap,
    delta_ms: u32,
    bid: u32,
    a: u32,
)
    requires
        before.bullets.dom() == set![bid],
        !bullet_ends(map, before.bullets[bid], delta_ms),
        only_victim(before.players, a, bullet_after(before.bullets[bid], delta_ms)),
        bullets_updated(before, after, map, delta_ms),
    ensures
        ({
            let b = bullet_after(before.bullets[bid], delta_ms);
            let killed = before.players[a].health <= b.damage;
            &&& after.bullets.dom() == Set::<u32>::empty()
            &&& after.players.dom() == before.players.dom()
            &&& forall|p: u32|
                before.players.contains_key(p) && p != a ==> (#[trigger] after.players[p]).health
                    == before.players[p].health
            &&& forall|p: u32|
                before.players.contains_key(p) ==> (#[trigger] after.players[p]).kills == (
                if killed && p == b.owner_id {
                    plus_or_max(before.players[p].kills, 1)
                } else {
                    before.players[p].kills
                })
            &&& !killed ==> after.players[a] == damaged(before.players[a], b.damage)
            &&& killed ==> {
                &&& after.players[a].health == before.players[a].max_health
                &&& after.players[a].deths == plus_or_max(before.players[a].deths, 1)
                &&& map.has_spawn_position(before.players[a].radius) ==> map.is_spawn_position(
                    after.players[a].x as int,
                    after.players[a].y as int,
                    before.players[a].radius,
                )
            }
        }),
{
    let b = bullet_after(before.bullets[bid], delta_ms);
    let killed = before.players[a].health <= b.damage;
    let start = BulletPhase {
        players: before.players,
        bullets: before.bullets,
        respawns: Seq::empty(),
    };
    lemma_one_bullet(before, map, delta_ms, bid);
    assert(before.bullets.contains_key(bid)) by {
        assert(set![bid].contains(bid));
    }
    lemma_hit_takes_damage(start, map, bid, delta_ms, a);
    let phase = after_bullets(before, map, delta_ms);
    assert(after.bullets.dom() =~= Set::<u32>::empty());
    assert(Seq::<u32>::empty().push(a) =~= seq![a]);
    assert(seq![a].drop_last() =~= Seq::<u32>::empty());
    assert forall|p: u32| before.players.contains_key(p) implies occurrences(phase.respawns, p) == (
    if killed && p == a {
        1nat
    } else {
        0nat
    }) by {
        if killed {
            assert(phase.respawns == seq![a]);
            assert(occurrences(seq![a].drop_last(), p) == 0);
        }
    }
    assert forall|p: u32| before.players.contains_key(p) implies (if killed && p == a {
        respawned_times(phase.players[p], #[trigger] after.players[p], map, 1)
    } else {
        after.players[p] == phase.players[p]
    }) by {
        assert(respawned_times(
            phase.players[p],
            after.players[p],
            map,
            occurrences(phase.respawns, p),
        ));
    }
}

} // verus!
