use termarena::client::state::ClientState;
use termarena::game::bullet::Bullet;
use termarena::game::modifier::Modifier;
use termarena::game::modifier::ModifierKind;
use termarena::game::player::Player;
use termarena::game::state::GameState;
use termarena::game::state::GameStateDiff;
use termarena::map::Tile;
use termarena::map::TileMap;

fn bullet_at(id: u32, x: i32) -> Bullet {
    Bullet {
        id,
        owner_id: 1,
        x,
        y: 0,
        dx: 1,
        dy: 0,
        speed: 7000,
        range: 10000,
        traveled: 0,
        damage: 3,
        hit_radius: 500,
    }
}

fn modifier_at(id: u32, x: i32) -> Modifier {
    Modifier { id, x, y: 0, kind: ModifierKind::Speed(1000) }
}

fn sorted<T>(m: &std::collections::HashMap<u32, T>) -> Vec<u32> {
    let mut ids: Vec<u32> = m.keys().copied().collect();
    ids.sort();
    ids
}

fn client_with_world() -> ClientState {
    let mut s = GameState::new(0);
    for id in 1..=3 {
        s.players.insert(id, Player::new(id, 1000 * id as i32, 0));
    }
    for id in 1..=4 {
        s.bullets.insert(id, bullet_at(id, 100));
        s.modifieres.insert(id, modifier_at(id, 200));
    }
    let mut c = ClientState::new();
    c.init_player(Player::new(1, 1000, 0));
    c.update_state(s);
    c
}

fn some_diff() -> GameStateDiff {
    let mut d = GameStateDiff::new();
    d.players.insert(2, Player { health: 1, ..Player::new(2, 2500, 0) });
    d.players.insert(5, Player::new(5, 5000, 0));
    d.removed_players = vec![3, 1, 9];
    d.bullets.insert(1, bullet_at(1, 800));
    d.bullets.insert(6, bullet_at(6, 0));
    d.removed_bullets = vec![2, 6, 8];
    d.modifieres.insert(7, modifier_at(7, 0));
    d.removed_modifieres = vec![4, 4, 1];
    d
}

#[test]
fn new_client_knows_nothing() {
    let c = ClientState::new();
    assert_eq!(c.id, None);
    assert!(c.map.is_none());
    assert!(c.game_state.is_none());
    assert_eq!(c.get_current_player(), None);
}

#[test]
fn client_keeps_its_first_id() {
    let mut c = ClientState::new();
    c.init_player(Player::new(4, 0, 0));
    assert_eq!(c.id, Some(4));
    c.init_player(Player::new(9, 0, 0));
    assert_eq!(c.id, Some(4));
    c.set_player(Player::new(9, 0, 0));
    assert_eq!(c.id, Some(9));
}

#[test]
fn client_keeps_its_first_map() {
    let mut c = ClientState::new();
    c.set_map(TileMap { width: 2, height: 1, tiles: vec![vec![Tile::Empty, Tile::Wall]] });
    c.set_map(TileMap { width: 1, height: 1, tiles: vec![vec![Tile::Wall]] });
    assert_eq!(c.map.as_ref().unwrap().width, 2);
}

#[test]
fn snapshot_replaces_the_copy() {
    let mut c = client_with_world();
    let mut s = GameState::new(0);
    s.players.insert(8, Player::new(8, 0, 0));
    c.update_state(s);
    assert_eq!(sorted(&c.game_state.as_ref().unwrap().players), vec![8]);
    assert!(c.game_state.as_ref().unwrap().bullets.is_empty());
    c.set_game_state(GameState::new(0));
    assert!(c.game_state.as_ref().unwrap().players.is_empty());
}

#[test]
fn current_player_is_the_one_with_the_clients_id() {
    let mut c = client_with_world();
    assert_eq!(c.get_current_player(), Some(Player::new(1, 1000, 0)));
    assert_eq!(c.current_player(), Some(Player::new(1, 1000, 0)));
    c.id = Some(77);
    assert_eq!(c.get_current_player(), None);
    c.id = None;
    assert_eq!(c.get_current_player(), None);
}

#[test]
fn diff_upserts_and_removes() {
    let mut c = client_with_world();
    c.update_state_diff(some_diff());
    let w = c.game_state.as_ref().unwrap();
    // player 3 is dropped; the client's own player 1 is hidden instead
    assert_eq!(sorted(&w.players), vec![1, 2, 5]);
    assert_eq!(w.players[&1], Player { to_render: false, ..Player::new(1, 1000, 0) });
    assert_eq!(w.players[&2], Player { health: 1, ..Player::new(2, 2500, 0) });
    assert_eq!(w.players[&5], Player::new(5, 5000, 0));
    // bullet 6 comes and goes with the same diff
    assert_eq!(sorted(&w.bullets), vec![1, 3, 4]);
    assert_eq!(w.bullets[&1], bullet_at(1, 800));
    assert_eq!(w.bullets[&3], bullet_at(3, 100));
    assert_eq!(sorted(&w.modifieres), vec![2, 3, 7]);
    assert_eq!(c.id, Some(1));
}

#[test]
fn same_diff_twice_is_as_once() {
    let mut once = client_with_world();
    once.update_state_diff(some_diff());
    let mut twice = client_with_world();
    twice.update_state_diff(some_diff());
    twice.update_state_diff(some_diff());
    let a = once.game_state.as_ref().unwrap();
    let b = twice.game_state.as_ref().unwrap();
    assert_eq!(a.players, b.players);
    assert_eq!(a.bullets, b.bullets);
    assert_eq!(a.modifieres, b.modifieres);
}

#[test]
fn same_diff_twice_is_as_once_without_a_copy() {
    let mut once = ClientState::new();
    once.update_state_diff(some_diff());
    let mut twice = ClientState::new();
    twice.update_state_diff(some_diff());
    twice.update_state_diff(some_diff());
    let a = once.game_state.as_ref().unwrap();
    let b = twice.game_state.as_ref().unwrap();
    assert_eq!(sorted(&a.players), vec![2, 5]);
    assert_eq!(sorted(&a.bullets), vec![1]);
    assert_eq!(sorted(&a.modifieres), vec![7]);
    assert_eq!(a.players, b.players);
    assert_eq!(a.bullets, b.bullets);
    assert_eq!(a.modifieres, b.modifieres);
}

#[test]
fn client_without_an_id_drops_every_removed_player() {
    let mut c = client_with_world();
    c.id = None;
    c.update_state_diff(some_diff());
    assert_eq!(sorted(&c.game_state.as_ref().unwrap().players), vec![2, 5]);
}

#[test]
fn hidden_player_shows_again_when_the_server_sends_it() {
    let mut c = client_with_world();
    let mut hide = GameStateDiff::new();
    hide.removed_players = vec![1];
    c.update_state_diff(hide);
    assert!(!c.get_current_player().unwrap().to_render);
    let mut show = GameStateDiff::new();
    show.players.insert(1, Player::new(1, 1200, 0));
    c.update_state_diff(show);
    assert_eq!(c.get_current_player(), Some(Player::new(1, 1200, 0)));
}

#[test]
fn own_player_that_is_unknown_stays_unknown() {
    let mut c = ClientState::new();
    c.init_player(Player::new(1, 0, 0));
    let mut d = GameStateDiff::new();
    d.removed_players = vec![1];
    c.update_state_diff(d);
    assert!(c.game_state.as_ref().unwrap().players.is_empty());
}

#[test]
fn empty_diff_changes_nothing() {
    let mut c = client_with_world();
    c.update_state_diff(GameStateDiff::new());
    let w = c.game_state.as_ref().unwrap();
    assert_eq!(sorted(&w.players), vec![1, 2, 3]);
    assert_eq!(sorted(&w.bullets), vec![1, 2, 3, 4]);
    assert_eq!(sorted(&w.modifieres), vec![1, 2, 3, 4]);
    assert_eq!(w.players[&1], Player::new(1, 1000, 0));
}

#[test]
fn client_follows_the_server_through_its_diffs() {
    let mut server = GameState::new(0);
    server.players.insert(1, Player::new(1, 50_000, 50_000));
    server.bullets.insert(1, bullet_at(1, 50_000));
    server.bullets.get_mut(&1).unwrap().y = 50_000;
    let mut c = ClientState::new();
    c.init_player(Player::new(1, 50_000, 50_000));
    c.update_state_diff(server.get_snapshot_diff(Some(&1)));
    assert_eq!(sorted(&c.game_state.as_ref().unwrap().bullets), vec![1]);
    server.bullets.get_mut(&1).unwrap().x = 60_000;
    server.bullets.insert(2, bullet_at(2, 0));
    c.update_state_diff(server.get_snapshot_diff(Some(&1)));
    assert_eq!(c.game_state.as_ref().unwrap().bullets[&1].x, 60_000);
    assert_eq!(sorted(&c.game_state.as_ref().unwrap().bullets), vec![1]);
    server.bullets.get_mut(&1).unwrap().x = 90_000;
    c.update_state_diff(server.get_snapshot_diff(Some(&1)));
    assert!(c.game_state.as_ref().unwrap().bullets.is_empty());
    assert_eq!(c.get_current_player(), Some(Player::new(1, 50_000, 50_000)));
}

#[test]
fn merge_leaves_the_shared_copy_as_it_was() {
    let mut c = client_with_world();
    let held = c.game_state.clone().unwrap();
    c.update_state_diff(some_diff());
    assert_eq!(sorted(&held.players), vec![1, 2, 3]);
    assert_eq!(sorted(&held.bullets), vec![1, 2, 3, 4]);
    assert_eq!(held.players[&1], Player::new(1, 1000, 0));
    let now = c.game_state.as_ref().unwrap();
    assert!(!std::sync::Arc::ptr_eq(&held, now));
    assert_eq!(sorted(&now.players), vec![1, 2, 5]);
}
