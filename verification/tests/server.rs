use std::collections::HashSet;
use termarena::game::player::Player;
use termarena::game::player::Point;
use termarena::game::state::Direction;
use termarena::map::Tile;
use termarena::map::TileMap;
use termarena::network::state::ClientMessage;
use termarena::network::state::ServerMessage;
use termarena::server::Server;
use termarena::sessions::Address;
use termarena::sessions::Client;
use termarena::sessions::Sessions;

fn open_map(width: usize, height: usize) -> TileMap {
    TileMap { width, height, tiles: vec![vec![Tile::Empty; width]; height] }
}

fn address(n: u16) -> Address {
    Address { ip: 0xffff_7f00_0001, port: n }
}

fn encoded_map() -> Vec<u8> {
    (0..3000usize).map(|i| (i % 7) as u8).collect()
}

fn server() -> Server {
    Server::new(open_map(100, 100), &encoded_map(), 0)
}

#[test]
fn registry_starts_empty() {
    let s = Sessions::new();
    assert!(s.clients.is_empty());
    assert!(s.is_valid());
    assert_eq!(s.find(&address(1)), None);
    assert_eq!(s.player_of(&address(1)), None);
}

#[test]
fn registered_client_has_no_player_yet() {
    let mut s = Sessions::new();
    s.register(address(1));
    s.register(address(2));
    s.register(address(1));
    assert_eq!(
        s.clients,
        vec![
            Client { address: address(1), player_id: None },
            Client { address: address(2), player_id: None },
        ]
    );
    assert_eq!(s.find(&address(2)), Some(1));
    assert_eq!(s.player_of(&address(2)), None);
}

#[test]
fn assigned_player_is_found_by_address() {
    let mut s = Sessions::new();
    s.register(address(1));
    s.assign(address(1), 7);
    s.assign(address(2), 8);
    s.assign(address(1), 9);
    assert_eq!(s.player_of(&address(1)), Some(9));
    assert_eq!(s.player_of(&address(2)), Some(8));
    assert_eq!(s.player_of(&Address { ip: 1, port: 1 }), None);
    assert_eq!(s.clients.len(), 2);
    assert!(s.is_valid());
}

#[test]
fn forgotten_client_is_gone() {
    let mut s = Sessions::new();
    s.assign(address(1), 1);
    s.assign(address(2), 2);
    s.assign(address(3), 3);
    s.forget(&address(2));
    s.forget(&address(9));
    assert_eq!(
        s.clients,
        vec![
            Client { address: address(1), player_id: Some(1) },
            Client { address: address(3), player_id: Some(3) },
        ]
    );
    assert_eq!(s.player_of(&address(2)), None);
}

#[test]
fn registry_with_an_address_twice_is_not_valid() {
    let s = Sessions {
        clients: vec![
            Client { address: address(1), player_id: None },
            Client { address: address(2), player_id: Some(1) },
            Client { address: address(1), player_id: Some(2) },
        ],
    };
    assert!(!s.is_valid());
}

#[test]
fn new_server_has_the_chunks_of_the_map() {
    let s = server();
    assert_eq!(s.chunks.len(), 3);
    assert_eq!(s.chunks[2].bytes.len(), 3000 - 2048);
    assert!(s.game_state.players.is_empty());
    assert!(s.sessions.clients.is_empty());
}

#[test]
fn joining_client_gets_its_player_and_the_world() {
    let mut s = server();
    let out = s.on_init(address(1));
    assert_eq!(out.len(), 2);
    assert_eq!(out[0].to, address(1));
    assert_eq!(out[1].to, address(1));
    let player = match &out[0].message {
        ServerMessage::InitPlayer(p) => *p,
        other => panic!("not the player: {:?}", other),
    };
    assert_eq!(player, Player::new(1, player.x, player.y));
    assert!(s.map.spawn_fits((player.x / 1000) as usize, (player.y / 1000) as usize, 1000));
    match &out[1].message {
        ServerMessage::GameState(world) => {
            assert_eq!(world.players.len(), 1);
            assert_eq!(world.players[&1], player);
            assert!(world.prev_states.is_empty());
        }
        other => panic!("not the world: {:?}", other),
    }
    assert_eq!(s.game_state.players[&1], player);
    assert_eq!(s.sessions.player_of(&address(1)), Some(1));
    // what the client has seen is recorded
    assert!(s.game_state.prev_states.contains_key(&1));
    let second = s.on_init(address(2));
    assert_eq!(second.len(), 2);
    assert_eq!(s.sessions.player_of(&address(2)), Some(2));
    assert_eq!(s.game_state.players.len(), 2);
}

#[test]
fn nobody_joins_a_map_without_room() {
    let mut map = open_map(3, 3);
    map.tiles[1][1] = Tile::Wall;
    let mut s = Server::new(map, &[1, 2, 3], 0);
    let out = s.on_init(address(1));
    assert!(out.is_empty());
    assert!(s.game_state.players.is_empty());
    assert_eq!(s.sessions.clients, vec![Client { address: address(1), player_id: None }]);
}

#[test]
fn map_request_is_answered_with_the_missing_chunks() {
    let mut s = server();
    let held: HashSet<u32> = [1u32].into_iter().collect();
    let out = s.on_map_request(address(4), &held);
    assert_eq!(out.len(), 2);
    let mut indices = vec![];
    for o in out.iter() {
        assert_eq!(o.to, address(4));
        match &o.message {
            ServerMessage::MapChunk(c) => {
                assert_eq!(c.total_chunks, 3);
                assert_eq!(c.bytes, s.chunks[c.chunk_index as usize].bytes);
                indices.push(c.chunk_index);
            }
            other => panic!("not a chunk: {:?}", other),
        }
    }
    assert_eq!(indices, vec![0, 2]);
    assert_eq!(s.sessions.clients, vec![Client { address: address(4), player_id: None }]);
    let all: HashSet<u32> = [0u32, 1, 2].into_iter().collect();
    assert!(s.on_map_request(address(4), &all).is_empty());
}

#[test]
fn move_is_answered_with_a_diff() {
    let mut s = server();
    s.game_state.create_player_at(5000, 5000);
    s.sessions.assign(address(1), 1);
    s.game_state.get_snapshot_diff(Some(&1));
    let out = s.on_move(address(1), Direction::Down);
    assert_eq!(out.len(), 1);
    assert_eq!(out[0].to, address(1));
    let moved = Player {
        direction: Direction::Down,
        is_moving: true,
        move_target: Some(Point { x: 5000, y: 6000 }),
        ..Player::new(1, 5000, 5000)
    };
    match &out[0].message {
        ServerMessage::GameStateDiff(d) => {
            assert_eq!(d.players.len(), 1);
            assert_eq!(d.players[&1], moved);
            assert!(d.removed_players.is_empty());
        }
        other => panic!("not a diff: {:?}", other),
    }
    assert_eq!(s.game_state.players[&1], moved);
}

#[test]
fn move_of_a_client_without_a_player_is_answered_with_the_world() {
    let mut s = server();
    s.game_state.create_player_at(5000, 5000);
    let out = s.on_move(address(3), Direction::Down);
    match &out[0].message {
        ServerMessage::GameStateDiff(d) => {
            assert_eq!(d.players.len(), 1);
            assert_eq!(d.players[&1], Player::new(1, 5000, 5000));
        }
        other => panic!("not a diff: {:?}", other),
    }
    assert_eq!(s.sessions.clients, vec![Client { address: address(3), player_id: None }]);
}

#[test]
fn shot_is_answered_with_the_world() {
    let mut s = server();
    s.game_state.create_player_at(5000, 5000);
    s.sessions.assign(address(1), 1);
    let out = s.on_shoot(address(1), 500);
    assert_eq!(out.len(), 1);
    match &out[0].message {
        ServerMessage::GameState(world) => {
            assert_eq!(world.bullets.len(), 1);
            assert_eq!(world.bullets[&1].owner_id, 1);
            assert_eq!(world.players[&1].last_shot, Some(500));
        }
        other => panic!("not the world: {:?}", other),
    }
    assert_eq!(s.game_state.bullets.len(), 1);
    // too soon for a second shot
    s.on_shoot(address(1), 600);
    assert_eq!(s.game_state.bullets.len(), 1);
}

#[test]
fn leaving_client_is_forgotten_with_its_player() {
    let mut s = server();
    s.on_init(address(1));
    s.on_init(address(2));
    let out = s.on_quit(address(1));
    assert_eq!(out.len(), 1);
    assert_eq!(out[0].to, address(1));
    match &out[0].message {
        ServerMessage::GameState(world) => {
            assert_eq!(world.players.len(), 1);
            assert!(world.players.contains_key(&2));
        }
        other => panic!("not the world: {:?}", other),
    }
    assert!(!s.game_state.players.contains_key(&1));
    assert!(!s.game_state.prev_states.contains_key(&1));
    assert_eq!(s.sessions.clients, vec![Client { address: address(2), player_id: Some(2) }]);
    // a stranger who leaves changes nothing
    s.on_quit(address(7));
    assert_eq!(s.game_state.players.len(), 1);
    assert_eq!(s.sessions.clients.len(), 1);
}

#[test]
fn tick_sends_every_client_its_diff() {
    let mut s = server();
    s.game_state.create_player_at(5000, 5000);
    s.game_state.create_player_at(90_000, 90_000);
    s.sessions.assign(address(1), 1);
    s.sessions.assign(address(2), 2);
    s.sessions.register(address(3));
    s.game_state.players.get_mut(&1).unwrap().direction = Direction::Right;
    s.game_state.shoot(Some(&1), 0);
    let out = s.tick(100, 100);
    assert_eq!(out.len(), 3);
    assert_eq!(
        out.iter().map(|o| o.to).collect::<Vec<Address>>(),
        vec![address(1), address(2), address(3)]
    );
    match (&out[0].message, &out[1].message, &out[2].message) {
        (
            ServerMessage::GameStateDiff(near),
            ServerMessage::GameStateDiff(far),
            ServerMessage::GameStateDiff(all),
        ) => {
            assert_eq!(near.players.len(), 1);
            assert_eq!(near.bullets.len(), 1);
            assert_eq!(near.bullets[&1].x, 5700);
            assert_eq!(far.players.len(), 1);
            assert!(far.players.contains_key(&2));
            assert!(far.bullets.is_empty());
            assert_eq!(all.players.len(), 2);
            assert_eq!(all.bullets.len(), 1);
        }
        other => panic!("not three diffs: {:?}", other),
    }
    let next = s.tick(100, 200);
    match (&next[0].message, &next[1].message) {
        (ServerMessage::GameStateDiff(near), ServerMessage::GameStateDiff(far)) => {
            assert!(near.players.is_empty());
            assert_eq!(near.bullets[&1].x, 6400);
            assert!(far.players.is_empty() && far.bullets.is_empty());
        }
        other => panic!("not diffs: {:?}", other),
    }
}

#[test]
fn messages_are_handled_by_their_kind() {
    let mut s = server();
    assert_eq!(s.handle(address(1), &ClientMessage::Init, 0).len(), 2);
    let held: HashSet<u32> = HashSet::new();
    assert_eq!(s.handle(address(1), &ClientMessage::RequestMapChunks(held), 0).len(), 3);
    let shot = s.handle(address(1), &ClientMessage::Shoot, 10);
    assert!(matches!(shot[0].message, ServerMessage::GameState(_)));
    assert_eq!(s.game_state.bullets.len(), 1);
    let moved = s.handle(address(1), &ClientMessage::Move(Direction::Up), 20);
    assert!(matches!(moved[0].message, ServerMessage::GameStateDiff(_)));
    let quit = s.handle(address(1), &ClientMessage::Quit, 30);
    assert!(matches!(quit[0].message, ServerMessage::GameState(_)));
    assert!(s.game_state.players.is_empty());
    assert!(s.sessions.clients.is_empty());
}

#[test]
fn two_players_meet() {
    // two players join; A steps to the right, B faces A and shoots; the
    // bullet brings A down
    let mut s = server();
    let a = address(1);
    let b = address(2);
    s.sessions.assign(a, 1);
    s.sessions.assign(b, 2);
    s.game_state.create_player_at(20_000, 20_000);
    s.game_state.create_player_at(16_000, 20_000);
    s.game_state.players.get_mut(&2).unwrap().direction = Direction::Right;
    s.on_move(a, Direction::Right);
    assert_eq!(s.game_state.players[&1].move_target, Some(Point { x: 21_000, y: 20_000 }));
    s.on_shoot(b, 1_000);
    let bullet = s.game_state.bullets[&1];
    assert_eq!((bullet.speed, bullet.hit_radius, bullet.damage), (7000, 500, 3));
    s.tick(100, 1_100);
    assert_eq!((s.game_state.players[&1].x, s.game_state.players[&1].y), (21_000, 20_000));
    assert!(!s.game_state.players[&1].is_moving);
    // the bullet needs to come nearer than 1.5 tiles: past 19.5 tiles
    for k in 2..=5u64 {
        s.tick(100, 1_000 + 100 * k);
        assert_eq!(s.game_state.bullets[&1].x, 16_000 + 700 * k as i32);
        assert_eq!(s.game_state.players[&1].health, 3);
        assert_eq!(s.game_state.players[&2].kills, 0);
    }
    s.tick(100, 1_600);
    assert!(s.game_state.bullets.is_empty());
    let back = s.game_state.players[&1];
    assert_eq!(back.health, 3);
    assert_eq!(back.deths, 1);
    assert!(s.map.spawn_fits((back.x / 1000) as usize, (back.y / 1000) as usize, 1000));
    assert_eq!(s.game_state.players[&2].kills, 1);
    assert_eq!(s.game_state.players[&2].deths, 0);
}
