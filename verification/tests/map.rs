use std::collections::VecDeque;
use termarena::map::blank;
use termarena::map::blob_count;
use termarena::map::erode;
use termarena::map::grow_wall_blob;
use termarena::map::in_radius;
use termarena::map::offer_neighbour;
use termarena::map::Tile;
use termarena::map::TileMap;

fn open_map(width: usize, height: usize) -> TileMap {
    TileMap { width, height, tiles: vec![vec![Tile::Empty; width]; height] }
}

fn map_with_walls(width: usize, height: usize, walls: &[(usize, usize)]) -> TileMap {
    let mut map = open_map(width, height);
    for &(x, y) in walls {
        map.tiles[y][x] = Tile::Wall;
    }
    map
}

#[test]
fn box_inside_open_map_is_free() {
    let map = open_map(4, 4);
    assert!(!map.is_wall(1500, 1500));
    assert!(!map.is_wall(500, 500));
    assert!(!map.is_wall(3499, 3499));
}

#[test]
fn box_that_leaves_the_map_is_wall() {
    let map = open_map(4, 4);
    assert!(map.is_wall(499, 500));
    assert!(map.is_wall(500, 499));
    assert!(map.is_wall(-1, 1500));
    assert!(map.is_wall(3500, 1500));
    assert!(map.is_wall(1500, 3500));
    assert!(map.is_wall(i64::MAX, 0));
    assert!(map.is_wall(i64::MIN, i64::MIN));
}

#[test]
fn box_that_touches_a_wall_tile_is_wall() {
    let map = map_with_walls(4, 4, &[(2, 1)]);
    // the box from 1000 to 2000 ends on the line before the wall
    assert!(!map.is_wall(1500, 1500));
    assert!(map.is_wall(1501, 1500));
    assert!(map.is_wall(2000, 1500));
    assert!(map.is_wall(2500, 1500));
    assert!(map.is_wall(2500, 2499));
    assert!(!map.is_wall(2500, 2500));
    assert!(map.is_wall(2500, 501));
    assert!(!map.is_wall(2500, 500));
}

#[test]
fn walkable_is_an_empty_tile_of_the_map() {
    let map = map_with_walls(3, 2, &[(1, 1)]);
    assert!(map.is_walkable(0, 0));
    assert!(!map.is_walkable(1, 1));
    assert!(!map.is_walkable(3, 0));
    assert!(!map.is_walkable(0, 2));
}

#[test]
fn validity_asks_for_rows_of_the_width() {
    assert!(open_map(3, 2).is_valid());
    assert!(open_map(0, 0).is_valid());
    let mut short = open_map(3, 2);
    short.tiles[1].pop();
    assert!(!short.is_valid());
    let mut fewer = open_map(3, 2);
    fewer.tiles.pop();
    assert!(!fewer.is_valid());
    let mut wide = open_map(3, 2);
    wide.width = 2_000_001;
    assert!(!wide.is_valid());
}

#[test]
fn spawn_needs_every_tile_in_reach_to_be_empty() {
    let map = map_with_walls(7, 7, &[(5, 3)]);
    // a radius of one tile reaches one tile to each side
    assert!(map.spawn_fits(3, 3, 1000));
    assert!(!map.spawn_fits(4, 3, 1000));
    assert!(!map.spawn_fits(4, 2, 1000));
    assert!(!map.spawn_fits(6, 4, 1000));
    assert!(map.spawn_fits(4, 5, 1000));
    // a radius of nothing reaches the tile alone
    assert!(map.spawn_fits(4, 3, 0));
    assert!(!map.spawn_fits(5, 3, 0));
    // a radius of a little more than a tile reaches two tiles
    assert!(map.spawn_fits(3, 3, 1000));
    assert!(!map.spawn_fits(3, 3, 1001));
    assert!(!map.spawn_fits(3, 1, 1001));
    // the map ends where the box would go on
    assert!(map.spawn_fits(0, 0, 1000));
    assert!(map.spawn_fits(0, 6, 2000));
}

#[test]
fn first_spawn_position_is_the_first_tile_that_fits() {
    let map = map_with_walls(5, 5, &[(0, 0), (2, 0)]);
    // (0,0) (1,0) (0,1) (1,1) reach the wall at (0,0); (1,0), (2,0), (3,0)
    // and their row below reach the wall at (2,0)
    assert_eq!(map.first_spawn_position(1000), Some((4000, 0)));
    assert_eq!(map.first_spawn_position(0), Some((1000, 0)));
    let open = open_map(5, 5);
    assert_eq!(open.first_spawn_position(1000), Some((0, 0)));
}

#[test]
fn no_spawn_position_on_a_map_of_walls() {
    let mut map = open_map(4, 4);
    for y in 0..4 {
        for x in 0..4 {
            map.tiles[y][x] = Tile::Wall;
        }
    }
    assert_eq!(map.generate_spawn_position(1000), None);
    assert_eq!(map.first_spawn_position(1000), None);
    assert_eq!(open_map(0, 0).generate_spawn_position(1000), None);
}

#[test]
fn spawn_position_is_found_where_one_tile_fits() {
    // only the tile (5, 5) is farther than one tile from every wall
    let mut map = open_map(9, 9);
    for y in 0..9 {
        for x in 0..9 {
            let near = (4..=6).contains(&x) && (4..=6).contains(&y);
            if !near {
                map.tiles[y][x] = Tile::Wall;
            }
        }
    }
    for _ in 0..20 {
        assert_eq!(map.generate_spawn_position(1000), Some((5000, 5000)));
    }
}

#[test]
fn spawn_positions_never_overlap_walls() {
    for round in 0..40 {
        let map = TileMap::new(12 + round % 9, 10 + round % 7);
        assert!(map.is_valid());
        for radius in [0u32, 500, 1000, 1500, 2000] {
            match map.generate_spawn_position(radius) {
                Some((x, y)) => {
                    assert_eq!(x % 1000, 0);
                    assert_eq!(y % 1000, 0);
                    let tx = (x / 1000) as usize;
                    let ty = (y / 1000) as usize;
                    assert!(tx < map.width && ty < map.height);
                    assert!(map.spawn_fits(tx, ty, radius));
                    let reach = ((radius + 999) / 1000) as i64;
                    for dy in -reach..=reach {
                        for dx in -reach..=reach {
                            let cx = tx as i64 + dx;
                            let cy = ty as i64 + dy;
                            if cx >= 0 && cy >= 0 && (cx as usize) < map.width && (cy as usize) < map.height {
                                assert_eq!(map.tiles[cy as usize][cx as usize], Tile::Empty);
                            }
                        }
                    }
                }
                None => {
                    for ty in 0..map.height {
                        for tx in 0..map.width {
                            assert!(!map.spawn_fits(tx, ty, radius));
                        }
                    }
                }
            }
        }
    }
}

#[test]
fn generated_map_has_the_asked_size() {
    let map = TileMap::new(30, 17);
    assert_eq!(map.width, 30);
    assert_eq!(map.height, 17);
    assert_eq!(map.tiles.len(), 17);
    assert!(map.tiles.iter().all(|row| row.len() == 30));
    let small = TileMap::with_blobs(3, 3, 4);
    assert!(small.is_valid());
}

#[test]
fn map_without_blobs_has_no_walls() {
    let map = TileMap::with_blobs(9, 6, 0);
    assert!(map.tiles.iter().all(|row| row.iter().all(|t| *t == Tile::Empty)));
}

#[test]
fn blob_count_is_the_root_of_a_twentieth_of_the_area() {
    assert_eq!(blob_count(100, 100), 22);
    assert_eq!(blob_count(200, 200), 44);
    assert_eq!(blob_count(50, 45), 10);
    assert_eq!(blob_count(20, 20), 5);
    assert_eq!(blob_count(3, 3), 5);
    assert_eq!(blob_count(1000, 1000), 100);
    assert_eq!(blob_count(447, 447), 99);
    assert_eq!(blob_count(448, 448), 100);
    assert_eq!(blob_count(2_000_000, 2_000_000), 100);
    assert_eq!(blob_count(usize::MAX, usize::MAX), 100);
    assert_eq!(blob_count(usize::MAX, 0), 5);
}

#[test]
fn radius_is_measured_as_the_crow_flies() {
    assert!(in_radius(5, 5, 5, 5, 0));
    assert!(in_radius(8, 9, 5, 5, 5));
    assert!(!in_radius(8, 9, 5, 5, 4));
    assert!(in_radius(2, 1, 5, 5, 5));
    assert!(!in_radius(9, 9, 5, 5, 5));
}

#[test]
fn blob_adds_walls_within_its_radius_only() {
    let mut rng = rand::thread_rng();
    for _ in 0..30 {
        let mut tiles = blank(21, 21);
        tiles[0][0] = Tile::Wall;
        tiles[10][11] = Tile::Wall;
        grow_wall_blob(&mut tiles, 10, 10, 40, 4, &mut rng);
        assert_eq!(tiles.len(), 21);
        assert_eq!(tiles[0][0], Tile::Wall);
        assert_eq!(tiles[10][11], Tile::Wall);
        assert_eq!(tiles[10][10], Tile::Wall);
        let mut walls = 0;
        for y in 0..21usize {
            assert_eq!(tiles[y].len(), 21);
            for x in 0..21usize {
                if tiles[y][x] == Tile::Wall && (x, y) != (0, 0) {
                    walls += 1;
                    assert!(in_radius(x, y, 10, 10, 4));
                }
            }
        }
        assert!(walls <= 41);
    }
}

#[test]
fn blob_of_size_nothing_adds_nothing() {
    let mut rng = rand::thread_rng();
    let mut tiles = blank(5, 5);
    grow_wall_blob(&mut tiles, 2, 2, 0, 3, &mut rng);
    assert_eq!(tiles, blank(5, 5));
}

#[test]
fn blob_from_outside_the_grid_adds_nothing() {
    let mut rng = rand::thread_rng();
    let mut tiles = blank(5, 5);
    grow_wall_blob(&mut tiles, 7, 2, 10, 3, &mut rng);
    assert_eq!(tiles, blank(5, 5));
}

#[test]
fn erosion_takes_lone_walls_away() {
    let mut tiles = blank(5, 5);
    tiles[2][2] = Tile::Wall;
    erode(&mut tiles, 5, 5);
    assert_eq!(tiles, blank(5, 5));
}

#[test]
fn erosion_keeps_a_block() {
    let mut tiles = blank(5, 5);
    tiles[1][1] = Tile::Wall;
    tiles[1][2] = Tile::Wall;
    tiles[2][1] = Tile::Wall;
    tiles[2][2] = Tile::Wall;
    let before = tiles.clone();
    erode(&mut tiles, 5, 5);
    assert_eq!(tiles, before);
}

#[test]
fn erosion_leaves_the_border() {
    let mut tiles = blank(4, 4);
    tiles[0][0] = Tile::Wall;
    tiles[3][2] = Tile::Wall;
    tiles[1][3] = Tile::Wall;
    let before = tiles.clone();
    erode(&mut tiles, 4, 4);
    assert_eq!(tiles, before);
}

#[test]
fn erosion_sees_what_it_has_taken_away() {
    // each tile of the corner has one wall beside it once the tile before
    // it is gone
    let mut tiles = blank(5, 5);
    tiles[1][1] = Tile::Wall;
    tiles[1][2] = Tile::Wall;
    tiles[2][2] = Tile::Wall;
    erode(&mut tiles, 5, 5);
    assert_eq!(tiles, blank(5, 5));
}

#[test]
fn erosion_counts_walls_on_the_border() {
    let mut tiles = blank(4, 4);
    tiles[0][1] = Tile::Wall;
    tiles[1][0] = Tile::Wall;
    tiles[1][1] = Tile::Wall;
    let before = tiles.clone();
    erode(&mut tiles, 4, 4);
    assert_eq!(tiles, before);
}

#[test]
fn erosion_of_a_small_grid_changes_nothing() {
    let mut tiles = blank(2, 5);
    tiles[1][1] = Tile::Wall;
    let before = tiles.clone();
    erode(&mut tiles, 2, 5);
    assert_eq!(tiles, before);
}

#[test]
fn free_centre_is_the_middle_of_a_free_tile() {
    let map = map_with_walls(4, 3, &[(0, 0)]);
    assert_eq!(map.free_centre_of(1, 1), Some((1500, 1500)));
    assert_eq!(map.free_centre_of(0, 0), None);
    // the box of a tile in the last column or row ends on the edge of the map
    assert_eq!(map.free_centre_of(3, 1), None);
    assert_eq!(map.free_centre_of(1, 2), None);
    assert_eq!(map.first_free_centre(), Some((1500, 500)));
    let mut rng = rand::thread_rng();
    for _ in 0..50 {
        let (x, y) = map.random_free_centre(&mut rng).unwrap();
        assert_eq!(x % 1000, 500);
        assert_eq!(y % 1000, 500);
        assert!(!map.is_wall(x as i64, y as i64));
    }
    assert_eq!(open_map(1, 1).random_free_centre(&mut rng), None);
}

#[test]
fn blob_hangs_together() {
    let mut rng = rand::thread_rng();
    for _ in 0..30 {
        let mut tiles = blank(25, 25);
        grow_wall_blob(&mut tiles, 12, 12, 60, 6, &mut rng);
        assert_eq!(tiles[12][12], Tile::Wall);
        // every wall is reached from the centre over walls that touch
        let mut reached = vec![vec![false; 25]; 25];
        let mut todo = vec![(12i64, 12i64)];
        reached[12][12] = true;
        while let Some((x, y)) = todo.pop() {
            for dy in -1..=1i64 {
                for dx in -1..=1i64 {
                    let (nx, ny) = (x + dx, y + dy);
                    if (0..25).contains(&nx) && (0..25).contains(&ny) {
                        let (ux, uy) = (nx as usize, ny as usize);
                        if tiles[uy][ux] == Tile::Wall && !reached[uy][ux] {
                            reached[uy][ux] = true;
                            todo.push((nx, ny));
                        }
                    }
                }
            }
        }
        for y in 0..25 {
            for x in 0..25 {
                assert_eq!(tiles[y][x] == Tile::Wall, reached[y][x]);
            }
        }
    }
}

#[test]
fn generated_map_has_no_more_walls_than_its_blobs_allow() {
    for round in 0..20usize {
        let (width, height) = (10 + round, 31 - round);
        let blobs = round % 7;
        let map = TileMap::with_blobs(width, height, blobs);
        let walls: usize =
            map.tiles.iter().map(|row| row.iter().filter(|t| **t == Tile::Wall).count()).sum();
        let shorter = width.min(height);
        assert!(walls <= blobs * (shorter / 2 * 2));
    }
    let map = TileMap::new(40, 30);
    let walls: usize =
        map.tiles.iter().map(|row| row.iter().filter(|t| **t == Tile::Wall).count()).sum();
    assert!(walls <= blob_count(40, 30) * 30);
}

#[test]
fn chosen_neighbour_joins_the_queue_where_it_may() {
    let mut queue: VecDeque<(usize, usize)> = VecDeque::new();
    queue.push_back((2, 2));
    offer_neighbour(&mut queue, 2, 2, 1, 0, 5, 5, 2, 2, 3, true);
    assert_eq!(queue, VecDeque::from(vec![(2, 2), (3, 2)]));
    offer_neighbour(&mut queue, 2, 2, -1, 1, 5, 5, 2, 2, 3, true);
    assert_eq!(queue, VecDeque::from(vec![(2, 2), (3, 2), (1, 3)]));
    // the chance said no
    offer_neighbour(&mut queue, 2, 2, 0, -1, 5, 5, 2, 2, 3, false);
    assert_eq!(queue.len(), 3);
    // off the grid
    offer_neighbour(&mut queue, 4, 2, 1, 0, 5, 5, 2, 2, 3, true);
    offer_neighbour(&mut queue, 0, 2, -1, 0, 5, 5, 2, 2, 3, true);
    offer_neighbour(&mut queue, 2, 0, 1, -1, 5, 5, 2, 2, 3, true);
    offer_neighbour(&mut queue, 2, 4, 0, 1, 5, 5, 2, 2, 3, true);
    assert_eq!(queue.len(), 3);
    // farther from the centre than the radius
    offer_neighbour(&mut queue, 2, 2, 1, 0, 5, 5, 0, 0, 3, true);
    assert_eq!(queue.len(), 3);
    // just within it
    offer_neighbour(&mut queue, 2, 0, 1, 0, 5, 5, 0, 0, 3, true);
    assert_eq!(queue, VecDeque::from(vec![(2, 2), (3, 2), (1, 3), (3, 0)]));
}

#[test]
fn centre_of_a_blob_becomes_a_wall() {
    let mut rng = rand::thread_rng();
    for (cx, cy) in [(0usize, 0usize), (4, 4), (2, 3), (0, 4)] {
        for target in [1usize, 2, 50] {
            for radius in [0usize, 1, 7] {
                let mut tiles = blank(5, 5);
                grow_wall_blob(&mut tiles, cx, cy, target, radius, &mut rng);
                assert_eq!(tiles[cy][cx], Tile::Wall);
                let walls: usize =
                    tiles.iter().map(|row| row.iter().filter(|t| **t == Tile::Wall).count()).sum();
                assert!(1 <= walls && walls <= target);
                if radius == 0 {
                    assert_eq!(walls, 1);
                }
            }
        }
    }
}

#[test]
fn blob_takes_any_centre_size_and_radius() {
    let mut rng = rand::thread_rng();
    let mut tiles = blank(4, 3);
    grow_wall_blob(&mut tiles, usize::MAX, 1, usize::MAX, usize::MAX, &mut rng);
    assert_eq!(tiles, blank(4, 3));
    grow_wall_blob(&mut tiles, 1, 1, usize::MAX, usize::MAX, &mut rng);
    assert_eq!(tiles[1][1], Tile::Wall);
}

#[test]
fn radius_is_measured_for_any_numbers() {
    assert!(in_radius(usize::MAX, 0, 0, 0, usize::MAX));
    assert!(!in_radius(usize::MAX, 0, 0, usize::MAX, usize::MAX));
    assert!(!in_radius(usize::MAX, 0, 0, 1, usize::MAX));
    assert!(!in_radius(usize::MAX, usize::MAX, 0, 0, usize::MAX - 1));
    assert!(in_radius(0, usize::MAX, 0, 0, usize::MAX));
}
