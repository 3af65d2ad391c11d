use tile_puzzle::app::{
    all_dirs, map_index, move_selected, next_state, render_list, rotate_selected, solved,
    tile_sprite_map,
    draw_position, GameState, Rotate, Tile, MAP_HEIGHT, MAP_WIDTH,
};
use tile_puzzle::direction::Direction;
use tile_puzzle::idx;

fn tile(up: bool, down: bool, left: bool, right: bool) -> Tile {
    Tile { up, down, left, right }
}

const DIRS: [Direction; 4] = [Direction::Up, Direction::Down, Direction::Left, Direction::Right];

#[test]
fn idx_is_row_major() {
    assert_eq!(idx(0, 0, 4), 0);
    assert_eq!(idx(3, 0, 4), 3);
    assert_eq!(idx(1, 2, 4), 9);
    assert_eq!(idx(2, 1, 3), 5);
}

#[test]
fn opposite_directions() {
    assert_eq!(Direction::Up.opposite(), Direction::Down);
    assert_eq!(Direction::Down.opposite(), Direction::Up);
    assert_eq!(Direction::Left.opposite(), Direction::Right);
    assert_eq!(Direction::Right.opposite(), Direction::Left);
    for d in DIRS {
        assert_eq!(d.opposite().opposite(), d);
        assert_ne!(d.opposite(), d);
    }
}

#[test]
fn insert_and_contains() {
    let mut t = Tile::new();
    for d in DIRS {
        assert!(!t.contains(d));
    }
    t.insert(Direction::Left);
    assert!(t.contains(Direction::Left));
    assert!(!t.contains(Direction::Right));
    t.insert(Direction::Left);
    assert_eq!(t, tile(false, false, true, false));
}

#[test]
fn rotate_turns_clockwise() {
    let mut t = tile(true, false, false, false);
    t.rotate();
    assert_eq!(t, tile(false, false, false, true));
    t.rotate();
    assert_eq!(t, tile(false, true, false, false));
    t.rotate();
    assert_eq!(t, tile(false, false, true, false));
    t.rotate();
    assert_eq!(t, tile(true, false, false, false));

    let mut corner = tile(true, false, false, true);
    corner.rotate();
    assert_eq!(corner, tile(false, true, false, true));
}

#[test]
fn four_rotations_are_identity() {
    for t in all_dirs() {
        let mut u = t;
        for _ in 0..4 {
            u.rotate();
        }
        assert_eq!(u, t);
    }
}

#[test]
fn all_dirs_lists_every_tile_with_an_opening_once() {
    let all = all_dirs();
    assert_eq!(all.len(), 15);
    for (i, a) in all.iter().enumerate() {
        assert!(a.up || a.down || a.left || a.right);
        for b in all.iter().skip(i + 1) {
            assert_ne!(a, b);
        }
    }
    assert_eq!(all[0], tile(true, true, true, true));
    assert_eq!(all[1], tile(true, false, false, false));
}

#[test]
fn sprite_map_table() {
    assert_eq!(tile_sprite_map(&tile(true, true, true, true)), Some((0, 0)));
    assert_eq!(tile_sprite_map(&tile(true, false, false, false)), Some((1, 0)));
    assert_eq!(tile_sprite_map(&tile(false, false, false, true)), Some((1, 1)));
    assert_eq!(tile_sprite_map(&tile(false, true, false, false)), Some((1, 2)));
    assert_eq!(tile_sprite_map(&tile(false, false, true, false)), Some((1, 3)));
    assert_eq!(tile_sprite_map(&tile(true, false, false, true)), Some((2, 0)));
    assert_eq!(tile_sprite_map(&tile(false, true, false, true)), Some((2, 1)));
    assert_eq!(tile_sprite_map(&tile(false, true, true, false)), Some((2, 2)));
    assert_eq!(tile_sprite_map(&tile(true, false, true, false)), Some((2, 3)));
    assert_eq!(tile_sprite_map(&tile(false, false, true, true)), Some((3, 0)));
    assert_eq!(tile_sprite_map(&tile(true, true, false, false)), Some((3, 1)));
    assert_eq!(tile_sprite_map(&tile(true, false, true, true)), Some((4, 0)));
    assert_eq!(tile_sprite_map(&tile(true, true, false, true)), Some((4, 1)));
    assert_eq!(tile_sprite_map(&tile(false, true, true, true)), Some((4, 2)));
    assert_eq!(tile_sprite_map(&tile(true, true, true, false)), Some((4, 3)));
    assert_eq!(tile_sprite_map(&Tile::new()), None);
}

#[test]
fn sprite_rotation_follows_tile_rotation() {
    for t in all_dirs() {
        let (id, q) = tile_sprite_map(&t).unwrap();
        let mut u = t;
        u.rotate();
        let (id2, q2) = tile_sprite_map(&u).unwrap();
        assert_eq!(id, id2);
        let expected = match id {
            0 => 0,
            3 => (q + 1) % 2,
            _ => (q + 1) % 4,
        };
        assert_eq!(q2, expected);
    }
}

#[test]
fn full_map_is_solved() {
    let map = vec![tile(true, true, true, true); MAP_WIDTH * MAP_HEIGHT];
    assert!(solved(&map));
}

#[test]
fn empty_map_is_solved() {
    assert!(solved(&Vec::new()));
}

#[test]
fn mismatched_neighbours_are_not_solved() {
    let mut map = vec![tile(true, true, true, true); MAP_WIDTH * MAP_HEIGHT];
    map[5] = tile(true, true, true, false);
    assert!(!solved(&map));
}

#[test]
fn closed_map_is_solved() {
    // A ring around the 2 by 2 centre and single openings facing each other.
    let mut map = vec![Tile::new(); MAP_WIDTH * MAP_HEIGHT];
    map[5] = tile(false, true, false, true);
    map[6] = tile(false, true, true, false);
    map[9] = tile(true, false, false, true);
    map[10] = tile(true, false, true, false);
    map[0] = tile(false, false, false, true);
    map[1] = tile(false, false, true, false);
    assert!(solved(&map));
    map[1] = tile(false, true, true, false);
    assert!(!solved(&map));
}

#[test]
fn selection_moves_and_clamps() {
    assert_eq!(move_selected((0, 0), true, false, false, false), (1, 0));
    assert_eq!(move_selected((0, 0), false, true, false, true), (0, 0));
    assert_eq!(move_selected((3, 3), true, false, true, false), (3, 3));
    assert_eq!(move_selected((2, 2), true, true, true, true), (2, 2));
    assert_eq!(move_selected((2, 2), false, true, false, true), (1, 1));
    assert_eq!(move_selected((9, 0), false, false, true, false), (3, 1));
}

#[test]
fn map_index_of_positions() {
    assert_eq!(map_index((0, 0), 16), Some(0));
    assert_eq!(map_index((3, 2), 16), Some(11));
    assert_eq!(map_index((4, 0), 16), None);
    assert_eq!(map_index((0, 0), 0), None);
}

#[test]
fn rotating_the_selection() {
    let mut map = vec![tile(true, false, false, true); 16];
    assert_eq!(rotate_selected(&mut map, 5), Some((0, 1)));
    assert_eq!(map[5], tile(false, true, false, true));
    assert_eq!(map[4], tile(true, false, false, true));
    map[2] = Tile::new();
    assert_eq!(rotate_selected(&mut map, 2), None);
    assert_eq!(map[2], Tile::new());
    map[3] = tile(true, true, false, false);
    assert_eq!(rotate_selected(&mut map, 3), Some((1, 0)));
    assert_eq!(map[3], tile(false, false, true, true));
}

#[test]
fn state_transitions() {
    assert_eq!(next_state(GameState::Running, false, true), GameState::Running);
    assert_eq!(next_state(GameState::Running, true, false), GameState::Solved);
    assert_eq!(next_state(GameState::Solved, true, false), GameState::Solved);
    assert_eq!(next_state(GameState::Solved, false, true), GameState::Running);
}

#[test]
fn cell_centres() {
    assert_eq!(draw_position((0, 0)), (50, 50));
    assert_eq!(draw_position((3, 1)), (350, 150));
}

#[test]
fn draw_position_of_a_cell_off_the_map() {
    assert_eq!(draw_position((5, 7)), (550, 750));
    // 21474836 * 100 + 50 passes i32::MAX and is read back as a negative `i32`.
    assert_eq!(draw_position((21474836, 0)).0, (2147483650u32) as i32);
}

#[test]
fn four_turns_of_the_selection_restore_the_map() {
    let start: Vec<Tile> = all_dirs().into_iter().chain([Tile::new()]).collect();
    let mut map = start.clone();
    for _ in 0..4 {
        rotate_selected(&mut map, 6);
    }
    assert_eq!(map, start);
    let mut turned = start.clone();
    rotate_selected(&mut turned, 6);
    assert_ne!(turned, start);
}

#[test]
fn render_list_stops_at_the_first_gap() {
    let full = vec![tile(true, false, false, false); 16];
    let list = render_list(&full);
    assert_eq!(list.len(), 16);
    assert_eq!(list[0], (1, (0, 0), (50, 50)));
    assert_eq!(list[6], (1, (2, 1), (250, 150)));
    let mut gap = full.clone();
    gap[5] = Tile::new();
    assert_eq!(render_list(&gap).len(), 5);
    assert_eq!(render_list(&full[..3].to_vec()).len(), 3);
    assert!(render_list(&Vec::new()).is_empty());
}
