use tile_puzzle::app::{solved, tile_sprite_map, Rotate, Tile, MAP_HEIGHT, MAP_WIDTH};
use tile_puzzle::direction::Direction;
use tile_puzzle::wave_function_collapse::{
    neighbour_of, propagate_offset, turn_tiles, WaveFunctionCollapse, WfcCell, WfcCellTrait,
};
use tile_puzzle::wfc;

fn tile(up: bool, down: bool, left: bool, right: bool) -> Tile {
    Tile { up, down, left, right }
}

#[test]
fn offsets_point_to_neighbours() {
    assert_eq!(propagate_offset(Direction::Up), (0, -1));
    assert_eq!(propagate_offset(Direction::Down), (0, 1));
    assert_eq!(propagate_offset(Direction::Left), (-1, 0));
    assert_eq!(propagate_offset(Direction::Right), (1, 0));
}

#[test]
fn neighbours_on_the_grid() {
    assert_eq!(neighbour_of(0, Direction::Up), None);
    assert_eq!(neighbour_of(0, Direction::Left), None);
    assert_eq!(neighbour_of(0, Direction::Right), Some(1));
    assert_eq!(neighbour_of(0, Direction::Down), Some(4));
    assert_eq!(neighbour_of(5, Direction::Up), Some(1));
    assert_eq!(neighbour_of(5, Direction::Left), Some(4));
    assert_eq!(neighbour_of(3, Direction::Right), None);
    assert_eq!(neighbour_of(15, Direction::Down), None);
    assert_eq!(neighbour_of(12, Direction::Up), Some(8));
    assert_eq!(neighbour_of(16, Direction::Up), None);
}

#[test]
fn full_cell_holds_fifteen_tiles() {
    let cell = WfcCell::full();
    assert_eq!(cell.entropy(), 15);
    assert!(!cell.collapsed());
    assert!(!cell.contains(&Tile::new()));
    assert!(cell.contains(&tile(true, true, true, true)));
    for d in [Direction::Up, Direction::Down, Direction::Left, Direction::Right] {
        assert!(cell.any_contains(d));
    }
}

#[test]
fn propagate_keeps_matching_tiles() {
    let mut cell = WfcCell::full();
    cell.propagate(Direction::Up, false);
    assert_eq!(cell.entropy(), 7);
    assert!(!cell.any_contains(Direction::Up));
    cell.propagate(Direction::Left, true);
    // Left, and any of Down and Right.
    assert_eq!(cell.entropy(), 4);
    assert!(cell.contains(&tile(false, false, true, false)));
    assert!(cell.contains(&tile(false, true, true, true)));
    cell.propagate(Direction::Down, false);
    cell.propagate(Direction::Right, false);
    assert!(cell.collapsed());
    assert_eq!(cell.single(), tile(false, false, true, false));
}

#[test]
fn propagate_can_empty_a_cell() {
    let mut cell = WfcCell::full();
    for d in [Direction::Up, Direction::Down, Direction::Left, Direction::Right] {
        cell.propagate(d, false);
    }
    assert_eq!(cell.entropy(), 0);
    assert!(!cell.collapsed());
}

#[test]
fn collapse_keeps_one_of_the_tiles() {
    for _ in 0..20 {
        let mut cell = WfcCell::full();
        cell.propagate(Direction::Up, true);
        cell.collapse();
        assert!(cell.collapsed());
        let t = cell.single();
        assert!(t.up);
    }
}

#[test]
fn insert_reports_new_tiles() {
    let mut cell = WfcCell::new();
    assert_eq!(cell.entropy(), 0);
    assert!(cell.insert(tile(true, false, false, false)));
    assert!(!cell.insert(tile(true, false, false, false)));
    assert!(cell.insert(tile(false, true, false, false)));
    assert_eq!(cell.entropy(), 2);
}

#[test]
fn wfc_cell_record_starts_uncollapsed() {
    let c = wfc::WfcCell::new(WfcCell::full());
    assert!(!c.collapsed);
    assert_eq!(c.possible_tiles.entropy(), 15);
}

/// Tries every rotation of every tile, cell by cell, for a solved map.
fn solvable(map: &[Tile]) -> bool {
    fn rotations(t: Tile) -> Vec<Tile> {
        let mut out = Vec::new();
        let mut u = t;
        for _ in 0..4 {
            if !out.contains(&u) {
                out.push(u);
            }
            u.rotate();
        }
        out
    }
    fn fits(cur: &[Tile], i: usize, t: Tile) -> bool {
        let x = i % MAP_WIDTH;
        let y = i / MAP_WIDTH;
        if (y == 0 && t.up) || (y == MAP_HEIGHT - 1 && t.down) || (x == 0 && t.left)
            || (x == MAP_WIDTH - 1 && t.right)
        {
            return false;
        }
        if x > 0 && cur[i - 1].right != t.left {
            return false;
        }
        if y > 0 && cur[i - MAP_WIDTH].down != t.up {
            return false;
        }
        true
    }
    fn search(map: &[Tile], cur: &mut Vec<Tile>) -> bool {
        let i = cur.len();
        if i == map.len() {
            return solved(cur);
        }
        for r in rotations(map[i]) {
            if fits(cur, i, r) {
                cur.push(r);
                if search(map, cur) {
                    return true;
                }
                cur.pop();
            }
        }
        false
    }
    search(map, &mut Vec::new())
}

#[test]
fn generated_puzzles_can_be_solved() {
    let mut generator = WaveFunctionCollapse::new();
    let mut made = 0;
    for _ in 0..60 {
        if let Some(map) = generator.generate() {
            made += 1;
            assert_eq!(map.len(), MAP_WIDTH * MAP_HEIGHT);
            for t in &map {
                assert!(tile_sprite_map(t).is_some());
            }
            assert!(solvable(&map));
            for i in 0..map.len() {
                assert!(generator.map[i].collapsed());
            }
        } else {
            assert!(generator.map.iter().any(|c| c.entropy() == 0));
        }
    }
    assert!(made > 0);
}

#[test]
fn new_generator_is_empty() {
    let generator = WaveFunctionCollapse::new();
    assert!(generator.map.is_empty());
}

#[test]
fn collapse_picks_at_random() {
    let mut seen: Vec<Tile> = Vec::new();
    for _ in 0..200 {
        let mut cell = WfcCell::full();
        cell.collapse();
        let t = cell.single();
        if !seen.contains(&t) {
            seen.push(t);
        }
    }
    assert!(seen.len() > 1);
}

#[test]
fn shuffled_puzzles_differ() {
    let mut generator = WaveFunctionCollapse::new();
    let mut maps: Vec<Vec<Tile>> = Vec::new();
    for _ in 0..20 {
        if let Some(map) = generator.generate() {
            if !maps.contains(&map) {
                maps.push(map);
            }
        }
    }
    assert!(maps.len() > 1);
}

#[test]
fn keep_only_keeps_the_tile_at_that_place() {
    let (a, b, c) = (tile(true, false, false, false), tile(false, true, true, false), tile(true, true, true, true));
    let mut cell = WfcCell::new();
    cell.insert(a);
    cell.insert(b);
    cell.insert(c);
    cell.keep_only(1);
    assert!(cell.collapsed());
    assert_eq!(cell.single(), b);
    assert!(!cell.contains(&a));
    assert!(!cell.contains(&c));
}

#[test]
fn turn_tiles_turns_each_tile_its_own_number_of_times() {
    let up = tile(true, false, false, false);
    let corner = tile(true, false, false, true);
    let mut tiles = vec![up, up, up, up, corner];
    turn_tiles(&mut tiles, &vec![0, 1, 2, 3, 1]);
    let mut once = up;
    once.rotate();
    let mut twice = once;
    twice.rotate();
    let mut thrice = twice;
    thrice.rotate();
    let mut corner_once = corner;
    corner_once.rotate();
    assert_eq!(tiles, vec![up, once, twice, thrice, corner_once]);
    assert_ne!(once, up);
    // Four turns come back to the start.
    let mut back = vec![corner];
    turn_tiles(&mut back, &vec![4]);
    assert_eq!(back, vec![corner]);
}
