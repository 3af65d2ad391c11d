use vstd::prelude::*;

use crate::direction::Direction;
use crate::idx;
use crate::sprite::{
    byte_at, lemma_coords, lemma_index_in_bounds, lemma_pixel_coords, px_x, px_y, Size, Sprite,
};
use crate::wave_function_collapse::{neighbour, neighbour_of};

verus! {

pub const SCREEN_WIDTH: u32 = 400;
pub const SCREEN_HEIGHT: u32 = 400;

pub const MAP_WIDTH: usize = 4;
pub const MAP_HEIGHT: usize = 4;

pub const SPRITE_WIDTH: u32 = SCREEN_WIDTH / (MAP_WIDTH as u32);
pub const SPRITE_HEIGHT: u32 = SCREEN_WIDTH / (MAP_WIDTH as u32);

pub const DEFAULT_SPRITE_WIDTH: u32 = 3;
pub const DEFAULT_SPRITE_HEIGHT: u32 = 3;
pub const DEFAULT_SPRITE_COLOR: [u8; 4] = [255, 0, 0, 255];

pub const SELECTED_SPRITE_COLOR: [u8; 4] = [0, 0, 255, 255];

pub const GAME_RUNNING_BG_COLOR: [u8; 4] = [0, 0, 0, 255];
pub const GAME_SOLVED_BG_COLOR: [u8; 4] = [0, 255, 0, 255];

/// A tile of the puzzle: the set of sides through which its pipe leaves it.
#[derive(Clone, Copy, Debug, PartialEq, Eq, Structural, Hash)]
pub struct Tile {
    pub up: bool,
    pub down: bool,
    pub left: bool,
    pub right: bool,
}

impl View for Tile {
    type V = Set<Direction>;

    open spec fn view(&self) -> Set<Direction> {
        Set::new(|d: Direction| self.has(d))
    }
}

impl Tile {
    pub open spec fn has(self, d: Direction) -> bool {
        match d {
            Direction::Up => self.up,
            Direction::Down => self.down,
            Direction::Left => self.left,
            Direction::Right => self.right,
        }
    }

    pub open spec fn is_nonempty(self) -> bool {
        self.up || self.down || self.left || self.right
    }

    /// The tile after one clockwise quarter turn: every opening `d` moves to `d.turned()`.
    pub open spec fn rotated(self) -> Tile {
        Tile { up: self.left, right: self.up, down: self.right, left: self.down }
    }

    /// The tile after `k` clockwise quarter turns.
    pub open spec fn turned_by(self, k: nat) -> Tile
        decreases k,
    {
        if k == 0 {
            self
        } else {
            self.rotated().turned_by((k - 1) as nat)
        }
    }

    /// The tile with no openings.
    pub fn new() -> (t: Tile)
        ensures
            t@ == Set::<Direction>::empty(),
            !t.is_nonempty(),
    {
        let t = Tile { up: false, down: false, left: false, right: false };
        assert(t@ =~= Set::<Direction>::empty());
        t
    }

    pub fn contains(&self, dir: Direction) -> (r: bool)
        ensures
            r == self@.contains(dir),
            r == self.has(dir),
    {
        match dir {
            Direction::Up => self.up,
            Direction::Down => self.down,
            Direction::Left => self.left,
            Direction::Right => self.right,
        }
    }

    pub fn insert(&mut self, dir: Direction)
        ensures
            final(self)@ == old(self)@.insert(dir),
            final(self).up == (old(self).up || dir == Direction::Up),
            final(self).down == (old(self).down || dir == Direction::Down),
            final(self).left == (old(self).left || dir == Direction::Left),
            final(self).right == (old(self).right || dir == Direction::Right),
    {
        match dir {
            Direction::Up => self.up = true,
            Direction::Down => self.down = true,
            Direction::Left => self.left = true,
            Direction::Right => self.right = true,
        }
        assert(self@ =~= old(self)@.insert(dir));
    }
}

/// Turning a tile in place.
pub trait Rotate {
    fn rotate(&mut self);
}

impl Rotate for Tile {
    /// One clockwise quarter turn: up becomes right, right becomes down,
    /// down becomes left and left becomes up.
    fn rotate(&mut self)
        ensures
            *final(self) == old(self).rotated(),
            forall|d: Direction| #[trigger] old(self).has(d) == final(self).has(d.turned()),
    {
        let mut new_dirs = Tile::new();
        if self.contains(Direction::Up) {
            new_dirs.insert(Direction::Right);
        }
        if self.contains(Direction::Right) {
            new_dirs.insert(Direction::Down);
        }
        if self.contains(Direction::Down) {
            new_dirs.insert(Direction::Left);
        }
        if self.contains(Direction::Left) {
            new_dirs.insert(Direction::Up);
        }
        *self = new_dirs;
    }
}

/// Four quarter turns bring any tile back to itself, and a turn keeps the
/// number of openings: a tile with an opening keeps having one.
pub proof fn lemma_four_rotations(t: Tile)
    ensures
        t.rotated().rotated().rotated().rotated() == t,
        t.turned_by(4) == t,
        t.rotated().is_nonempty() == t.is_nonempty(),
        t.rotated()@.len() == t@.len(),
{
    reveal_with_fuel(Tile::turned_by, 5);
    lemma_rotated_view(t);
}

pub proof fn lemma_rotated_view(t: Tile)
    ensures
        t.rotated()@ == t@.map(|d: Direction| d.turned()),
        t.rotated()@.len() == t@.len(),
{
    assert(t.rotated()@ =~= t@.map(|d: Direction| d.turned())) by {
        assert forall|d: Direction| t.rotated()@.contains(d) implies t@.map(
            |d: Direction| d.turned(),
        ).contains(d) by {
            let e = match d {
                Direction::Up => Direction::Left,
                Direction::Right => Direction::Up,
                Direction::Down => Direction::Right,
                Direction::Left => Direction::Down,
            };
            assert(e.turned() == d);
            assert(t@.contains(e));
        }
    }
    lemma_direction_set_finite(t@);
    assert(t.rotated()@.len() == t@.len()) by {
        vstd::set_lib::lemma_map_size(t@, t.rotated()@, |d: Direction| d.turned());
    }
}

/// Every set of directions is finite.
pub proof fn lemma_direction_set_finite(s: Set<Direction>)
    ensures
        s.finite(),
{
    let all = set![Direction::Up, Direction::Down, Direction::Left, Direction::Right];
    assert(s.subset_of(all)) by {
        assert forall|d: Direction| s.contains(d) implies all.contains(d) by {
            match d {
                Direction::Up => {},
                Direction::Down => {},
                Direction::Left => {},
                Direction::Right => {},
            }
        }
    }
    vstd::set_lib::lemma_set_subset_finite(all, s);
}


/// Every tile that has at least one opening: the tiles the generator may place.
pub open spec fn all_tiles() -> Set<Tile> {
    Set::new(|t: Tile| t.is_nonempty())
}

/// The fifteen tiles with at least one opening, in the order the generator lists them.
pub open spec fn all_dirs_spec() -> Seq<Tile> {
    seq![
        Tile { up: true, down: true, left: true, right: true },
        Tile { up: true, down: false, left: false, right: false },
        Tile { up: false, down: true, left: false, right: false },
        Tile { up: false, down: false, left: true, right: false },
        Tile { up: false, down: false, left: false, right: true },
        Tile { up: true, down: true, left: false, right: false },
        Tile { up: true, down: false, left: false, right: true },
        Tile { up: true, down: false, left: true, right: false },
        Tile { up: false, down: false, left: true, right: true },
        Tile { up: false, down: true, left: true, right: false },
        Tile { up: false, down: true, left: false, right: true },
        Tile { up: true, down: false, left: true, right: true },
        Tile { up: false, down: true, left: true, right: true },
        Tile { up: true, down: true, left: true, right: false },
        Tile { up: true, down: true, left: false, right: true },
    ]
}

/// Where a tile stands in `all_dirs_spec`; -1 for the tile without openings.
pub open spec fn all_dirs_position(t: Tile) -> int {
    match (t.up, t.down, t.left, t.right) {
        (true, true, true, true) => 0,
        (true, false, false, false) => 1,
        (false, true, false, false) => 2,
        (false, false, true, false) => 3,
        (false, false, false, true) => 4,
        (true, true, false, false) => 5,
        (true, false, false, true) => 6,
        (true, false, true, false) => 7,
        (false, false, true, true) => 8,
        (false, true, true, false) => 9,
        (false, true, false, true) => 10,
        (true, false, true, true) => 11,
        (false, true, true, true) => 12,
        (true, true, true, false) => 13,
        (true, true, false, true) => 14,
        (false, false, false, false) => -1,
    }
}

/// The list of tiles holds each tile with an opening exactly once.
pub proof fn lemma_all_dirs()
    ensures
        all_dirs_spec().len() == 15,
        all_dirs_spec().no_duplicates(),
        all_dirs_spec().to_set() == all_tiles(),
        all_tiles().finite(),
        all_tiles().len() == 15,
        forall|i: int| 0 <= i < 15 ==> #[trigger] all_dirs_spec()[i].is_nonempty(),
{
    let s = all_dirs_spec();
    assert forall|i: int| 0 <= i < 15 implies all_dirs_position(#[trigger] s[i]) == i by {}
    assert(s.no_duplicates()) by {
        assert forall|i: int, j: int| 0 <= i < s.len() && 0 <= j < s.len() && i != j implies s[i]
            != s[j] by {
            assert(all_dirs_position(s[i]) == i);
            assert(all_dirs_position(s[j]) == j);
        }
    }
    assert(s.to_set() =~= all_tiles()) by {
        assert forall|t: Tile| #[trigger] all_tiles().contains(t) implies s.to_set().contains(t) by {
            let i = all_dirs_position(t);
            assert(0 <= i < 15);
            assert(s[i] == t);
        }
    }
    s.unique_seq_to_set();
    vstd::seq_lib::seq_to_set_is_finite(s);
}

/// The list of all tiles with at least one opening (the generator's alphabet).
pub fn all_dirs() -> (all: Vec<Tile>)
    ensures
        all@ == all_dirs_spec(),
{
    let mut all = Vec::new();
    all.push(Tile { up: true, down: true, left: true, right: true }); // TBLR
    all.push(Tile { up: true, down: false, left: false, right: false }); // TOP
    all.push(Tile { up: false, down: true, left: false, right: false }); // BOTTOM
    all.push(Tile { up: false, down: false, left: true, right: false }); // LEFT
    all.push(Tile { up: false, down: false, left: false, right: true }); // RIGHT
    all.push(Tile { up: true, down: true, left: false, right: false }); // TB
    all.push(Tile { up: true, down: false, left: false, right: true }); // TR
    all.push(Tile { up: true, down: false, left: true, right: false }); // TL
    all.push(Tile { up: false, down: false, left: true, right: true }); // LR
    all.push(Tile { up: false, down: true, left: true, right: false }); // BL
    all.push(Tile { up: false, down: true, left: false, right: true }); // BR
    all.push(Tile { up: true, down: false, left: true, right: true }); // TLR
    all.push(Tile { up: false, down: true, left: true, right: true }); // BLR
    all.push(Tile { up: true, down: true, left: true, right: false }); // TBL
    all.push(Tile { up: true, down: true, left: false, right: true }); // TBR
    assert(all@ =~= all_dirs_spec());
    all
}


/// Which sprite draws a tile, and by how many clockwise quarter turns it is
/// rotated: sprite 0 has four openings, 1 one, 2 a corner, 3 a straight
/// line and 4 three openings.
pub open spec fn sprite_of(t: Tile) -> Option<(u8, u8)> {
    match (t.up, t.down, t.left, t.right) {
        (true, true, true, true) => Some((0, 0)),
        (true, false, false, false) => Some((1, 0)),
        (false, false, false, true) => Some((1, 1)),
        (false, true, false, false) => Some((1, 2)),
        (false, false, true, false) => Some((1, 3)),
        (true, false, false, true) => Some((2, 0)),
        (false, true, false, true) => Some((2, 1)),
        (false, true, true, false) => Some((2, 2)),
        (true, false, true, false) => Some((2, 3)),
        (false, false, true, true) => Some((3, 0)),
        (true, true, false, false) => Some((3, 1)),
        (true, false, true, true) => Some((4, 0)),
        (true, true, false, true) => Some((4, 1)),
        (false, true, true, true) => Some((4, 2)),
        (true, true, true, false) => Some((4, 3)),
        (false, false, false, false) => None,
    }
}

/// The sprite and the number of clockwise quarter turns that draw `tile`.
pub fn tile_sprite_map(tile: &Tile) -> (r: Option<(u8, u8)>)
    ensures
        r == sprite_of(*tile),
{
    match (tile.up, tile.down, tile.left, tile.right) {
        (true, true, true, true) => Some((0, 0)),
        (true, false, false, false) => Some((1, 0)),
        (false, false, false, true) => Some((1, 1)),
        (false, true, false, false) => Some((1, 2)),
        (false, false, true, false) => Some((1, 3)),
        (true, false, false, true) => Some((2, 0)),
        (false, true, false, true) => Some((2, 1)),
        (false, true, true, false) => Some((2, 2)),
        (true, false, true, false) => Some((2, 3)),
        (false, false, true, true) => Some((3, 0)),
        (true, true, false, false) => Some((3, 1)),
        (true, false, true, true) => Some((4, 0)),
        (true, true, false, true) => Some((4, 1)),
        (false, true, true, true) => Some((4, 2)),
        (true, true, true, false) => Some((4, 3)),
        (false, false, false, false) => None,
    }
}

/// Every tile that the generator may place has a sprite, and only those do;
/// the rotation index is always below four.
pub proof fn lemma_sprite_defined(t: Tile)
    ensures
        sprite_of(t) is Some <==> all_tiles().contains(t),
        sprite_of(t) matches Some((id, q)) ==> id <= 4 && q < 4,
{
}

/// Turning a tile keeps its sprite and advances the sprite's rotation by a
/// quarter turn, counted modulo the sprite's symmetry: the four-way tile looks
/// the same in every rotation, and the straight tile has two rotations only.
pub proof fn lemma_sprite_follows_rotation(t: Tile)
    ensures
        sprite_of(t) matches Some((id, q)) ==> sprite_of(t.rotated()) == Some(
            (
                id,
                if id == 0 {
                    0u8
                } else if id == 3 {
                    ((q + 1) % 2) as u8
                } else {
                    ((q + 1) % 4) as u8
                },
            ),
        ),
{
}


/// `k + 1` quarter turns are `k` quarter turns followed by one more.
pub proof fn lemma_turned_by_succ(t: Tile, k: nat)
    ensures
        t.turned_by(k + 1) == t.turned_by(k).rotated(),
    decreases k,
{
    reveal_with_fuel(Tile::turned_by, 2);
    if k > 0 {
        lemma_turned_by_succ(t.rotated(), (k - 1) as nat);
        assert(t.turned_by(k + 1) == t.rotated().turned_by(k));
        assert(t.turned_by(k) == t.rotated().turned_by((k - 1) as nat));
    }
}

/// The tile of cell `i` meets its neighbour on side `d`: one has an
/// opening toward the other exactly when the other has one back. A side
/// with no neighbour, or whose neighbour lies past the end of `m`, meets.
pub open spec fn meets_at(m: Seq<Tile>, i: int, d: Direction) -> bool {
    match neighbour(i, d) {
        Some(j) => j < m.len() ==> m[j].has(d.flipped()) == m[i].has(d),
        None => true,
    }
}

/// Every tile of the map meets all of its neighbours.
pub open spec fn solved_spec(m: Seq<Tile>) -> bool {
    forall|i: int, d: Direction| 0 <= i < m.len() ==> #[trigger] meets_at(m, i, d)
}

/// Every pair of side-by-side cells of the four by four grid that `m`
/// holds meets: the left one opens right exactly when the right one opens
/// left, and the upper one opens down exactly when the lower one opens up.
/// Written out over the cells' numbers, bottom row and right column
/// included.
pub open spec fn all_pairs_meet(m: Seq<Tile>) -> bool {
    &&& forall|i: int|
        0 <= i && i + 1 < m.len() && i + 1 < 16 && i % 4 != 3 ==> #[trigger] m[i].right
            == m[i + 1].left
    &&& forall|i: int| 0 <= i && i + 4 < m.len() && i + 4 < 16 ==> #[trigger] m[i].down == m[i + 4].up
}

/// The map is solved exactly when every pair of neighbouring cells meets:
/// one mismatched pair anywhere, in the last row or column too, makes it
/// unsolved.
pub proof fn lemma_solved_iff_pairs_meet(m: Seq<Tile>)
    ensures
        solved_spec(m) == ({
            &&& forall|i: int|
                0 <= i && i + 1 < m.len() && i + 1 < 16 && i % 4 != 3 ==> #[trigger] m[i].right
                    == m[i + 1].left
            &&& forall|i: int|
                0 <= i && i + 4 < m.len() && i + 4 < 16 ==> #[trigger] m[i].down == m[i + 4].up
        }),
        solved_spec(m) == all_pairs_meet(m),
{
    assert(MAP_WIDTH == 4 && MAP_HEIGHT == 4);
    if solved_spec(m) {
        assert forall|i: int|
            0 <= i && i + 1 < m.len() && i + 1 < 16 && i % 4 != 3 implies #[trigger] m[i].right
            == m[i + 1].left by {
            assert(meets_at(m, i, Direction::Right));
        }
        assert forall|i: int| 0 <= i && i + 4 < m.len() && i + 4 < 16 implies #[trigger] m[i].down
            == m[i + 4].up by {
            assert(meets_at(m, i, Direction::Down));
        }
    }
    if all_pairs_meet(m) {
        assert forall|i: int, d: Direction| 0 <= i < m.len() implies #[trigger] meets_at(m, i, d) by {
            match d {
                Direction::Up => {
                    if i < 16 && i / 4 > 0 {
                        assert(m[i - 4].down == m[(i - 4) + 4].up);
                    }
                },
                Direction::Down => {
                    if i < 16 && i / 4 + 1 < 4 && i + 4 < m.len() {
                        assert(m[i].down == m[i + 4].up);
                    }
                },
                Direction::Left => {
                    if i < 16 && i % 4 > 0 {
                        assert((i - 1) % 4 != 3);
                        assert(m[i - 1].right == m[(i - 1) + 1].left);
                    }
                },
                Direction::Right => {
                    if i < 16 && i % 4 + 1 < 4 && i + 1 < m.len() {
                        assert(m[i].right == m[i + 1].left);
                    }
                },
            }
        }
    }
}

/// Whether the puzzle is being played or has just been solved.
#[derive(Clone, Copy, Debug, PartialEq, Eq, Structural)]
pub enum GameState {
    Running,
    Solved,
}

/// The row-major index of the cell at `pos` (column, row), if the map of
/// `len` cells holds a cell there.
pub open spec fn cell_index(pos: (usize, usize), len: int) -> Option<int> {
    if pos.0 < MAP_WIDTH && pos.1 < MAP_HEIGHT && pos.1 * MAP_WIDTH + pos.0 < len {
        Some(pos.1 * MAP_WIDTH + pos.0)
    } else {
        None
    }
}

/// The index in a map of `len` cells of the cell at `pos`, if there is one.
pub fn map_index(pos: (usize, usize), len: usize) -> (r: Option<usize>)
    ensures
        match r {
            Some(i) => cell_index(pos, len as int) == Some(i as int),
            None => cell_index(pos, len as int) is None,
        },
{
    if pos.0 < MAP_WIDTH && pos.1 < MAP_HEIGHT {
        let i = idx(pos.0, pos.1, MAP_WIDTH);
        if i < len {
            return Some(i);
        }
    }
    None
}

/// Whether the tile of cell `pos` meets its neighbour on side `dir`.
fn meets_neighbour(map: &Vec<Tile>, pos: usize, dir: Direction) -> (r: bool)
    requires
        pos < map@.len(),
    ensures
        r == meets_at(map@, pos as int, dir),
{
    match neighbour_of(pos, dir) {
        Some(j) => {
            if j < map.len() {
                map[j].contains(dir.opposite()) == map[pos].contains(dir)
            } else {
                true
            }
        },
        None => true,
    }
}

/// Whether every tile meets all of its neighbours.
pub fn solved(map: &Vec<Tile>) -> (r: bool)
    ensures
        r == solved_spec(map@),
        r == all_pairs_meet(map@),
{
    proof {
        lemma_solved_iff_pairs_meet(map@);
    }
    let mut i: usize = 0;
    while i < map.len()
        invariant
            i <= map@.len(),
            forall|q: int, d: Direction| 0 <= q < i ==> #[trigger] meets_at(map@, q, d),
        decreases map@.len() - i,
    {
        if !meets_neighbour(map, i, Direction::Up) || !meets_neighbour(map, i, Direction::Down)
            || !meets_neighbour(map, i, Direction::Left) || !meets_neighbour(
            map,
            i,
            Direction::Right,
        ) {
            return false;
        }
        assert forall|q: int, d: Direction| 0 <= q < i + 1 implies #[trigger] meets_at(
            map@,
            q,
            d,
        ) by {
            if q == i {
                match d {
                    Direction::Up => {},
                    Direction::Down => {},
                    Direction::Left => {},
                    Direction::Right => {},
                }
            }
        }
        i += 1;
    }
    true
}

/// A coordinate clamped to `0..n`.
pub open spec fn clamp_coord(v: int, n: int) -> int {
    if v < 0 {
        0
    } else if v >= n {
        n - 1
    } else {
        v
    }
}

/// Moves the selection one cell per pressed key, keeping it on the map.
/// Coordinates are taken as `i32` (wrapping) before they move.
pub fn move_selected(selected: (usize, usize), right: bool, left: bool, down: bool, up: bool) -> (r:
    (usize, usize))
    requires
        right ==> (selected.0 as i32) < i32::MAX,
        left && !right ==> (selected.0 as i32) > i32::MIN,
        down ==> (selected.1 as i32) < i32::MAX,
        up && !down ==> (selected.1 as i32) > i32::MIN,
    ensures
        r.0 == clamp_coord(
            (selected.0 as i32) + (if right {
                1int
            } else {
                0int
            }) - (if left {
                1int
            } else {
                0int
            }),
            MAP_WIDTH as int,
        ),
        r.1 == clamp_coord(
            (selected.1 as i32) + (if down {
                1int
            } else {
                0int
            }) - (if up {
                1int
            } else {
                0int
            }),
            MAP_HEIGHT as int,
        ),
        r.0 < MAP_WIDTH,
        r.1 < MAP_HEIGHT,
{
    let mut new_x: i32 = selected.0 as i32;
    let mut new_y: i32 = selected.1 as i32;
    if right {
        new_x += 1;
    }
    if left {
        new_x -= 1;
    }
    if down {
        new_y += 1;
    }
    if up {
        new_y -= 1;
    }
    if new_x < 0 {
        new_x = 0;
    }
    if new_x >= MAP_WIDTH as i32 {
        new_x = MAP_WIDTH as i32 - 1;
    }
    if new_y < 0 {
        new_y = 0;
    }
    if new_y >= MAP_HEIGHT as i32 {
        new_y = MAP_HEIGHT as i32 - 1;
    }
    (new_x as usize, new_y as usize)
}

/// Turns the tile of cell `i` a quarter turn when it has a sprite, and
/// gives the sprite rotations before and after the turn.
pub fn rotate_selected(map: &mut Vec<Tile>, i: usize) -> (r: Option<(u8, u8)>)
    requires
        i < old(map)@.len(),
    ensures
        match sprite_of(old(map)@[i as int]) {
            None => r is None && final(map)@ == old(map)@,
            Some((_, before)) => {
                &&& final(map)@ == old(map)@.update(i as int, old(map)@[i as int].rotated())
                &&& r == match sprite_of(old(map)@[i as int].rotated()) {
                    Some((_, after)) => Some((before, after)),
                    None => None,
                }
            },
        },
{
    let old_rot = match tile_sprite_map(&map[i]) {
        Some(x) => x.1,
        None => {
            return None;
        },
    };
    let mut tile = map[i];
    tile.rotate();
    map.set(i, tile);
    let new_rot = match tile_sprite_map(&map[i]) {
        Some(x) => x.1,
        None => {
            return None;
        },
    };
    Some((old_rot, new_rot))
}

/// Entry `k` of the draw list of `map`: the sprite of cell `k`, the cell's
/// position and the screen point at its centre.
pub open spec fn render_entry(map: Seq<Tile>, k: int, e: (u8, (usize, usize), (i32, i32))) -> bool {
    &&& 0 <= k < map.len()
    &&& e.1 == ((k % MAP_WIDTH as int) as usize, (k / MAP_WIDTH as int) as usize)
    &&& sprite_of(map[k]) matches Some((id, _)) && id == e.0
    &&& e.2.0 == e.1.0 * SPRITE_WIDTH + SPRITE_WIDTH / 2
    &&& e.2.1 == e.1.1 * SPRITE_HEIGHT + SPRITE_HEIGHT / 2
}

/// What drawing the map draws, cell by cell in row-major order: the sprite,
/// the cell and the screen point of each cell, up to the first cell that is
/// missing or has no sprite, where drawing stops.
pub fn render_list(map: &Vec<Tile>) -> (r: Vec<(u8, (usize, usize), (i32, i32))>)
    ensures
        r@.len() <= MAP_WIDTH * MAP_HEIGHT,
        forall|k: int| 0 <= k < r@.len() ==> #[trigger] render_entry(map@, k, r@[k]),
        r@.len() < MAP_WIDTH * MAP_HEIGHT ==> r@.len() >= map@.len() || sprite_of(
            map@[r@.len() as int],
        ) is None,
{
    let mut list: Vec<(u8, (usize, usize), (i32, i32))> = Vec::new();
    let mut y: usize = 0;
    while y < MAP_HEIGHT
        invariant
            y <= MAP_HEIGHT,
            list@.len() == y * MAP_WIDTH,
            forall|k: int| 0 <= k < list@.len() ==> #[trigger] render_entry(map@, k, list@[k]),
        decreases MAP_HEIGHT - y,
    {
        let mut x: usize = 0;
        while x < MAP_WIDTH
            invariant
                y < MAP_HEIGHT,
                x <= MAP_WIDTH,
                list@.len() == y * MAP_WIDTH + x,
                forall|k: int| 0 <= k < list@.len() ==> #[trigger] render_entry(map@, k, list@[k]),
            decreases MAP_WIDTH - x,
        {
            let pos = (x, y);
            let i = match map_index(pos, map.len()) {
                Some(i) => i,
                None => {
                    return list;
                },
            };
            let id = match tile_sprite_map(&map[i]) {
                Some(entry) => entry.0,
                None => {
                    return list;
                },
            };
            assert(SPRITE_WIDTH == 100 && SPRITE_HEIGHT == 100);
            let draw_pos = draw_position(pos);
            let ghost before = list@;
            list.push((id, pos, draw_pos));
            assert forall|k: int| 0 <= k < list@.len() implies #[trigger] render_entry(
                map@,
                k,
                list@[k],
            ) by {
                if k < before.len() {
                    assert(list@[k] == before[k]);
                }
            }
            x += 1;
        }
        y += 1;
    }
    list
}

/// Turning the selected tile four times gives back the map one started with.
pub proof fn lemma_four_selections(m: Seq<Tile>, i: int)
    requires
        0 <= i < m.len(),
    ensures
        m.update(i, m[i].rotated()).update(i, m[i].rotated().rotated()).update(
            i,
            m[i].rotated().rotated().rotated(),
        ).update(i, m[i].rotated().rotated().rotated().rotated()) == m,
{
    lemma_four_rotations(m[i]);
    assert(m.update(i, m[i].rotated()).update(i, m[i].rotated().rotated()).update(
        i,
        m[i].rotated().rotated().rotated(),
    ).update(i, m[i].rotated().rotated().rotated().rotated()) =~= m);
}

/// The state of the game after a frame: a solved map ends the running
/// game, and the end of the pause after a solve starts the next one.
pub fn next_state(state: GameState, is_solved: bool, pause_over: bool) -> (r: GameState)
    ensures
        r == match state {
            GameState::Running => if is_solved {
                GameState::Solved
            } else {
                GameState::Running
            },
            GameState::Solved => if pause_over {
                GameState::Running
            } else {
                GameState::Solved
            },
        },
{
    match state {
        GameState::Running => if is_solved {
            GameState::Solved
        } else {
            GameState::Running
        },
        GameState::Solved => if pause_over {
            GameState::Running
        } else {
            GameState::Solved
        },
    }
}

/// The screen point at the centre of the cell at `pos`, computed in `u32`
/// from the cell index cut to `u32` and then reinterpreted as `i32`.
pub fn draw_position(pos: (usize, usize)) -> (r: (i32, i32))
    requires
        (pos.0 as u32) * SPRITE_WIDTH + SPRITE_WIDTH / 2 <= u32::MAX,
        (pos.1 as u32) * SPRITE_HEIGHT + SPRITE_HEIGHT / 2 <= u32::MAX,
    ensures
        r.0 == ((pos.0 as u32) * SPRITE_WIDTH + SPRITE_WIDTH / 2) as i32,
        r.1 == ((pos.1 as u32) * SPRITE_HEIGHT + SPRITE_HEIGHT / 2) as i32,
{
    let x = (pos.0 as u32 * SPRITE_WIDTH + SPRITE_WIDTH / 2) as i32;
    let y = (pos.1 as u32 * SPRITE_HEIGHT + SPRITE_HEIGHT / 2) as i32;
    (x, y)
}

/// The frame with every whole pixel painted `color`; bytes past the last
/// whole pixel keep their value.
pub open spec fn cleared(old: Seq<u8>, color: Seq<u8>) -> Seq<u8> {
    Seq::new(
        old.len(),
        |b: int|
            if b < (old.len() / 4) * 4 {
                color[b % 4]
            } else {
                old[b]
            },
    )
}

/// Paints every whole pixel of the frame `color`.
pub fn clear_frame(frame: &mut [u8], color: [u8; 4])
    ensures
        final(frame)@ == cleared(old(frame)@, color@),
{
    let whole = (frame.len() / 4) * 4;
    let ghost old_frame = frame@;
    let mut b: usize = 0;
    while b < whole
        invariant
            whole == (old_frame.len() / 4) * 4,
            whole <= old_frame.len(),
            frame@.len() == old_frame.len(),
            b <= whole,
            forall|j: int|
                0 <= j < frame@.len() ==> #[trigger] frame@[j] == if j < b {
                    color@[j % 4]
                } else {
                    old_frame[j]
                },
        decreases whole - b,
    {
        frame[b] = color[b % 4];
        b += 1;
    }
    assert(frame@ =~= cleared(old_frame, color@));
}

/// Where byte `b` of the screen falls in a sprite `w` by `h` drawn centred
/// at `pos`: the sprite pixel, if that screen pixel is covered.
pub open spec fn sprite_pixel_at(b: int, w: int, h: int, pos: (i32, i32)) -> Option<(int, int)> {
    let sx = px_x(b, SCREEN_WIDTH as int) - pos.0 + w / 2;
    let sy = px_y(b, SCREEN_WIDTH as int) - pos.1 + h / 2;
    if 0 <= sx < w && 0 <= sy < h {
        Some((sx, sy))
    } else {
        None
    }
}

/// The screen after drawing the sprite centred at `pos`: every screen pixel
/// covered by an opaque sprite pixel (alpha 255) takes that pixel; the
/// others keep their value.
pub open spec fn drawn(old: Seq<u8>, sprite: Seq<u8>, w: int, h: int, pos: (i32, i32)) -> Seq<u8> {
    Seq::new(
        old.len(),
        |b: int|
            if b < (SCREEN_WIDTH * SCREEN_HEIGHT * 4) as int {
                match sprite_pixel_at(b, w, h, pos) {
                    Some((sx, sy)) => if byte_at(sprite, w, sx, sy, 3) == 255 {
                        byte_at(sprite, w, sx, sy, b % 4)
                    } else {
                        old[b]
                    },
                    None => old[b],
                }
            } else {
                old[b]
            },
    )
}

/// Whether sprite pixel `(sx, sy)` comes before `(x, y)` in drawing order
/// (column by column, top to bottom).
pub open spec fn drawn_before(sx: int, sy: int, x: int, y: int) -> bool {
    sx < x || (sx == x && sy < y)
}

/// The screen part-way through drawing: the sprite pixels before `(x, y)` are done.
pub open spec fn drawn_upto(
    old: Seq<u8>,
    sprite: Seq<u8>,
    w: int,
    h: int,
    pos: (i32, i32),
    x: int,
    y: int,
) -> Seq<u8> {
    Seq::new(
        old.len(),
        |b: int|
            if b < (SCREEN_WIDTH * SCREEN_HEIGHT * 4) as int {
                match sprite_pixel_at(b, w, h, pos) {
                    Some((sx, sy)) => if drawn_before(sx, sy, x, y) && byte_at(sprite, w, sx, sy, 3)
                        == 255 {
                        byte_at(sprite, w, sx, sy, b % 4)
                    } else {
                        old[b]
                    },
                    None => old[b],
                }
            } else {
                old[b]
            },
    )
}

/// Whether the screen point `(x, y)` lies on the screen.
pub open spec fn on_screen(x: int, y: int) -> bool {
    0 <= x < SCREEN_WIDTH && 0 <= y < SCREEN_HEIGHT
}

/// Whether drawing a sprite `w` by `h` centred at `pos` stays within the
/// integer ranges it computes in: every screen coordinate of a sprite pixel
/// fits in `i32`, and every sprite pixel that lands on the screen has an
/// index that fits in `u32`. A sprite with no pixels computes nothing.
pub open spec fn draw_in_range(w: int, h: int, pos: (i32, i32)) -> bool {
    (w > 0 && h > 0) ==> {
        &&& w - 1 <= i32::MAX
        &&& h - 1 <= i32::MAX
        &&& pos.0 + (w - 1) <= i32::MAX
        &&& pos.1 + (h - 1) <= i32::MAX
        &&& pos.0 - w / 2 >= i32::MIN
        &&& pos.1 - h / 2 >= i32::MIN
        &&& forall|sx: int, sy: int|
            0 <= sx < w && 0 <= sy < h && on_screen(pos.0 + sx - w / 2, pos.1 + sy - h / 2)
                ==> #[trigger] grid_index(sx, sy, w) <= u32::MAX
    }
}

/// What a drawing leaves in byte `c` of screen pixel `(px, py)`: the
/// sprite pixel `(px - pos.0 + w / 2, py - pos.1 + h / 2)` lands there, and
/// if it lies inside the `w` by `h` sprite and is opaque (alpha 255) the
/// byte is that sprite pixel's byte; otherwise the byte keeps its value.
/// This holds wherever the sprite stands, touching or crossing the edges of
/// the screen included. Bytes past the screen keep their value.
pub proof fn lemma_drawn_pixel(
    old: Seq<u8>,
    sprite: Seq<u8>,
    w: int,
    h: int,
    pos: (i32, i32),
    px: int,
    py: int,
    c: int,
)
    requires
        old.len() >= SCREEN_WIDTH * SCREEN_HEIGHT * 4,
        0 <= px < SCREEN_WIDTH,
        0 <= py < SCREEN_HEIGHT,
        0 <= c < 4,
    ensures
        drawn(old, sprite, w, h, pos).len() == old.len(),
        byte_at(drawn(old, sprite, w, h, pos), SCREEN_WIDTH as int, px, py, c) == ({
            let sx = px - pos.0 + w / 2;
            let sy = py - pos.1 + h / 2;
            if 0 <= sx < w && 0 <= sy < h && sprite[(sy * w + sx) * 4 + 3] == 255 {
                sprite[(sy * w + sx) * 4 + c]
            } else {
                old[(py * SCREEN_WIDTH + px) * 4 + c]
            }
        }),
        forall|b: int|
            SCREEN_WIDTH * SCREEN_HEIGHT * 4 <= b < old.len() ==> #[trigger] drawn(
                old,
                sprite,
                w,
                h,
                pos,
            )[b] == old[b],
{
    lemma_coords(px, py, c, SCREEN_WIDTH as int);
    lemma_index_in_bounds(px, py, c, SCREEN_WIDTH as int, SCREEN_HEIGHT as int);
}

/// Draws the opaque pixels of `sprite` onto the screen, centred at `pos`;
/// what falls off the screen is left out.
pub fn draw_sprite(frame: &mut [u8], sprite: &Sprite, pos: (i32, i32))
    requires
        old(frame)@.len() >= SCREEN_WIDTH * SCREEN_HEIGHT * 4,
        sprite.wf(),
        draw_in_range(sprite.size.x as int, sprite.size.y as int, pos),
    ensures
        final(frame)@ == drawn(
            old(frame)@,
            sprite.pixels@,
            sprite.size.x as int,
            sprite.size.y as int,
            pos,
        ),
        final(frame)@.len() == old(frame)@.len(),
        forall|px: int, py: int, c: int|
            0 <= px < SCREEN_WIDTH && 0 <= py < SCREEN_HEIGHT && 0 <= c < 4 ==> #[trigger] byte_at(
                final(frame)@,
                SCREEN_WIDTH as int,
                px,
                py,
                c,
            ) == ({
                let w = sprite.size.x as int;
                let h = sprite.size.y as int;
                let sx = px - pos.0 + w / 2;
                let sy = py - pos.1 + h / 2;
                if 0 <= sx < w && 0 <= sy < h && sprite.pixels@[(sy * w + sx) * 4 + 3] == 255 {
                    sprite.pixels@[(sy * w + sx) * 4 + c]
                } else {
                    old(frame)@[(py * SCREEN_WIDTH + px) * 4 + c]
                }
            }),
        forall|b: int|
            SCREEN_WIDTH * SCREEN_HEIGHT * 4 <= b < old(frame)@.len() ==> #[trigger] final(frame)@[b]
                == old(frame)@[b],
{
    let ghost old_frame = frame@;
    let ghost w = sprite.size.x as int;
    let ghost h = sprite.size.y as int;
    let half_width = sprite.size.x / 2;
    let half_height = sprite.size.y / 2;
    let sprite_len = sprite.pixels.len();
    let mut sprite_x: u32 = 0;
    assert(frame@ =~= drawn_upto(old_frame, sprite.pixels@, w, h, pos, 0, 0));
    while sprite_x < sprite.size.x
        invariant
            old_frame.len() >= SCREEN_WIDTH * SCREEN_HEIGHT * 4,
            sprite.wf(),
            sprite_len == sprite.pixels@.len(),
            w == sprite.size.x,
            h == sprite.size.y,
            half_width == sprite.size.x / 2,
            half_height == sprite.size.y / 2,
            draw_in_range(w, h, pos),
            sprite_x <= sprite.size.x,
            frame@ == drawn_upto(old_frame, sprite.pixels@, w, h, pos, sprite_x as int, 0),
        decreases sprite.size.x - sprite_x,
    {
        let mut sprite_y: u32 = 0;
        while sprite_y < sprite.size.y
            invariant
                old_frame.len() >= SCREEN_WIDTH * SCREEN_HEIGHT * 4,
                sprite.wf(),
                sprite_len == sprite.pixels@.len(),
                w == sprite.size.x,
                h == sprite.size.y,
                half_width == sprite.size.x / 2,
                half_height == sprite.size.y / 2,
                draw_in_range(w, h, pos),
                sprite_x < sprite.size.x,
                sprite_y <= sprite.size.y,
                frame@ == drawn_upto(
                    old_frame,
                    sprite.pixels@,
                    w,
                    h,
                    pos,
                    sprite_x as int,
                    sprite_y as int,
                ),
            decreases sprite.size.y - sprite_y,
        {
            let ghost before = frame@;
            let pos_x = pos.0 + sprite_x as i32 - half_width as i32;
            let pos_y = pos.1 + sprite_y as i32 - half_height as i32;
            if pos_x >= 0 && pos_x < SCREEN_WIDTH as i32 && pos_y >= 0 && pos_y
                < SCREEN_HEIGHT as i32 {
                proof {
                    lemma_index_in_bounds(
                        sprite_x as int,
                        sprite_y as int,
                        3,
                        sprite.size.x as int,
                        sprite.size.y as int,
                    );
                    lemma_index_in_bounds(
                        pos_x as int,
                        pos_y as int,
                        3,
                        SCREEN_WIDTH as int,
                        SCREEN_HEIGHT as int,
                    );
                }
                let pixels_idx = idx(pos_x as usize, pos_y as usize, SCREEN_WIDTH as usize) * 4;
                assert(grid_index(sprite_x as int, sprite_y as int, w) <= u32::MAX);
                let sprite_idx = (sprite_y * sprite.size.x + sprite_x) as usize * 4;
                if sprite.pixels[sprite_idx + 3] == 255 {
                    let mut i: usize = 0;
                    while i < 4
                        invariant
                            frame@.len() == old_frame.len(),
                            old_frame.len() >= SCREEN_WIDTH * SCREEN_HEIGHT * 4,
                            before.len() == old_frame.len(),
                            sprite_len == sprite.pixels@.len(),
                            pixels_idx + 3 < SCREEN_WIDTH * SCREEN_HEIGHT * 4,
                            sprite_idx + 3 < sprite.pixels@.len(),
                            i <= 4,
                            forall|j: int|
                                0 <= j < frame@.len() ==> #[trigger] frame@[j] == if pixels_idx
                                    <= j < pixels_idx + i {
                                    sprite.pixels@[sprite_idx + (j - pixels_idx)]
                                } else {
                                    before[j]
                                },
                        decreases 4 - i,
                    {
                        frame[pixels_idx + i] = sprite.pixels[sprite_idx + i];
                        i += 1;
                    }
                }
                proof {
                    assert forall|b: int| 0 <= b < frame@.len() implies #[trigger] frame@[b]
                        == drawn_upto(
                        old_frame,
                        sprite.pixels@,
                        w,
                        h,
                        pos,
                        sprite_x as int,
                        sprite_y + 1,
                    )[b] by {
                        if b < (SCREEN_WIDTH * SCREEN_HEIGHT * 4) as int {
                            lemma_pixel_coords(b, SCREEN_WIDTH as int, SCREEN_HEIGHT as int);
                        }
                        if pixels_idx <= b < pixels_idx + 4 {
                            lemma_coords(pos_x as int, pos_y as int, b - pixels_idx, SCREEN_WIDTH as int);
                        }
                    }
                    assert(frame@ =~= drawn_upto(
                        old_frame,
                        sprite.pixels@,
                        w,
                        h,
                        pos,
                        sprite_x as int,
                        sprite_y + 1,
                    ));
                }
            } else {
                proof {
                    assert forall|b: int| 0 <= b < frame@.len() implies #[trigger] frame@[b]
                        == drawn_upto(
                        old_frame,
                        sprite.pixels@,
                        w,
                        h,
                        pos,
                        sprite_x as int,
                        sprite_y + 1,
                    )[b] by {
                        if b < (SCREEN_WIDTH * SCREEN_HEIGHT * 4) as int {
                            lemma_pixel_coords(b, SCREEN_WIDTH as int, SCREEN_HEIGHT as int);
                        }
                    }
                    assert(frame@ =~= drawn_upto(
                        old_frame,
                        sprite.pixels@,
                        w,
                        h,
                        pos,
                        sprite_x as int,
                        sprite_y + 1,
                    ));
                }
            }
            sprite_y += 1;
        }
        assert(frame@ =~= drawn_upto(old_frame, sprite.pixels@, w, h, pos, sprite_x + 1, 0));
        sprite_x += 1;
    }
    assert(frame@ =~= drawn(old_frame, sprite.pixels@, w, h, pos));
    proof {
        assert forall|px: int, py: int, c: int|
            0 <= px < SCREEN_WIDTH && 0 <= py < SCREEN_HEIGHT && 0 <= c < 4 implies #[trigger] byte_at(
            frame@,
            SCREEN_WIDTH as int,
            px,
            py,
            c,
        ) == ({
            let sx = px - pos.0 + w / 2;
            let sy = py - pos.1 + h / 2;
            if 0 <= sx < w && 0 <= sy < h && sprite.pixels@[(sy * w + sx) * 4 + 3] == 255 {
                sprite.pixels@[(sy * w + sx) * 4 + c]
            } else {
                old_frame[(py * SCREEN_WIDTH + px) * 4 + c]
            }
        }) by {
            lemma_drawn_pixel(old_frame, sprite.pixels@, w, h, pos, px, py, c);
        }
        lemma_drawn_pixel(old_frame, sprite.pixels@, w, h, pos, 0, 0, 0);
    }
}

/// The index of pixel `(x, y)` in an image `sw` pixels wide.
pub open spec fn grid_index(x: int, y: int, sw: int) -> int {
    y * sw + x
}

/// Pixel `p` of an image `sw` pixels wide is the pixel `(x, y)` of some
/// `x0 <= x < x1` and `y0 <= y < y1` (rows wrap when `x` passes the width).
pub open spec fn in_rect(p: int, sw: int, x0: int, x1: int, y0: int, y1: int) -> bool {
    exists|x: int, y: int| x0 <= x < x1 && y0 <= y < y1 && p == #[trigger] grid_index(x, y, sw)
}

/// The buffer with the pixels of the rectangle painted `color`.
pub open spec fn filled(
    old: Seq<u8>,
    sw: int,
    x0: int,
    x1: int,
    y0: int,
    y1: int,
    color: Seq<u8>,
) -> Seq<u8> {
    Seq::new(
        old.len(),
        |b: int|
            if in_rect(b / 4, sw, x0, x1, y0, y1) {
                color[b % 4]
            } else {
                old[b]
            },
    )
}

proof fn lemma_rect_empty(p: int, sw: int, x0: int, x1: int, y0: int, y1: int)
    requires
        x1 <= x0 || y1 <= y0,
    ensures
        !in_rect(p, sw, x0, x1, y0, y1),
{
}

proof fn lemma_rect_grow_y(p: int, sw: int, x: int, y0: int, y: int)
    requires
        y0 <= y,
    ensures
        in_rect(p, sw, x, x + 1, y0, y + 1) == (in_rect(p, sw, x, x + 1, y0, y) || p == grid_index(
            x,
            y,
            sw,
        )),
{
    if in_rect(p, sw, x, x + 1, y0, y + 1) {
        let (a, c) = choose|a: int, c: int| x <= a < x + 1 && y0 <= c < y + 1 && p == grid_index(a, c, sw);
        if c < y {
            assert(in_rect(p, sw, x, x + 1, y0, y));
        }
    }
    if p == grid_index(x, y, sw) {
        assert(x <= x < x + 1 && y0 <= y < y + 1 && p == grid_index(x, y, sw));
    }
    if in_rect(p, sw, x, x + 1, y0, y) {
        let (a, c) = choose|a: int, c: int| x <= a < x + 1 && y0 <= c < y && p == grid_index(a, c, sw);
        assert(x <= a < x + 1 && y0 <= c < y + 1 && p == grid_index(a, c, sw));
    }
}

proof fn lemma_rect_grow_x(p: int, sw: int, x0: int, x: int, y0: int, y1: int)
    requires
        x0 <= x,
    ensures
        in_rect(p, sw, x0, x + 1, y0, y1) == (in_rect(p, sw, x0, x, y0, y1) || in_rect(
            p,
            sw,
            x,
            x + 1,
            y0,
            y1,
        )),
{
    if in_rect(p, sw, x0, x + 1, y0, y1) {
        let (a, c) = choose|a: int, c: int| x0 <= a < x + 1 && y0 <= c < y1 && p == grid_index(a, c, sw);
        if a < x {
            assert(in_rect(p, sw, x0, x, y0, y1));
        } else {
            assert(in_rect(p, sw, x, x + 1, y0, y1));
        }
    }
    if in_rect(p, sw, x0, x, y0, y1) {
        let (a, c) = choose|a: int, c: int| x0 <= a < x && y0 <= c < y1 && p == grid_index(a, c, sw);
        assert(x0 <= a < x + 1 && y0 <= c < y1 && p == grid_index(a, c, sw));
    }
    if in_rect(p, sw, x, x + 1, y0, y1) {
        let (a, c) = choose|a: int, c: int| x <= a < x + 1 && y0 <= c < y1 && p == grid_index(a, c, sw);
        assert(x0 <= a < x + 1 && y0 <= c < y1 && p == grid_index(a, c, sw));
    }
}

/// Byte `b` lies in pixel `q` exactly when `4 q <= b < 4 q + 4`, as channel `b - 4 q`.
proof fn lemma_byte_of_pixel(b: int, q: int)
    requires
        0 <= q,
        0 <= b,
    ensures
        (b / 4 == q) == (q * 4 <= b < q * 4 + 4),
        q * 4 <= b < q * 4 + 4 ==> b % 4 == b - q * 4,
{
    vstd::arithmetic::div_mod::lemma_fundamental_div_mod(b, 4);
    if q * 4 <= b < q * 4 + 4 {
        vstd::arithmetic::div_mod::lemma_fundamental_div_mod_converse(b, 4, q, b - q * 4);
    }
}

/// Paints the pixels of a rectangle `rectangle_size` large centred on
/// `center` (half sizes rounded down) into a buffer of `size.x` pixels per row.
pub fn fill_rectangular(
    buffer: &mut [u8],
    size: Size,
    rectangle_size: Size,
    center: (u32, u32),
    color: [u8; 4],
)
    requires
        rectangle_size.x / 2 <= center.0,
        rectangle_size.y / 2 <= center.1,
        center.0 + rectangle_size.x / 2 <= u32::MAX,
        center.1 + rectangle_size.y / 2 <= u32::MAX,
        ({
            let x0 = center.0 - rectangle_size.x / 2;
            let x1 = center.0 + rectangle_size.x / 2;
            let y0 = center.1 - rectangle_size.y / 2;
            let y1 = center.1 + rectangle_size.y / 2;
            x0 < x1 && y0 < y1 ==> {
                &&& (y1 - 1) * size.x + (x1 - 1) <= u32::MAX
                &&& ((y1 - 1) * size.x + (x1 - 1)) * 4 + 3 < old(buffer)@.len()
            }
        }),
    ensures
        final(buffer)@ == filled(
            old(buffer)@,
            size.x as int,
            center.0 - rectangle_size.x / 2,
            center.0 + rectangle_size.x / 2,
            center.1 - rectangle_size.y / 2,
            center.1 + rectangle_size.y / 2,
            color@,
        ),
{
    let start_x = center.0 - rectangle_size.x / 2;
    let start_y = center.1 - rectangle_size.y / 2;
    let end_x = center.0 + rectangle_size.x / 2;
    let end_y = center.1 + rectangle_size.y / 2;
    let ghost old_buffer = buffer@;
    let ghost sw = size.x as int;
    let buffer_len = buffer.len();
    let mut x = start_x;
    assert forall|b: int| 0 <= b < buffer@.len() implies #[trigger] buffer@[b] == (if in_rect(
        b / 4,
        sw,
        start_x as int,
        x as int,
        start_y as int,
        end_y as int,
    ) {
        color@[b % 4]
    } else {
        old_buffer[b]
    }) by {
        lemma_rect_empty(b / 4, sw, start_x as int, x as int, start_y as int, end_y as int);
    }
    while x < end_x
        invariant
            start_x <= x <= end_x,
            start_y <= end_y,
            buffer@.len() == old_buffer.len() == buffer_len,
            sw == size.x,
            start_x < end_x && start_y < end_y ==> {
                &&& (end_y - 1) * size.x + (end_x - 1) <= u32::MAX
                &&& ((end_y - 1) * size.x + (end_x - 1)) * 4 + 3 < old_buffer.len()
            },
            forall|b: int|
                0 <= b < buffer@.len() ==> #[trigger] buffer@[b] == (if in_rect(
                    b / 4,
                    sw,
                    start_x as int,
                    x as int,
                    start_y as int,
                    end_y as int,
                ) {
                    color@[b % 4]
                } else {
                    old_buffer[b]
                }),
        decreases end_x - x,
    {
        let mut y = start_y;
        assert forall|b: int| 0 <= b < buffer@.len() implies !#[trigger] in_rect(
            b / 4,
            sw,
            x as int,
            x + 1,
            start_y as int,
            y as int,
        ) by {
            lemma_rect_empty(b / 4, sw, x as int, x + 1, start_y as int, y as int);
        }
        while y < end_y
            invariant
                start_x <= x < end_x,
                start_y <= y <= end_y,
                buffer@.len() == old_buffer.len() == buffer_len,
                sw == size.x,
                start_y < end_y ==> (end_y - 1) * size.x + (end_x - 1) <= u32::MAX,
                start_y < end_y ==> ((end_y - 1) * size.x + (end_x - 1)) * 4 + 3 < old_buffer.len(),
                forall|b: int|
                    0 <= b < buffer@.len() ==> #[trigger] buffer@[b] == (if in_rect(
                        b / 4,
                        sw,
                        start_x as int,
                        x as int,
                        start_y as int,
                        end_y as int,
                    ) || in_rect(b / 4, sw, x as int, x + 1, start_y as int, y as int) {
                        color@[b % 4]
                    } else {
                        old_buffer[b]
                    }),
            decreases end_y - y,
        {
            proof {
                assert(y * size.x + x <= (end_y - 1) * size.x + (end_x - 1)) by (nonlinear_arith)
                    requires
                        y < end_y,
                        x < end_x,
                        0 <= y,
                        0 <= size.x,
                ;
            }
            let q = idx(x as usize, y as usize, size.x as usize);
            let first = q * 4;
            let ghost before = buffer@;
            let mut i: usize = 0;
            while i < 4
                invariant
                    buffer@.len() == before.len() == buffer_len,
                    first == q * 4,
                    first + 3 < buffer_len,
                    i <= 4,
                    forall|j: int|
                        0 <= j < buffer@.len() ==> #[trigger] buffer@[j] == if first <= j < first
                            + i {
                            color@[j - first]
                        } else {
                            before[j]
                        },
                decreases 4 - i,
            {
                buffer[first + i] = color[i];
                i += 1;
            }
            proof {
                assert forall|b: int| 0 <= b < buffer@.len() implies #[trigger] buffer@[b] == (if in_rect(
                    b / 4,
                    sw,
                    start_x as int,
                    x as int,
                    start_y as int,
                    end_y as int,
                ) || in_rect(b / 4, sw, x as int, x + 1, start_y as int, y + 1) {
                    color@[b % 4]
                } else {
                    old_buffer[b]
                }) by {
                    lemma_rect_grow_y(b / 4, sw, x as int, start_y as int, y as int);
                    lemma_byte_of_pixel(b, q as int);
                }
            }
            y += 1;
        }
        proof {
            assert forall|b: int| 0 <= b < buffer@.len() implies #[trigger] buffer@[b] == (if in_rect(
                b / 4,
                sw,
                start_x as int,
                x + 1,
                start_y as int,
                end_y as int,
            ) {
                color@[b % 4]
            } else {
                old_buffer[b]
            }) by {
                lemma_rect_grow_x(b / 4, sw, start_x as int, x as int, start_y as int, end_y as int);
            }
        }
        x += 1;
    }
    assert(buffer@ =~= filled(
        old_buffer,
        sw,
        start_x as int,
        end_x as int,
        start_y as int,
        end_y as int,
        color@,
    ));
}

/// Pixel `p` of an image `w` pixels wide is one of `positions`.
pub open spec fn marked(p: int, w: int, positions: Seq<(u32, u32)>) -> bool {
    exists|k: int|
        0 <= k < positions.len() && p == #[trigger] grid_index(
            positions[k].0 as int,
            positions[k].1 as int,
            w,
        )
}

/// An image of `size` with the pixels at `positions` painted `color` and
/// the others transparent black.
pub open spec fn pattern_pixels(size: Size, positions: Seq<(u32, u32)>, color: Seq<u8>) -> Seq<u8> {
    Seq::new(
        (size.x * size.y * 4) as nat,
        |b: int|
            if marked(b / 4, size.x as int, positions) {
                color[b % 4]
            } else {
                0
            },
    )
}

proof fn lemma_marked_push(p: int, w: int, positions: Seq<(u32, u32)>, k: int)
    requires
        0 <= k < positions.len(),
    ensures
        marked(p, w, positions.take(k + 1)) == (marked(p, w, positions.take(k)) || p == grid_index(
            positions[k].0 as int,
            positions[k].1 as int,
            w,
        )),
{
    let before = positions.take(k);
    let after = positions.take(k + 1);
    if marked(p, w, after) {
        let j = choose|j: int|
            0 <= j < after.len() && p == #[trigger] grid_index(
                after[j].0 as int,
                after[j].1 as int,
                w,
            );
        if j < k {
            assert(before[j] == after[j]);
        }
    }
    if marked(p, w, before) {
        let j = choose|j: int|
            0 <= j < before.len() && p == #[trigger] grid_index(
                before[j].0 as int,
                before[j].1 as int,
                w,
            );
        assert(after[j] == before[j]);
    }
    if p == grid_index(positions[k].0 as int, positions[k].1 as int, w) {
        assert(after[k] == positions[k]);
    }
}

/// A sprite of `size` with the pixels at `positions` painted `color`.
fn pattern_sprite(size: Size, positions: &[(u32, u32)], color: [u8; 4]) -> (r: Sprite)
    requires
        forall|k: int|
            0 <= k < positions@.len() ==> #[trigger] positions@[k].0 < size.x && positions@[k].1
                < size.y,
        size.x * size.y <= u32::MAX,
        size.x * size.y * 4 <= usize::MAX,
    ensures
        r.size == size,
        r.wf(),
        r.pixels@ == pattern_pixels(size, positions@, color@),
{
    let total = size.x as usize * size.y as usize * 4;
    let mut pixels: Vec<u8> = Vec::with_capacity(total);
    let mut b: usize = 0;
    while b < total
        invariant
            total == size.x * size.y * 4,
            b <= total,
            pixels@.len() == b,
            forall|j: int| 0 <= j < b ==> #[trigger] pixels@[j] == 0,
        decreases total - b,
    {
        pixels.push(0);
        b += 1;
    }
    let mut k: usize = 0;
    proof {
        assert forall|j: int| 0 <= j < total implies !#[trigger] marked(
            j / 4,
            size.x as int,
            positions@.take(0),
        ) by {}
    }
    while k < positions.len()
        invariant
            total == size.x * size.y * 4,
            total <= usize::MAX,
            k <= positions@.len(),
            size.x * size.y <= u32::MAX,
            forall|q: int|
                0 <= q < positions@.len() ==> #[trigger] positions@[q].0 < size.x && positions@[q].1
                    < size.y,
            pixels@.len() == total,
            forall|j: int|
                0 <= j < total ==> #[trigger] pixels@[j] == if marked(
                    j / 4,
                    size.x as int,
                    positions@.take(k as int),
                ) {
                    color@[j % 4]
                } else {
                    0
                },
        decreases positions@.len() - k,
    {
        let (x, y) = positions[k];
        proof {
            lemma_index_in_bounds(x as int, y as int, 3, size.x as int, size.y as int);
        }
        let q = idx(x as usize, y as usize, size.x as usize);
        let first = q * 4;
        let ghost before = pixels@;
        let mut i: usize = 0;
        while i < 4
            invariant
                pixels@.len() == before.len() == total,
                first == q * 4,
                first + 3 < total,
                i <= 4,
                forall|j: int|
                    0 <= j < total ==> #[trigger] pixels@[j] == if first <= j < first + i {
                        color@[j - first]
                    } else {
                        before[j]
                    },
            decreases 4 - i,
        {
            pixels.set(first + i, color[i]);
            i += 1;
        }
        proof {
            assert forall|j: int| 0 <= j < total implies #[trigger] pixels@[j] == if marked(
                j / 4,
                size.x as int,
                positions@.take(k + 1),
            ) {
                color@[j % 4]
            } else {
                0
            } by {
                lemma_marked_push(j / 4, size.x as int, positions@, k as int);
                lemma_byte_of_pixel(j, q as int);
            }
        }
        k += 1;
    }
    proof {
        assert(positions@.take(positions@.len() as int) =~= positions@);
    }
    let r = Sprite::new(pixels, size);
    assert(r.pixels@ =~= pattern_pixels(size, positions@, color@));
    r
}

/// The sprite that marks the selected cell: one pixel of the selection colour.
pub fn currently_selected_sprite() -> (r: Sprite)
    ensures
        r.size == (Size { x: 1, y: 1 }),
        r.pixels@ == pattern_pixels(r.size, seq![(0u32, 0u32)], SELECTED_SPRITE_COLOR@),
{
    let positions = [(0u32, 0u32)];
    assert(positions@ =~= seq![(0u32, 0u32)]);
    let size = Size { x: 1, y: 1 };
    assert(size.x * size.y == 1 && size.x * size.y * 4 == 4) by (nonlinear_arith)
        requires
            size.x == 1,
            size.y == 1,
    ;
    pattern_sprite(size, &positions, SELECTED_SPRITE_COLOR)
}

/// The three by three sprite of the tile with all four openings: a cross.
pub fn tblr_sprite() -> (r: Sprite)
    ensures
        r.size == (Size { x: DEFAULT_SPRITE_WIDTH, y: DEFAULT_SPRITE_HEIGHT }),
        r.pixels@ == pattern_pixels(
            r.size,
            seq![(0u32, 1u32), (1u32, 1u32), (2u32, 1u32), (1u32, 0u32), (1u32, 2u32)],
            DEFAULT_SPRITE_COLOR@,
        ),
{
    let positions = [(0u32, 1u32), (1, 1), (2, 1), (1, 0), (1, 2)];
    assert(positions@ =~= seq![(0u32, 1u32), (1u32, 1u32), (2u32, 1u32), (1u32, 0u32), (1u32, 2u32)]);
    let size = Size { x: DEFAULT_SPRITE_WIDTH, y: DEFAULT_SPRITE_HEIGHT };
    assert(size.x * size.y == 9 && size.x * size.y * 4 == 36) by (nonlinear_arith)
        requires
            size.x == 3,
            size.y == 3,
    ;
    pattern_sprite(size, &positions, DEFAULT_SPRITE_COLOR)
}

/// The sprite of a tile with one opening, pointing up.
pub fn one_sprite() -> (r: Sprite)
    ensures
        r.size == (Size { x: DEFAULT_SPRITE_WIDTH, y: DEFAULT_SPRITE_HEIGHT }),
        r.pixels@ == pattern_pixels(
            r.size,
            seq![(1u32, 0u32), (1u32, 1u32)],
            DEFAULT_SPRITE_COLOR@,
        ),
{
    let positions = [(1u32, 0u32), (1, 1)];
    assert(positions@ =~= seq![(1u32, 0u32), (1u32, 1u32)]);
    let size = Size { x: DEFAULT_SPRITE_WIDTH, y: DEFAULT_SPRITE_HEIGHT };
    assert(size.x * size.y == 9 && size.x * size.y * 4 == 36) by (nonlinear_arith)
        requires
            size.x == 3,
            size.y == 3,
    ;
    pattern_sprite(size, &positions, DEFAULT_SPRITE_COLOR)
}

/// The sprite of a corner tile, open up and right.
pub fn corner_sprite() -> (r: Sprite)
    ensures
        r.size == (Size { x: DEFAULT_SPRITE_WIDTH, y: DEFAULT_SPRITE_HEIGHT }),
        r.pixels@ == pattern_pixels(
            r.size,
            seq![(1u32, 0u32), (1u32, 1u32), (2u32, 1u32)],
            DEFAULT_SPRITE_COLOR@,
        ),
{
    let positions = [(1u32, 0u32), (1, 1), (2, 1)];
    assert(positions@ =~= seq![(1u32, 0u32), (1u32, 1u32), (2u32, 1u32)]);
    let size = Size { x: DEFAULT_SPRITE_WIDTH, y: DEFAULT_SPRITE_HEIGHT };
    assert(size.x * size.y == 9 && size.x * size.y * 4 == 36) by (nonlinear_arith)
        requires
            size.x == 3,
            size.y == 3,
    ;
    pattern_sprite(size, &positions, DEFAULT_SPRITE_COLOR)
}

/// The sprite of a straight tile, open left and right.
pub fn long_sprite() -> (r: Sprite)
    ensures
        r.size == (Size { x: DEFAULT_SPRITE_WIDTH, y: DEFAULT_SPRITE_HEIGHT }),
        r.pixels@ == pattern_pixels(
            r.size,
            seq![(0u32, 1u32), (1u32, 1u32), (2u32, 1u32)],
            DEFAULT_SPRITE_COLOR@,
        ),
{
    let positions = [(0u32, 1u32), (1, 1), (2, 1)];
    assert(positions@ =~= seq![(0u32, 1u32), (1u32, 1u32), (2u32, 1u32)]);
    let size = Size { x: DEFAULT_SPRITE_WIDTH, y: DEFAULT_SPRITE_HEIGHT };
    assert(size.x * size.y == 9 && size.x * size.y * 4 == 36) by (nonlinear_arith)
        requires
            size.x == 3,
            size.y == 3,
    ;
    pattern_sprite(size, &positions, DEFAULT_SPRITE_COLOR)
}

/// The sprite of a tile with three openings: left, right and up.
pub fn three_sprite() -> (r: Sprite)
    ensures
        r.size == (Size { x: DEFAULT_SPRITE_WIDTH, y: DEFAULT_SPRITE_HEIGHT }),
        r.pixels@ == pattern_pixels(
            r.size,
            seq![(0u32, 1u32), (1u32, 1u32), (2u32, 1u32), (1u32, 0u32)],
            DEFAULT_SPRITE_COLOR@,
        ),
{
    let positions = [(0u32, 1u32), (1, 1), (2, 1), (1, 0)];
    assert(positions@ =~= seq![(0u32, 1u32), (1u32, 1u32), (2u32, 1u32), (1u32, 0u32)]);
    let size = Size { x: DEFAULT_SPRITE_WIDTH, y: DEFAULT_SPRITE_HEIGHT };
    assert(size.x * size.y == 9 && size.x * size.y * 4 == 36) by (nonlinear_arith)
        requires
            size.x == 3,
            size.y == 3,
    ;
    pattern_sprite(size, &positions, DEFAULT_SPRITE_COLOR)
}

} // verus!
