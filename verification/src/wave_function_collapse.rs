use vstd::prelude::*;

use crate::app::{
    all_dirs, all_dirs_spec, all_tiles, lemma_all_dirs, lemma_sprite_defined, lemma_turned_by_succ,
    meets_at, solved_spec, sprite_of, Rotate, Tile, MAP_HEIGHT, MAP_WIDTH,
};
use crate::direction::Direction;
use crate::idx;

verus! {

broadcast use vstd::seq_lib::group_seq_properties;

/// Draws a number from `low..high` with `rand::random_range`, which samples
/// uniformly from the thread-local generator and panics on an empty range.
/// Only the bounds of the result are claimed; which number comes out is left
/// to chance.
#[verifier::external_body]
fn random_range(low: usize, high: usize) -> (r: usize)
    requires
        low < high,
    ensures
        low <= r < high,
{
    rand::random_range(low..high)
}

/// The number of cells of the map.
pub open spec fn cell_count() -> int {
    (MAP_WIDTH * MAP_HEIGHT) as int
}

/// The cell next to cell `i` (row-major, `MAP_WIDTH` cells per row) on side
/// `d`, if the map goes on that way.
pub open spec fn neighbour(i: int, d: Direction) -> Option<int> {
    if !(0 <= i < cell_count()) {
        None
    } else {
        let x = i % (MAP_WIDTH as int);
        let y = i / (MAP_WIDTH as int);
        match d {
            Direction::Up => if y > 0 {
                Some(i - MAP_WIDTH)
            } else {
                None
            },
            Direction::Down => if y + 1 < MAP_HEIGHT {
                Some(i + MAP_WIDTH)
            } else {
                None
            },
            Direction::Left => if x > 0 {
                Some(i - 1)
            } else {
                None
            },
            Direction::Right => if x + 1 < MAP_WIDTH {
                Some(i + 1)
            } else {
                None
            },
        }
    }
}

/// Cells are neighbours both ways round, a cell is not its own neighbour,
/// and different sides lead to different cells.
pub proof fn lemma_neighbour(i: int, d: Direction)
    ensures
        neighbour(i, d) matches Some(j) ==> {
            &&& 0 <= j < cell_count()
            &&& j != i
            &&& neighbour(j, d.flipped()) == Some(i)
        },
        forall|e: Direction|
            #![trigger neighbour(i, e)]
            e != d && neighbour(i, d) is Some ==> neighbour(i, e) != neighbour(i, d),
{
}

/// The step on the map that leads to the neighbour on side `dir`.
pub fn propagate_offset(dir: Direction) -> (r: (i32, i32))
    ensures
        r == match dir {
            Direction::Up => (0i32, -1i32),
            Direction::Down => (0i32, 1i32),
            Direction::Left => (-1i32, 0i32),
            Direction::Right => (1i32, 0i32),
        },
{
    match dir {
        Direction::Up => (0, -1),
        Direction::Down => (0, 1),
        Direction::Left => (-1, 0),
        Direction::Right => (1, 0),
    }
}

/// The index of the cell next to `pos` on side `dir`, if there is one.
pub fn neighbour_of(pos: usize, dir: Direction) -> (r: Option<usize>)
    ensures
        match r {
            Some(j) => neighbour(pos as int, dir) == Some(j as int),
            None => neighbour(pos as int, dir) is None,
        },
{
    if pos >= MAP_WIDTH * MAP_HEIGHT {
        return None;
    }
    let x = pos % MAP_WIDTH;
    let y = pos / MAP_WIDTH;
    let (dx, dy) = propagate_offset(dir);
    let tx = x as i32 + dx;
    let ty = y as i32 + dy;
    if tx >= 0 && tx < MAP_WIDTH as i32 && ty >= 0 && ty < MAP_HEIGHT as i32 {
        Some(idx(tx as usize, ty as usize, MAP_WIDTH))
    } else {
        None
    }
}

/// The tiles that a cell of the map may still become.
pub struct WfcCell {
    tiles: Vec<Tile>,
}

impl View for WfcCell {
    type V = Set<Tile>;

    closed spec fn view(&self) -> Set<Tile> {
        self.tiles@.to_set()
    }
}

/// What a cell of the wave function collapse can do.
pub trait WfcCellTrait: Sized + View<V = Set<Tile>> {
    /// Whether exactly one tile is left.
    fn collapsed(&self) -> (r: bool)
        ensures
            r == (self@.len() == 1),
    ;

    /// How many tiles are left.
    fn entropy(&self) -> (r: usize)
        ensures
            r == self@.len(),
    ;

    /// One of the tiles left; the tile, when only one is left.
    fn single(&self) -> (t: Tile)
        requires
            self@.len() > 0,
        ensures
            self@.contains(t),
            self@.len() == 1 ==> self@ == Set::<Tile>::empty().insert(t),
    ;

    /// A cell that may still become any tile with an opening.
    fn full() -> (c: Self)
        ensures
            c@ == all_tiles(),
    ;

    /// Keeps one of the tiles left, picked at random.
    fn collapse(&mut self)
        requires
            old(self)@.len() > 0,
        ensures
            exists|t: Tile|
                old(self)@.contains(t) && final(self)@ == Set::<Tile>::empty().insert(t),
    ;

    /// Keeps the tiles whose opening on side `dir` is there exactly when
    /// `required` holds.
    fn propagate(&mut self, dir: Direction, required: bool)
        ensures
            final(self)@ == old(self)@.filter(|t: Tile| t.has(dir) == required),
    ;

    /// Whether any tile left has an opening on side `dir`.
    fn any_contains(&self, dir: Direction) -> (r: bool)
        ensures
            r == exists|t: Tile| self@.contains(t) && t.has(dir),
    ;
}

impl WfcCell {
    #[verifier::type_invariant]
    spec fn no_tile_twice(self) -> bool {
        self.tiles@.no_duplicates()
    }

    /// The tiles left, in the order the cell keeps them (the order in
    /// which they were added).
    pub closed spec fn listed(&self) -> Seq<Tile> {
        self.tiles@
    }

    proof fn lemma_len(&self)
        requires
            self.tiles@.no_duplicates(),
        ensures
            self@.finite(),
            self@.len() == self.tiles@.len(),
            forall|t: Tile| self@.contains(t) <==> self.tiles@.contains(t),
    {
        self.tiles@.unique_seq_to_set();
        vstd::seq_lib::seq_to_set_is_finite(self.tiles@);
    }

    /// A cell that may become no tile at all.
    pub fn new() -> (c: WfcCell)
        ensures
            c@ == Set::<Tile>::empty(),
            c.listed() == Seq::<Tile>::empty(),
    {
        let c = WfcCell { tiles: Vec::new() };
        assert(c@ =~= Set::<Tile>::empty());
        c
    }

    pub fn contains(&self, tile: &Tile) -> (r: bool)
        ensures
            r == self@.contains(*tile),
    {
        let mut i: usize = 0;
        while i < self.tiles.len()
            invariant
                i <= self.tiles@.len(),
                forall|j: int| 0 <= j < i ==> self.tiles@[j] != *tile,
            decreases self.tiles@.len() - i,
        {
            if self.tiles[i] == *tile {
                assert(self.tiles@.to_set().contains(self.tiles@[i as int]));
                return true;
            }
            i += 1;
        }
        false
    }

    /// Adds a tile at the end of the list; tells whether it was not there yet.
    pub fn insert(&mut self, tile: Tile) -> (added: bool)
        ensures
            final(self)@ == old(self)@.insert(tile),
            added == !old(self)@.contains(tile),
            final(self).listed() == if added {
                old(self).listed().push(tile)
            } else {
                old(self).listed()
            },
    {
        proof {
            use_type_invariant(&*self);
        }
        if self.contains(&tile) {
            assert(self@.insert(tile) =~= self@);
            false
        } else {
            let ghost before = self.tiles@;
            assert(!before.contains(tile));
            let mut grown = Vec::new();
            std::mem::swap(&mut grown, &mut self.tiles);
            grown.push(tile);
            self.tiles = grown;
            assert(self.tiles@.to_set() =~= before.to_set().insert(tile));
            true
        }
    }

    /// Keeps only the tile at place `index` of the list.
    pub fn keep_only(&mut self, index: usize)
        requires
            index < old(self).listed().len(),
        ensures
            final(self).listed() == seq![old(self).listed()[index as int]],
            final(self)@ == Set::<Tile>::empty().insert(old(self).listed()[index as int]),
    {
        let tile = self.tiles[index];
        let mut kept = Vec::new();
        kept.push(tile);
        proof {
            assert(kept@ =~= seq![tile]);
            assert(kept@.no_duplicates());
            assert(kept@.to_set() =~= Set::<Tile>::empty().insert(tile));
        }
        self.tiles = kept;
    }
}

/// Every cell can only hold finitely many tiles.
pub proof fn lemma_cell_finite(c: &WfcCell)
    ensures
        c@.finite(),
{
    vstd::seq_lib::seq_to_set_is_finite(c.tiles@);
}

impl WfcCellTrait for WfcCell {
    fn collapsed(&self) -> (r: bool) {
        proof {
            use_type_invariant(self);
            self.lemma_len();
        }
        self.tiles.len() == 1
    }

    fn entropy(&self) -> (r: usize) {
        proof {
            use_type_invariant(self);
            self.lemma_len();
        }
        self.tiles.len()
    }

    fn single(&self) -> (t: Tile) {
        proof {
            use_type_invariant(self);
            self.lemma_len();
        }
        let t = self.tiles[0];
        proof {
            assert(self.tiles@.contains(t));
            if self@.len() == 1 {
                assert(self.tiles@ =~= seq![t]);
                assert(self@ =~= Set::<Tile>::empty().insert(t));
            }
        }
        t
    }

    fn full() -> (c: WfcCell) {
        let all = all_dirs();
        let mut cell = WfcCell::new();
        let mut i: usize = 0;
        while i < all.len()
            invariant
                i <= all@.len(),
                all@ == all_dirs_spec(),
                cell@ == all@.subrange(0, i as int).to_set(),
            decreases all@.len() - i,
        {
            cell.insert(all[i]);
            assert(all@.subrange(0, i + 1) =~= all@.subrange(0, i as int).push(all@[i as int]));
            assert(all@.subrange(0, i as int).push(all@[i as int]).to_set() =~= all@.subrange(
                0,
                i as int,
            ).to_set().insert(all@[i as int]));
            i += 1;
        }
        proof {
            assert(all@.subrange(0, all@.len() as int) =~= all@);
            lemma_all_dirs();
        }
        cell
    }

    fn collapse(&mut self) {
        proof {
            use_type_invariant(&*self);
            self.lemma_len();
        }
        let rand = random_range(0, self.entropy());
        let ghost tile = self.listed()[rand as int];
        assert(self.tiles@.contains(tile));
        self.keep_only(rand);
    }

    fn propagate(&mut self, dir: Direction, required: bool) {
        proof {
            use_type_invariant(&*self);
        }
        let mut kept: Vec<Tile> = Vec::new();
        let mut i: usize = 0;
        while i < self.tiles.len()
            invariant
                i <= self.tiles@.len(),
                self.tiles@.no_duplicates(),
                kept@.no_duplicates(),
                forall|t: Tile|
                    kept@.contains(t) <==> exists|j: int|
                        0 <= j < i && self.tiles@[j] == t && t.has(dir) == required,
            decreases self.tiles@.len() - i,
        {
            let t = self.tiles[i];
            if t.contains(dir) == required {
                proof {
                    assert(!kept@.contains(t));
                }
                kept.push(t);
                proof {
                    assert forall|u: Tile| kept@.contains(u) <==> exists|j: int|
                        0 <= j < i + 1 && self.tiles@[j] == u && u.has(dir) == required by {
                        if kept@.contains(u) && u != t {
                            assert(kept@.drop_last().contains(u));
                        }
                        if u == t {
                            assert(kept@[kept@.len() - 1] == u);
                        }
                    }
                }
            } else {
                proof {
                    assert forall|u: Tile| kept@.contains(u) <==> exists|j: int|
                        0 <= j < i + 1 && self.tiles@[j] == u && u.has(dir) == required by {
                        if exists|j: int|
                            0 <= j < i + 1 && self.tiles@[j] == u && u.has(dir) == required {
                            let j = choose|j: int|
                                0 <= j < i + 1 && self.tiles@[j] == u && u.has(dir) == required;
                            assert(j != i);
                        }
                    }
                }
            }
            i += 1;
        }
        proof {
            assert(kept@.to_set() =~= self.tiles@.to_set().filter(
                |t: Tile| t.has(dir) == required,
            ));
        }
        self.tiles = kept;
    }

    fn any_contains(&self, dir: Direction) -> (r: bool) {
        let mut i: usize = 0;
        while i < self.tiles.len()
            invariant
                i <= self.tiles@.len(),
                forall|j: int| 0 <= j < i ==> !(#[trigger] self.tiles@[j]).has(dir),
            decreases self.tiles@.len() - i,
        {
            if self.tiles[i].contains(dir) {
                assert(self.tiles@.contains(self.tiles@[i as int]));
                return true;
            }
            i += 1;
        }
        proof {
            assert forall|t: Tile| self@.contains(t) implies !t.has(dir) by {
                let j = choose|j: int| 0 <= j < self.tiles@.len() && self.tiles@[j] == t;
            }
        }
        false
    }
}

/// Tile `t` has no opening toward the outside of the map at cell `i`.
pub open spec fn edge_ok(t: Tile, i: int) -> bool {
    &&& (neighbour(i, Direction::Up) is None ==> !t.up)
    &&& (neighbour(i, Direction::Down) is None ==> !t.down)
    &&& (neighbour(i, Direction::Left) is None ==> !t.left)
    &&& (neighbour(i, Direction::Right) is None ==> !t.right)
}

/// The cells with every tile that opens toward the outside of the map taken
/// away from the cells on its border.
pub open spec fn edges_corrected(cells: Seq<Set<Tile>>) -> Seq<Set<Tile>> {
    Seq::new(cells.len(), |i: int| cells[i].filter(|t: Tile| edge_ok(t, i)))
}

/// Correcting the edges a second time changes nothing.
pub proof fn lemma_edges_corrected_idempotent(cells: Seq<Set<Tile>>)
    ensures
        edges_corrected(edges_corrected(cells)) == edges_corrected(cells),
{
    let once = edges_corrected(cells);
    assert forall|i: int| 0 <= i < cells.len() implies #[trigger] edges_corrected(once)[i]
        == once[i] by {
        assert(edges_corrected(once)[i] =~= once[i]);
    }
    assert(edges_corrected(once) =~= once);
}

/// The border check of the first `x` columns: no opening through the top
/// or bottom edge of the map there.
spec fn row_edge_ok(t: Tile, i: int, x: int) -> bool {
    &&& (i % (MAP_WIDTH as int) < x && neighbour(i, Direction::Up) is None ==> !t.up)
    &&& (i % (MAP_WIDTH as int) < x && neighbour(i, Direction::Down) is None ==> !t.down)
}

/// The full top and bottom check, and the left and right check of the first `y` rows.
spec fn column_edge_ok(t: Tile, i: int, y: int) -> bool {
    &&& row_edge_ok(t, i, MAP_WIDTH as int)
    &&& (i / (MAP_WIDTH as int) < y && neighbour(i, Direction::Left) is None ==> !t.left)
    &&& (i / (MAP_WIDTH as int) < y && neighbour(i, Direction::Right) is None ==> !t.right)
}

/// A finished layout: one tile with an opening in every cell, no opening
/// toward the outside, and every connection met by the neighbour.
pub open spec fn solvable_layout(base: Seq<Tile>) -> bool {
    &&& base.len() == cell_count()
    &&& forall|i: int|
        0 <= i < cell_count() ==> #[trigger] base[i].is_nonempty() && edge_ok(base[i], i)
    &&& solved_spec(base)
}

/// Tile `a` is tile `b` turned by fewer than four quarter turns.
pub open spec fn turned_from(a: Tile, b: Tile) -> bool {
    exists|k: nat| k < 4 && a == #[trigger] b.turned_by(k)
}

/// `m` is `base` with every tile turned by some number of quarter turns.
pub open spec fn is_rotation_of(m: Seq<Tile>, base: Seq<Tile>) -> bool {
    &&& m.len() == base.len()
    &&& forall|i: int| 0 <= i < m.len() ==> turned_from(#[trigger] m[i], base[i])
}

/// A puzzle that the player can solve: some way of turning its tiles gives
/// a finished layout.
pub open spec fn solvable_puzzle(m: Seq<Tile>) -> bool {
    exists|base: Seq<Tile>| solvable_layout(base) && is_rotation_of(m, base)
}

/// The tile of a cell that has settled on one.
pub open spec fn settled(s: Set<Tile>) -> Tile {
    s.choose()
}

/// Whether some tile left in `s` has an opening on side `d`.
pub open spec fn any_has(s: Set<Tile>, d: Direction) -> bool {
    exists|u: Tile| s.contains(u) && u.has(d)
}

/// The side of cell `p` on which cell `j` lies, if they are neighbours.
pub open spec fn direction_to(p: int, j: int) -> Option<Direction> {
    if neighbour(p, Direction::Up) == Some(j) {
        Some(Direction::Up)
    } else if neighbour(p, Direction::Down) == Some(j) {
        Some(Direction::Down)
    } else if neighbour(p, Direction::Left) == Some(j) {
        Some(Direction::Left)
    } else if neighbour(p, Direction::Right) == Some(j) {
        Some(Direction::Right)
    } else {
        None
    }
}

/// The cells after the neighbours of cell `p` dropped every tile that could
/// not meet the tiles left in `p`.
pub open spec fn propagated(cells: Seq<Set<Tile>>, p: int) -> Seq<Set<Tile>> {
    Seq::new(
        cells.len(),
        |j: int|
            match direction_to(p, j) {
                Some(d) => cells[j].filter(|u: Tile| u.has(d.flipped()) == any_has(cells[p], d)),
                None => cells[j],
            },
    )
}

/// Propagating from cell `p` only takes tiles away: every cell keeps a
/// subset of its tiles, `p` itself keeps all of them, and a `p` off the map
/// changes nothing.
pub proof fn lemma_propagated_only_removes(cells: Seq<Set<Tile>>, p: int)
    requires
        cells.len() == cell_count(),
    ensures
        propagated(cells, p).len() == cells.len(),
        forall|q: int| 0 <= q < cells.len() ==> (#[trigger] propagated(cells, p)[q]).subset_of(cells[q]),
        0 <= p < cells.len() ==> propagated(cells, p)[p] == cells[p],
        !(0 <= p < cells.len()) ==> propagated(cells, p) == cells,
{
    lemma_direction_to(p, p);
    assert forall|q: int| 0 <= q < cells.len() implies (#[trigger] propagated(cells, p)[q]).subset_of(
        cells[q],
    ) by {
        lemma_direction_to(p, q);
    }
    if !(0 <= p < cells.len()) {
        assert forall|q: int| 0 <= q < cells.len() implies #[trigger] propagated(cells, p)[q]
            == cells[q] by {
            lemma_direction_to(p, q);
            assert(direction_to(p, q) is None);
        }
        assert(propagated(cells, p) =~= cells);
    }
}

/// Cell `p` is undecided (it has not exactly one tile left), and no
/// undecided cell has fewer tiles left.
pub open spec fn least_entropy_cell(cells: Seq<Set<Tile>>, p: int) -> bool {
    &&& 0 <= p < cells.len()
    &&& cells[p].len() != 1
    &&& forall|q: int|
        0 <= q < cells.len() && #[trigger] cells[q].len() != 1 ==> cells[p].len() <= cells[q].len()
}

/// One step of the collapse: the least-entropy cell `p` keeps only `t`, and
/// its neighbours drop what cannot meet `t`.
pub open spec fn wave_step(before: Seq<Set<Tile>>, p: int, t: Tile, after: Seq<Set<Tile>>) -> bool {
    &&& least_entropy_cell(before, p)
    &&& before[p].contains(t)
    &&& after == propagated(before.update(p, Set::<Tile>::empty().insert(t)), p)
}

/// The cells a run starts from: every tile with an opening in every cell,
/// less the tiles that open toward the outside of the map.
pub open spec fn fresh_cells() -> Seq<Set<Tile>> {
    edges_corrected(Seq::new(cell_count() as nat, |i: int| all_tiles()))
}

/// `cells` is where a run from the fresh cells stands after `n` steps of
/// the collapse.
pub open spec fn reached_in(cells: Seq<Set<Tile>>, n: nat) -> bool
    decreases n,
{
    if n == 0 {
        cells == fresh_cells()
    } else {
        exists|prev: Seq<Set<Tile>>, p: int, t: Tile|
            #![trigger wave_step(prev, p, t, cells)]
            reached_in(prev, (n - 1) as nat) && wave_step(prev, p, t, cells)
    }
}

/// `cells` is where some run from the fresh cells can stand.
pub open spec fn reached(cells: Seq<Set<Tile>>) -> bool {
    exists|n: nat| reached_in(cells, n)
}

/// Whether tile `t` fits cell `i` on side `d`: no opening toward the outside,
/// and next to a cell that a wave settled, an opening exactly where that
/// cell opens back.
spec fn fits_side(t: Tile, i: int, d: Direction, cells: Seq<Set<Tile>>, waved: Seq<bool>) -> bool {
    match neighbour(i, d) {
        Some(k) => waved[k] ==> t.has(d) == settled(cells[k]).has(d.flipped()),
        None => !t.has(d),
    }
}

spec fn fits(t: Tile, i: int, cells: Seq<Set<Tile>>, waved: Seq<bool>) -> bool {
    &&& t.is_nonempty()
    &&& fits_side(t, i, Direction::Up, cells, waved)
    &&& fits_side(t, i, Direction::Down, cells, waved)
    &&& fits_side(t, i, Direction::Left, cells, waved)
    &&& fits_side(t, i, Direction::Right, cells, waved)
}

spec fn fitting_tiles(i: int, cells: Seq<Set<Tile>>, waved: Seq<bool>) -> Set<Tile> {
    Set::new(|t: Tile| fits(t, i, cells, waved))
}

/// A cell a wave settled holds just its tile, which fits its neighbours;
/// any other cell holds exactly the tiles that fit.
spec fn cell_ok(i: int, cells: Seq<Set<Tile>>, waved: Seq<bool>) -> bool {
    if waved[i] {
        &&& cells[i] == Set::<Tile>::empty().insert(settled(cells[i]))
        &&& fits(settled(cells[i]), i, cells, waved)
    } else {
        cells[i] == fitting_tiles(i, cells, waved)
    }
}

spec fn collapse_inv(cells: Seq<Set<Tile>>, waved: Seq<bool>) -> bool {
    &&& cells.len() == cell_count()
    &&& waved.len() == cell_count()
    &&& forall|i: int| 0 <= i < cell_count() ==> #[trigger] cell_ok(i, cells, waved)
}

/// The sum of the numbers of tiles left over all cells.
spec fn total_entropy(cells: Seq<Set<Tile>>) -> nat
    decreases cells.len(),
{
    if cells.len() == 0 {
        0
    } else {
        total_entropy(cells.drop_last()) + cells.last().len()
    }
}

proof fn lemma_singleton(s: Set<Tile>, a: Tile, b: Tile)
    requires
        s.finite(),
        s.len() == 1,
        s.contains(a),
        s.contains(b),
    ensures
        a == b,
{
    if a != b {
        assert(s.remove(a).contains(b));
        assert(s.remove(a).len() == 0);
    }
}

proof fn lemma_settled_singleton(t: Tile)
    ensures
        settled(Set::<Tile>::empty().insert(t)) == t,
        Set::<Tile>::empty().insert(t).len() == 1,
{
    let s = Set::<Tile>::empty().insert(t);
    assert(s.finite());
    assert(s.len() == 1);
    assert(s.contains(s.choose()));
}

/// Whether cell `j` is the neighbour of cell `p` on side `d`, seen from `j`.
proof fn lemma_direction_to(p: int, j: int)
    ensures
        direction_to(p, j) matches Some(d) ==> neighbour(p, d) == Some(j) && neighbour(
            j,
            d.flipped(),
        ) == Some(p) && j != p,
        direction_to(p, j) is None ==> forall|d: Direction| #[trigger]
            neighbour(p, d) != Some(j),
        forall|e: Direction| #[trigger]
            neighbour(j, e) == Some(p) ==> direction_to(p, j) == Some(e.flipped()),
{
    lemma_neighbour(p, Direction::Up);
    lemma_neighbour(p, Direction::Down);
    lemma_neighbour(p, Direction::Left);
    lemma_neighbour(p, Direction::Right);
    assert forall|e: Direction| #[trigger] neighbour(j, e) == Some(p) implies direction_to(p, j)
        == Some(e.flipped()) by {
        lemma_neighbour(j, e);
    }
}

/// Every set of tiles is finite and holds at most sixteen tiles.
proof fn lemma_tile_set_small(s: Set<Tile>)
    ensures
        s.finite(),
        s.len() <= 16,
{
    lemma_all_dirs();
    let none = Tile { up: false, down: false, left: false, right: false };
    let every = all_tiles().insert(none);
    assert(s.subset_of(every));
    vstd::set_lib::lemma_len_subset(s, every);
}

proof fn lemma_cells_finite(cells: Seq<Set<Tile>>)
    ensures
        forall|i: int| 0 <= i < cells.len() ==> (#[trigger] cells[i]).finite() && cells[i].len() <= 16,
{
    assert forall|i: int| 0 <= i < cells.len() implies (#[trigger] cells[i]).finite() && cells[i].len()
        <= 16 by {
        lemma_tile_set_small(cells[i]);
    }
}

proof fn lemma_total_le(a: Seq<Set<Tile>>, b: Seq<Set<Tile>>)
    requires
        a.len() == b.len(),
        forall|i: int| 0 <= i < a.len() ==> (#[trigger] b[i]).subset_of(a[i]),
    ensures
        total_entropy(b) <= total_entropy(a),
    decreases a.len(),
{
    if a.len() > 0 {
        lemma_total_le(a.drop_last(), b.drop_last());
        lemma_tile_set_small(a.last());
        vstd::set_lib::lemma_len_subset(b.last(), a.last());
    }
}

proof fn lemma_total_lt(a: Seq<Set<Tile>>, b: Seq<Set<Tile>>, p: int)
    requires
        a.len() == b.len(),
        forall|i: int| 0 <= i < a.len() ==> (#[trigger] b[i]).subset_of(a[i]),
        0 <= p < a.len(),
        b[p].len() < a[p].len(),
    ensures
        total_entropy(b) < total_entropy(a),
    decreases a.len(),
{
    if p == a.len() - 1 {
        lemma_total_le(a.drop_last(), b.drop_last());
    } else {
        lemma_total_lt(a.drop_last(), b.drop_last(), p);
        lemma_tile_set_small(a.last());
        vstd::set_lib::lemma_len_subset(b.last(), a.last());
    }
}

spec fn after_wave(cells: Seq<Set<Tile>>, p: int, t: Tile) -> Seq<Set<Tile>> {
    propagated(cells.update(p, Set::<Tile>::empty().insert(t)), p)
}

/// What a tile of cell `i` must meet once cell `p` settled on `t`.
spec fn meets(u: Tile, i: int, p: int, t: Tile) -> bool {
    match direction_to(p, i) {
        Some(d) => u.has(d.flipped()) == t.has(d),
        None => true,
    }
}

proof fn lemma_any_has_one(t: Tile, d: Direction)
    ensures
        any_has(Set::<Tile>::empty().insert(t), d) == t.has(d),
{
    let one = Set::<Tile>::empty().insert(t);
    if any_has(one, d) {
        let u = choose|u: Tile| one.contains(u) && u.has(d);
        assert(u == t);
    } else {
        assert(one.contains(t));
    }
}

/// After the wave, the settled cells keep their tiles and `p` holds `t`.
proof fn lemma_settled_after(cells: Seq<Set<Tile>>, waved: Seq<bool>, p: int, t: Tile)
    requires
        collapse_inv(cells, waved),
        0 <= p < cell_count(),
        !waved[p],
        fits(t, p, cells, waved),
    ensures
        settled(after_wave(cells, p, t)[p]) == t,
        after_wave(cells, p, t)[p] == Set::<Tile>::empty().insert(t),
        forall|k: int|
            0 <= k < cell_count() && waved[k] ==> {
                &&& #[trigger] after_wave(cells, p, t)[k] == cells[k]
                &&& settled(after_wave(cells, p, t)[k]) == settled(cells[k])
            },
        forall|i: int|
            #![trigger after_wave(cells, p, t)[i]]
            0 <= i < cell_count() && direction_to(p, i) is None ==> after_wave(cells, p, t)[i]
                == cells.update(p, Set::<Tile>::empty().insert(t))[i],
{
    let one = Set::<Tile>::empty().insert(t);
    let c1 = cells.update(p, one);
    let c2 = after_wave(cells, p, t);
    lemma_settled_singleton(t);
    lemma_direction_to(p, p);
    assert(c2[p] == one);
    assert forall|k: int| 0 <= k < cell_count() && waved[k] implies #[trigger] c2[k] == cells[k]
        && settled(c2[k]) == settled(cells[k]) by {
        assert(cell_ok(k, cells, waved));
        lemma_direction_to(p, k);
        assert(k != p);
        match direction_to(p, k) {
            Some(d) => {
                let ck = settled(cells[k]);
                assert(fits_side(t, p, d, cells, waved));
                assert(t.has(d) == ck.has(d.flipped()));
                lemma_any_has_one(t, d);
                assert(c1[p] == one);
                assert(c2[k] == cells[k].filter(|u: Tile| u.has(d.flipped()) == any_has(c1[p], d)));
                assert(c2[k] =~= cells[k]);
            },
            None => {},
        }
    }
}

/// Once `p` settled on `t`, a tile fits cell `i` on side `e` when it fitted
/// before and, if that side faces `p`, it meets `t`.
proof fn lemma_side_after(
    cells: Seq<Set<Tile>>,
    waved: Seq<bool>,
    p: int,
    t: Tile,
    u: Tile,
    i: int,
    e: Direction,
)
    requires
        collapse_inv(cells, waved),
        0 <= p < cell_count(),
        !waved[p],
        fits(t, p, cells, waved),
        0 <= i < cell_count(),
    ensures
        fits_side(u, i, e, after_wave(cells, p, t), waved.update(p, true)) == (fits_side(
            u,
            i,
            e,
            cells,
            waved,
        ) && (neighbour(i, e) == Some(p) ==> u.has(e) == t.has(e.flipped()))),
{
    lemma_settled_after(cells, waved, p, t);
    lemma_neighbour(i, e);
}

proof fn lemma_fits_after(cells: Seq<Set<Tile>>, waved: Seq<bool>, p: int, t: Tile, u: Tile, i: int)
    requires
        collapse_inv(cells, waved),
        0 <= p < cell_count(),
        !waved[p],
        fits(t, p, cells, waved),
        0 <= i < cell_count(),
    ensures
        fits(u, i, after_wave(cells, p, t), waved.update(p, true)) == (fits(u, i, cells, waved)
            && meets(u, i, p, t)),
{
    lemma_side_after(cells, waved, p, t, u, i, Direction::Up);
    lemma_side_after(cells, waved, p, t, u, i, Direction::Down);
    lemma_side_after(cells, waved, p, t, u, i, Direction::Left);
    lemma_side_after(cells, waved, p, t, u, i, Direction::Right);
    lemma_direction_to(p, i);
    lemma_neighbour(i, Direction::Up);
    lemma_neighbour(i, Direction::Down);
    lemma_neighbour(i, Direction::Left);
    lemma_neighbour(i, Direction::Right);
}

/// One wave keeps the invariant of the collapse, with `p` now settled by a wave.
proof fn lemma_wave_step(cells: Seq<Set<Tile>>, waved: Seq<bool>, p: int, t: Tile)
    requires
        collapse_inv(cells, waved),
        0 <= p < cell_count(),
        cells[p].len() != 1,
        cells[p].contains(t),
    ensures
        !waved[p],
        collapse_inv(after_wave(cells, p, t), waved.update(p, true)),
{
    let one = Set::<Tile>::empty().insert(t);
    let c1 = cells.update(p, one);
    let c2 = after_wave(cells, p, t);
    let w2 = waved.update(p, true);
    assert(cell_ok(p, cells, waved));
    if waved[p] {
        lemma_settled_singleton(settled(cells[p]));
        assert(false);
    }
    assert(fits(t, p, cells, waved));
    lemma_settled_after(cells, waved, p, t);
    assert forall|i: int| 0 <= i < cell_count() implies #[trigger] cell_ok(i, c2, w2) by {
        lemma_direction_to(p, i);
        if i == p {
            lemma_fits_after(cells, waved, p, t, t, p);
        } else if waved[i] {
            let ci = settled(cells[i]);
            lemma_fits_after(cells, waved, p, t, ci, i);
            assert(cell_ok(i, cells, waved));
            match direction_to(p, i) {
                Some(d) => {
                    assert(fits_side(t, p, d, cells, waved));
                },
                None => {},
            }
        } else {
            assert(cell_ok(i, cells, waved));
            assert forall|u: Tile| #[trigger] fitting_tiles(i, c2, w2).contains(u) == c2[i].contains(
                u,
            ) by {
                lemma_fits_after(cells, waved, p, t, u, i);
                match direction_to(p, i) {
                    Some(d) => {
                        lemma_any_has_one(t, d);
                        assert(c1[p] == one);
                        assert(c2[i] == cells[i].filter(
                            |v: Tile| v.has(d.flipped()) == any_has(c1[p], d),
                        ));
                    },
                    None => {},
                }
            }
            assert(fitting_tiles(i, c2, w2) =~= c2[i]);
        }
    }
}

spec fn with_side(t: Tile, d: Direction) -> Tile {
    match d {
        Direction::Up => Tile { up: true, ..t },
        Direction::Down => Tile { down: true, ..t },
        Direction::Left => Tile { left: true, ..t },
        Direction::Right => Tile { right: true, ..t },
    }
}

/// A settled cell's tile lies in the cell and fits it.
proof fn lemma_settled_fits(cells: Seq<Set<Tile>>, waved: Seq<bool>, i: int)
    requires
        collapse_inv(cells, waved),
        0 <= i < cell_count(),
        cells[i].len() == 1,
    ensures
        cells[i].contains(settled(cells[i])),
        fits(settled(cells[i]), i, cells, waved),
{
    lemma_tile_set_small(cells[i]);
    assert(cells[i].contains(settled(cells[i])));
    assert(cell_ok(i, cells, waved));
    if !waved[i] {
        assert(fitting_tiles(i, cells, waved).contains(settled(cells[i])));
    }
}

/// A cell that settled without a wave is open toward every neighbour that
/// was not settled by a wave either: nothing held that side shut, so the
/// tile open on that side would have fitted too.
proof fn lemma_free_side(cells: Seq<Set<Tile>>, waved: Seq<bool>, i: int, d: Direction)
    requires
        collapse_inv(cells, waved),
        0 <= i < cell_count(),
        cells[i].len() == 1,
        !waved[i],
        neighbour(i, d) matches Some(j) && !waved[j],
    ensures
        settled(cells[i]).has(d),
{
    let b = settled(cells[i]);
    lemma_settled_fits(cells, waved, i);
    let u = with_side(b, d);
    assert(fits_side(u, i, Direction::Up, cells, waved));
    assert(fits_side(u, i, Direction::Down, cells, waved));
    assert(fits_side(u, i, Direction::Left, cells, waved));
    assert(fits_side(u, i, Direction::Right, cells, waved));
    assert(fits(u, i, cells, waved));
    assert(cell_ok(i, cells, waved));
    assert(cells[i].contains(u));
    lemma_tile_set_small(cells[i]);
    lemma_singleton(cells[i], u, b);
}

/// When every cell holds one tile, those tiles form a finished layout.
proof fn lemma_settled_layout(cells: Seq<Set<Tile>>, waved: Seq<bool>)
    requires
        collapse_inv(cells, waved),
        forall|i: int| 0 <= i < cells.len() ==> (#[trigger] cells[i]).len() == 1,
    ensures
        solvable_layout(Seq::new(cell_count() as nat, |i: int| settled(cells[i]))),
{
    let base = Seq::new(cell_count() as nat, |i: int| settled(cells[i]));
    assert forall|i: int| 0 <= i < cell_count() implies #[trigger] base[i].is_nonempty() && edge_ok(
        base[i],
        i,
    ) by {
        lemma_settled_fits(cells, waved, i);
    }
    assert forall|i: int, d: Direction| 0 <= i < base.len() implies #[trigger] meets_at(base, i, d) by {
        lemma_neighbour(i, d);
        if let Some(j) = neighbour(i, d) {
            assert(base[j] == settled(cells[j]));
            lemma_settled_fits(cells, waved, i);
            lemma_settled_fits(cells, waved, j);
            if waved[j] {
                assert(fits_side(base[i], i, d, cells, waved));
            } else if waved[i] {
                assert(fits_side(base[j], j, d.flipped(), cells, waved));
            } else {
                lemma_free_side(cells, waved, i, d);
                lemma_free_side(cells, waved, j, d.flipped());
            }
        }
    }
    assert(base.len() == cell_count());
    assert(solved_spec(base));
}

/// Right after the edges are corrected, no cell has been settled by a wave
/// and every cell holds the tiles that fit the map's edges.
proof fn lemma_initial_inv(cells: Seq<Set<Tile>>)
    requires
        cells == Seq::new(
            cell_count() as nat,
            |i: int| all_tiles().filter(|t: Tile| edge_ok(t, i)),
        ),
    ensures
        collapse_inv(cells, Seq::new(cell_count() as nat, |i: int| false)),
{
    let waved = Seq::new(cell_count() as nat, |i: int| false);
    assert forall|i: int| 0 <= i < cell_count() implies #[trigger] cell_ok(i, cells, waved) by {
        assert(fitting_tiles(i, cells, waved) =~= cells[i]);
    }
}

proof fn lemma_wave_shrinks(cells: Seq<Set<Tile>>, p: int, t: Tile)
    requires
        cells.len() == cell_count(),
        0 <= p < cell_count(),
        cells[p].len() != 1,
        cells[p].contains(t),
    ensures
        total_entropy(after_wave(cells, p, t)) < total_entropy(cells),
{
    let c2 = after_wave(cells, p, t);
    lemma_settled_singleton(t);
    lemma_direction_to(p, p);
    assert forall|i: int| 0 <= i < cells.len() implies (#[trigger] c2[i]).subset_of(cells[i]) by {
        lemma_direction_to(p, i);
    }
    lemma_tile_set_small(cells[p]);
    assert(cells[p].len() > 0);
    lemma_total_lt(cells, c2, p);
}

/// The map of cells that the wave function collapse fills in.
pub struct WaveFunctionCollapse {
    pub map: Vec<WfcCell>,
}

impl View for WaveFunctionCollapse {
    type V = Seq<Set<Tile>>;

    open spec fn view(&self) -> Seq<Set<Tile>> {
        self.map@.map_values(|c: WfcCell| c@)
    }
}

impl WaveFunctionCollapse {
    pub fn new() -> (w: Self)
        ensures
            w@ == Seq::<Set<Tile>>::empty(),
    {
        let map = Vec::with_capacity(MAP_WIDTH * MAP_HEIGHT);
        let w = WaveFunctionCollapse { map };
        assert(w@ =~= Seq::<Set<Tile>>::empty());
        w
    }

    /// Lays out a new puzzle: every cell starts open to every tile that fits
    /// the map's edges, then the undecided cell with the fewest tiles left is
    /// settled on a random one of them and its neighbours drop the tiles that
    /// cannot meet it, until every cell holds one tile. The tiles are then
    /// turned at random. Gives `None` when a cell is left with no tile at
    /// all, and otherwise a puzzle that turning its tiles can solve.
    pub fn generate(&mut self) -> (r: Option<Vec<Tile>>)
        ensures
            final(self)@.len() == cell_count(),
            match r {
                Some(m) => {
                    &&& solvable_puzzle(m@)
                    &&& forall|i: int| 0 <= i < cell_count() ==> #[trigger] final(self)@[i].len() == 1
                    &&& solvable_layout(Seq::new(cell_count() as nat, |i: int| settled(final(self)@[i])))
                    &&& is_rotation_of(m@, Seq::new(cell_count() as nat, |i: int| settled(final(self)@[i])))
                    &&& reached(final(self)@)
                },
                None => {
                    &&& reached(final(self)@)
                    &&& exists|p: int| least_entropy_cell(final(self)@, p) && final(self)@[p].len() == 0
                },
            },
    {
        self.init_map();
        self.correct_edges();
        assert(self@ =~= Seq::new(
            cell_count() as nat,
            |i: int| all_tiles().filter(|t: Tile| edge_ok(t, i)),
        ));
        let ghost mut waved = Seq::new(cell_count() as nat, |i: int| false);
        let ghost mut steps: nat = 0;
        proof {
            lemma_initial_inv(self@);
            assert(self@ == fresh_cells());
            assert(reached_in(self@, 0));
        }
        while !self.all_collapsed()
            invariant
                collapse_inv(self@, waved),
                self.map@.len() == cell_count(),
                reached_in(self@, steps),
            decreases total_entropy(self@),
        {
            let ghost before = self@;
            let ok = self.wave();
            if !ok {
                assert(reached_in(self@, steps));
                return None;
            }
            proof {
                let (p, t) = choose|p: int, t: Tile| wave_step(before, p, t, self@);
                lemma_wave_step(before, waved, p, t);
                lemma_wave_shrinks(before, p, t);
                waved = waved.update(p, true);
                assert(reached_in(before, ((steps + 1) - 1) as nat));
                assert(wave_step(before, p, t, self@));
                assert(reached_in(self@, steps + 1));
                steps = steps + 1;
            }
        }
        assert(reached_in(self@, steps));
        let ghost cells = self@;
        assert(self@.len() == cell_count());
        let m = self.convert();
        proof {
            let base = Seq::new(cell_count() as nat, |i: int| settled(cells[i]));
            lemma_settled_layout(cells, waved);
            assert(is_rotation_of(m@, base));
        }
        Some(m)
    }

    /// Settles the undecided cell with the fewest tiles left on one of them,
    /// at random, and narrows its neighbours. Returns false, changing
    /// nothing, when that cell has no tile left.
    fn wave(&mut self) -> (ok: bool)
        requires
            old(self).map@.len() == cell_count(),
            exists|q: int| 0 <= q < cell_count() && #[trigger] old(self)@[q].len() != 1,
        ensures
            final(self).map@.len() == cell_count(),
            ok ==> exists|p: int, t: Tile| wave_step(old(self)@, p, t, final(self)@),
            !ok ==> final(self)@ == old(self)@ && exists|p: int|
                least_entropy_cell(old(self)@, p) && old(self)@[p].len() == 0,
    {
        let pos = self.get_least_entropy_tile();
        if self.map[pos].entropy() == 0 {
            return false;
        }
        let ghost before = self@;
        self.map[pos].collapse();
        let ghost t = choose|t: Tile|
            before[pos as int].contains(t) && self.map@[pos as int]@ == Set::<Tile>::empty().insert(
                t,
            );
        assert(self@ =~= before.update(pos as int, Set::<Tile>::empty().insert(t)));
        self.propagate_neighbours(pos);
        assert(wave_step(before, pos as int, t, self@));
        true
    }

    fn init_map(&mut self)
        ensures
            final(self).map@.len() == cell_count(),
            final(self)@ == Seq::new(cell_count() as nat, |i: int| all_tiles()),
    {
        let mut map: Vec<WfcCell> = Vec::with_capacity(MAP_WIDTH * MAP_HEIGHT);
        let mut y: usize = 0;
        while y < MAP_HEIGHT
            invariant
                y <= MAP_HEIGHT,
                map@.len() == y * MAP_WIDTH,
                forall|i: int| 0 <= i < map@.len() ==> (#[trigger] map@[i])@ == all_tiles(),
            decreases MAP_HEIGHT - y,
        {
            let mut x: usize = 0;
            while x < MAP_WIDTH
                invariant
                    y < MAP_HEIGHT,
                    x <= MAP_WIDTH,
                    map@.len() == y * MAP_WIDTH + x,
                    forall|i: int| 0 <= i < map@.len() ==> (#[trigger] map@[i])@ == all_tiles(),
                decreases MAP_WIDTH - x,
            {
                map.push(WfcCell::full());
                x += 1;
            }
            y += 1;
        }
        self.map = map;
        assert(self@ =~= Seq::new(cell_count() as nat, |i: int| all_tiles()));
    }

    /// Takes away from the cells on the map's border every tile that opens
    /// toward the outside.
    fn correct_edges(&mut self)
        requires
            old(self).map@.len() == cell_count(),
        ensures
            final(self).map@.len() == cell_count(),
            final(self)@ == edges_corrected(old(self)@),
    {
        let ghost start = self@;
        let mut x: usize = 0;
        while x < MAP_WIDTH
            invariant
                x <= MAP_WIDTH,
                self.map@.len() == cell_count(),
                start.len() == cell_count(),
                forall|i: int|
                    0 <= i < cell_count() ==> #[trigger] self@[i] == start[i].filter(
                        |t: Tile| row_edge_ok(t, i, x as int),
                    ),
            decreases MAP_WIDTH - x,
        {
            let pos_1 = idx(x, 0, MAP_WIDTH);
            let pos_2 = idx(x, MAP_HEIGHT - 1, MAP_WIDTH);
            let ghost before = self@;
            self.map[pos_1].propagate(Direction::Up, false);
            let ghost middle = self@;
            assert(middle =~= before.update(
                pos_1 as int,
                before[pos_1 as int].filter(|t: Tile| t.has(Direction::Up) == false),
            ));
            self.map[pos_2].propagate(Direction::Down, false);
            assert(self@ =~= middle.update(
                pos_2 as int,
                middle[pos_2 as int].filter(|t: Tile| t.has(Direction::Down) == false),
            ));
            assert(pos_1 == x && pos_2 == 12 + x);
            assert forall|i: int| 0 <= i < cell_count() implies #[trigger] self@[i]
                == start[i].filter(|t: Tile| row_edge_ok(t, i, x + 1)) by {
                assert(self@[i] =~= start[i].filter(|t: Tile| row_edge_ok(t, i, x + 1)));
            }
            x += 1;
        }
        let mut y: usize = 0;
        while y < MAP_HEIGHT
            invariant
                y <= MAP_HEIGHT,
                self.map@.len() == cell_count(),
                start.len() == cell_count(),
                forall|i: int|
                    0 <= i < cell_count() ==> #[trigger] self@[i] == start[i].filter(
                        |t: Tile| column_edge_ok(t, i, y as int),
                    ),
            decreases MAP_HEIGHT - y,
        {
            let pos_1 = idx(0, y, MAP_WIDTH);
            let pos_2 = idx(MAP_WIDTH - 1, y, MAP_WIDTH);
            let ghost before = self@;
            self.map[pos_1].propagate(Direction::Left, false);
            let ghost middle = self@;
            assert(middle =~= before.update(
                pos_1 as int,
                before[pos_1 as int].filter(|t: Tile| t.has(Direction::Left) == false),
            ));
            self.map[pos_2].propagate(Direction::Right, false);
            assert(self@ =~= middle.update(
                pos_2 as int,
                middle[pos_2 as int].filter(|t: Tile| t.has(Direction::Right) == false),
            ));
            assert(pos_1 == 4 * y && pos_2 == 4 * y + 3);
            assert forall|i: int| 0 <= i < cell_count() implies #[trigger] self@[i]
                == start[i].filter(|t: Tile| column_edge_ok(t, i, y + 1)) by {
                assert(self@[i] =~= start[i].filter(|t: Tile| column_edge_ok(t, i, y + 1)));
            }
            y += 1;
        }
        assert forall|i: int| 0 <= i < cell_count() implies #[trigger] self@[i] == start[i].filter(
            |t: Tile| edge_ok(t, i),
        ) by {
            assert(self@[i] =~= start[i].filter(|t: Tile| edge_ok(t, i)));
        }
        assert(self@ =~= edges_corrected(start));
    }

    fn all_collapsed(&self) -> (r: bool)
        ensures
            r == forall|i: int| 0 <= i < self@.len() ==> (#[trigger] self@[i]).len() == 1,
    {
        let mut i: usize = 0;
        while i < self.map.len()
            invariant
                i <= self.map@.len(),
                forall|j: int| 0 <= j < i ==> (#[trigger] self@[j]).len() == 1,
            decreases self.map@.len() - i,
        {
            assert(self@[i as int] == self.map@[i as int]@);
            if !self.map[i].collapsed() {
                return false;
            }
            i += 1;
        }
        true
    }

    /// The first undecided cell with the fewest tiles left; a random cell
    /// when every cell is decided.
    fn get_least_entropy_tile(&self) -> (pos: usize)
        requires
            self.map@.len() == cell_count(),
        ensures
            pos < cell_count(),
            (exists|q: int| 0 <= q < cell_count() && #[trigger] self@[q].len() != 1) ==> {
                &&& least_entropy_cell(self@, pos as int)
                &&& forall|q: int|
                    0 <= q < pos && #[trigger] self@[q].len() != 1 ==> self@[q].len()
                        > self@[pos as int].len()
            },
    {
        let mut best_entropy = usize::MAX;
        let mut best_pos = idx(
            random_range(0, MAP_WIDTH),
            random_range(0, MAP_HEIGHT),
            MAP_WIDTH,
        );
        let mut i: usize = 0;
        proof {
            lemma_cells_finite(self@);
        }
        while i < self.map.len()
            invariant
                i <= self.map@.len() == cell_count(),
                best_pos < cell_count(),
                forall|q: int| 0 <= q < cell_count() ==> (#[trigger] self@[q]).len() <= 16,
                (exists|q: int| 0 <= q < i && #[trigger] self@[q].len() != 1) ==> {
                    &&& best_pos < i
                    &&& self@[best_pos as int].len() != 1
                    &&& best_entropy == self@[best_pos as int].len()
                    &&& forall|q: int|
                        0 <= q < i && #[trigger] self@[q].len() != 1 ==> best_entropy <= self@[q].len()
                    &&& forall|q: int|
                        0 <= q < best_pos && #[trigger] self@[q].len() != 1 ==> self@[q].len()
                            > best_entropy
                },
                !(exists|q: int| 0 <= q < i && #[trigger] self@[q].len() != 1) ==> best_entropy
                    == usize::MAX,
            decreases self.map@.len() - i,
        {
            if !self.map[i].collapsed() {
                let entropy = self.map[i].entropy();
                if entropy < best_entropy {
                    best_entropy = entropy;
                    best_pos = i;
                }
            }
            i += 1;
        }
        best_pos
    }

    /// Narrows the neighbours of `pos` to the tiles that can meet the tiles
    /// left in `pos`; nothing happens when the map has no cell `pos`.
    fn propagate_neighbours(&mut self, pos: usize)
        requires
            old(self).map@.len() == cell_count(),
        ensures
            final(self).map@.len() == cell_count(),
            final(self)@ == propagated(old(self)@, pos as int),
            forall|q: int|
                0 <= q < cell_count() ==> (#[trigger] final(self)@[q]).subset_of(old(self)@[q]),
            pos < cell_count() ==> final(self)@[pos as int] == old(self)@[pos as int],
            pos >= cell_count() ==> final(self)@ == old(self)@,
    {
        let ghost before = self@;
        if pos >= self.map.len() {
            proof {
                assert forall|j: int| 0 <= j < cell_count() implies #[trigger] self@[j]
                    == propagated(before, pos as int)[j] by {
                    lemma_direction_to(pos as int, j);
                }
                assert(self@ =~= propagated(before, pos as int));
            }
            return;
        }
        self.propagate_towards(pos, Direction::Up);
        self.propagate_towards(pos, Direction::Down);
        self.propagate_towards(pos, Direction::Left);
        self.propagate_towards(pos, Direction::Right);
        proof {
            lemma_neighbour(pos as int, Direction::Up);
            lemma_neighbour(pos as int, Direction::Down);
            lemma_neighbour(pos as int, Direction::Left);
            lemma_neighbour(pos as int, Direction::Right);
            assert forall|j: int| 0 <= j < cell_count() implies #[trigger] self@[j] == propagated(
                before,
                pos as int,
            )[j] by {
                lemma_direction_to(pos as int, j);
            }
            assert(self@ =~= propagated(before, pos as int));
            assert forall|q: int| 0 <= q < cell_count() implies (#[trigger] self@[q]).subset_of(
                before[q],
            ) by {
                lemma_direction_to(pos as int, q);
            }
            lemma_direction_to(pos as int, pos as int);
        }
    }

    fn propagate_towards(&mut self, pos: usize, dir: Direction)
        requires
            old(self).map@.len() == cell_count(),
        ensures
            final(self).map@.len() == cell_count(),
            final(self)@ == match neighbour(pos as int, dir) {
                Some(j) => old(self)@.update(
                    j,
                    old(self)@[j].filter(
                        |u: Tile| u.has(dir.flipped()) == any_has(old(self)@[pos as int], dir),
                    ),
                ),
                None => old(self)@,
            },
    {
        let ghost before = self@;
        match neighbour_of(pos, dir) {
            Some(j) => {
                let with = self.map[pos].any_contains(dir);
                self.map[j].propagate(dir.opposite(), with);
                assert(self@ =~= before.update(
                    j as int,
                    before[j as int].filter(
                        |u: Tile| u.has(dir.flipped()) == any_has(before[pos as int], dir),
                    ),
                ));
            },
            None => {},
        }
    }

    /// The settled tiles of the map, each turned at random.
    fn convert(&self) -> (new_map: Vec<Tile>)
        requires
            self.map@.len() == cell_count(),
            forall|i: int| 0 <= i < cell_count() ==> (#[trigger] self@[i]).len() == 1,
        ensures
            is_rotation_of(
                new_map@,
                Seq::new(cell_count() as nat, |i: int| settled(self@[i])),
            ),
    {
        let mut new_map: Vec<Tile> = Vec::with_capacity(MAP_WIDTH * MAP_HEIGHT);
        let mut i: usize = 0;
        while i < self.map.len()
            invariant
                i <= self.map@.len() == cell_count(),
                forall|q: int| 0 <= q < cell_count() ==> (#[trigger] self@[q]).len() == 1,
                new_map@.len() == i,
                forall|q: int| 0 <= q < i ==> #[trigger] new_map@[q] == settled(self@[q]),
            decreases self.map@.len() - i,
        {
            assert(self@[i as int] == self.map@[i as int]@);
            let tile = self.map[i].single();
            proof {
                assert(self@[i as int].len() == 1);
                lemma_settled_singleton(tile);
            }
            new_map.push(tile);
            i += 1;
        }
        let ghost singles = new_map@;
        let drawn_turns = self.shuffle(&mut new_map);
        proof {
            let base = Seq::new(cell_count() as nat, |i: int| settled(self@[i]));
            assert(singles =~= base);
            let turns = drawn_turns@;
            assert forall|i: int| 0 <= i < new_map@.len() implies turned_from(
                #[trigger] new_map@[i],
                base[i],
            ) by {
                assert(turns[i] < 4);
                assert(new_map@[i] == base[i].turned_by(turns[i] as nat));
            }
        }
        new_map
    }

    /// Turns every tile a random number (below four) of quarter turns, and
    /// hands back the numbers drawn, in the order of the tiles: tile `i` is
    /// turned by exactly the `i`-th number drawn.
    fn shuffle(&self, tiles: &mut Vec<Tile>) -> (turns: Vec<usize>)
        ensures
            turns@.len() == old(tiles)@.len(),
            forall|i: int| 0 <= i < turns@.len() ==> #[trigger] turns@[i] < 4,
            final(tiles)@ == turned_each(old(tiles)@, turns@),
    {
        let mut turns: Vec<usize> = Vec::with_capacity(tiles.len());
        let mut i: usize = 0;
        while i < tiles.len()
            invariant
                i <= tiles@.len(),
                turns@.len() == i,
                forall|k: int| 0 <= k < i ==> #[trigger] turns@[k] < 4,
            decreases tiles@.len() - i,
        {
            turns.push(random_range(0, 4));
            i += 1;
        }
        turn_tiles(tiles, &turns);
        turns
    }
}

/// `tiles` with tile `i` turned by `turns[i]` quarter turns.
pub open spec fn turned_each(tiles: Seq<Tile>, turns: Seq<usize>) -> Seq<Tile> {
    Seq::new(tiles.len(), |i: int| tiles[i].turned_by(turns[i] as nat))
}

/// What `k` quarter turns (below four) make of a tile, written out: one
/// turn moves each opening a side clockwise, two swap opposite sides, three
/// move each opening a side anticlockwise.
pub proof fn lemma_turned_by_explicit(t: Tile, k: nat)
    requires
        k < 4,
    ensures
        t.turned_by(k) == (if k == 0 {
            t
        } else if k == 1 {
            Tile { up: t.left, right: t.up, down: t.right, left: t.down }
        } else if k == 2 {
            Tile { up: t.down, right: t.left, down: t.up, left: t.right }
        } else {
            Tile { up: t.right, right: t.down, down: t.left, left: t.up }
        }),
{
    reveal_with_fuel(Tile::turned_by, 4);
}

/// Turning every tile by its own number of quarter turns, written out tile
/// by tile: tile `i` of the result is tile `i` turned `turns[i]` times, so a
/// number that is not a multiple of four changes every tile that is not
/// symmetric under the turn.
pub proof fn lemma_turned_each_tiles(tiles: Seq<Tile>, turns: Seq<usize>)
    requires
        tiles.len() == turns.len(),
        forall|i: int| 0 <= i < turns.len() ==> #[trigger] turns[i] < 4,
    ensures
        turned_each(tiles, turns).len() == tiles.len(),
        forall|i: int|
            0 <= i < tiles.len() ==> #[trigger] turned_each(tiles, turns)[i] == (if turns[i] == 0 {
                tiles[i]
            } else if turns[i] == 1 {
                Tile { up: tiles[i].left, right: tiles[i].up, down: tiles[i].right, left: tiles[i].down }
            } else if turns[i] == 2 {
                Tile { up: tiles[i].down, right: tiles[i].left, down: tiles[i].up, left: tiles[i].right }
            } else {
                Tile { up: tiles[i].right, right: tiles[i].down, down: tiles[i].left, left: tiles[i].up }
            }),
{
    assert forall|i: int| 0 <= i < tiles.len() implies #[trigger] turned_each(tiles, turns)[i] == (
    if turns[i] == 0 {
        tiles[i]
    } else if turns[i] == 1 {
        Tile { up: tiles[i].left, right: tiles[i].up, down: tiles[i].right, left: tiles[i].down }
    } else if turns[i] == 2 {
        Tile { up: tiles[i].down, right: tiles[i].left, down: tiles[i].up, left: tiles[i].right }
    } else {
        Tile { up: tiles[i].right, right: tiles[i].down, down: tiles[i].left, left: tiles[i].up }
    }) by {
        lemma_turned_by_explicit(tiles[i], turns[i] as nat);
    }
}

/// Turns tile `i` by `turns[i]` quarter turns, one turn at a time.
pub fn turn_tiles(tiles: &mut Vec<Tile>, turns: &Vec<usize>)
    requires
        old(tiles)@.len() == turns@.len(),
    ensures
        final(tiles)@ == turned_each(old(tiles)@, turns@),
{
    let ghost unturned = tiles@;
    let mut i: usize = 0;
    while i < tiles.len()
        invariant
            i <= tiles@.len() == unturned.len() == turns@.len(),
            forall|q: int| i <= q < tiles@.len() ==> #[trigger] tiles@[q] == unturned[q],
            forall|q: int|
                0 <= q < i ==> #[trigger] tiles@[q] == unturned[q].turned_by(turns@[q] as nat),
        decreases tiles@.len() - i,
    {
        let count = turns[i];
        let mut tile = tiles[i];
        let mut done: usize = 0;
        while done < count
            invariant
                i < unturned.len(),
                done <= count,
                tile == unturned[i as int].turned_by(done as nat),
            decreases count - done,
        {
            proof {
                lemma_turned_by_succ(unturned[i as int], done as nat);
            }
            tile.rotate();
            done += 1;
        }
        tiles.set(i, tile);
        i += 1;
    }
    assert(tiles@ =~= turned_each(unturned, turns@));
}

/// Turning a tile never takes away its last opening, nor gives one to a
/// tile without any.
pub proof fn lemma_turned_nonempty(t: Tile, k: nat)
    ensures
        t.turned_by(k).is_nonempty() == t.is_nonempty(),
    decreases k,
{
    if k > 0 {
        lemma_turned_nonempty(t.rotated(), (k - 1) as nat);
    }
}

/// Every tile of a generated puzzle has a sprite to draw it with.
pub proof fn lemma_puzzle_tiles_have_sprites(m: Seq<Tile>)
    requires
        solvable_puzzle(m),
    ensures
        m.len() == cell_count(),
        forall|i: int| 0 <= i < m.len() ==> #[trigger] sprite_of(m[i]) is Some,
{
    let base = choose|base: Seq<Tile>| solvable_layout(base) && is_rotation_of(m, base);
    assert forall|i: int| 0 <= i < m.len() implies #[trigger] sprite_of(m[i]) is Some by {
        assert(turned_from(m[i], base[i]));
        let k = choose|k: nat| k < 4 && m[i] == #[trigger] base[i].turned_by(k);
        assert(base[i].is_nonempty());
        lemma_turned_nonempty(base[i], k);
        lemma_sprite_defined(m[i]);
    }
}

} // verus!
