//! The world: a dense row-major grid of cells with configurable
//! dimensions, advanced generation by generation under Conway's rule,
//! and rendered as fixed-width text.

use vstd::prelude::*;

use crate::cell::Cell;
use crate::coord::Coord;
use crate::grid::in_bounds_spec;
use crate::grid::neighbor_list;
use crate::grid::neighbors;
use crate::rules::alive_in;
use crate::rules::cell_at;
use crate::rules::lemma_live_in_neighbor_list;
use crate::rules::live_in_list;
use crate::rules::live_neighbor_count;
use crate::rules::next_alive;
use vstd::arithmetic::div_mod::lemma_fundamental_div_mod;
use vstd::arithmetic::div_mod::lemma_mod_bound;

verus! {

/// Grid completeness, one half: row-major indexing sends every
/// in-bounds coordinate into the cell vector's range, and two
/// coordinates never share a slot — no duplicates.
pub proof fn lemma_grid_completeness(height: int, width: int, r1: int, c1: int, r2: int, c2: int)
    requires
        in_bounds_spec(r1, c1, height, width),
        in_bounds_spec(r2, c2, height, width),
    ensures
        0 <= r1 * width + c1 < height * width,
        r1 * width + c1 == r2 * width + c2 ==> r1 == r2 && c1 == c2,
{
    assert(0 <= r1 * width + c1 < height * width) by (nonlinear_arith)
        requires
            0 <= r1 < height,
            0 <= c1 < width,
    ;
    if r1 * width + c1 == r2 * width + c2 {
        assert(r1 == r2 && c1 == c2) by (nonlinear_arith)
            requires
                0 <= r1 < height,
                0 <= c1 < width,
                0 <= r2 < height,
                0 <= c2 < width,
                r1 * width + c1 == r2 * width + c2,
        ;
    }
}

/// Grid completeness, other half: every slot of the cell vector is
/// some in-bounds coordinate's — no omissions.
pub proof fn lemma_slot_has_coordinate(height: int, width: int, k: int)
    requires
        0 < width,
        0 <= k < height * width,
    ensures
        in_bounds_spec(k / width, k % width, height, width),
        k == (k / width) * width + k % width,
{
    lemma_fundamental_div_mod(k, width);
    lemma_mod_bound(k, width);
    assert(k / width < height) by (nonlinear_arith)
        requires
            0 < width,
            k < height * width,
            width * (k / width) + k % width == k,
            0 <= k % width < width,
    ;
    assert(0 <= k / width) by (nonlinear_arith)
        requires
            0 < width,
            0 <= k,
            width * (k / width) + k % width == k,
            0 <= k % width < width,
    ;
    assert((k / width) * width == width * (k / width)) by (nonlinear_arith);
}

/// Relies on rand 0.8's `rand::random`: one independent draw per
/// call, uniform over the value type. Nothing is assumed of which
/// value comes back.
pub assume_specification<T>[ rand::random::<T> ]() -> (r: T)
    where
        rand::distributions::Standard: rand::distributions::Distribution<T>,
;

/// The alive flags of a sequence of cells.
pub open spec fn alive_view(s: Seq<Cell>) -> Seq<bool> {
    s.map_values(|cl: Cell| cl.alive)
}

/// The fixed-width token a cell renders as.
pub open spec fn render_token(b: bool) -> Seq<char> {
    if b {
        seq![' ', '0', ' ']
    } else {
        seq![' ', '.', ' ']
    }
}

/// One rendered grid row from column `col` rightward, closed by a
/// newline.
pub open spec fn render_row_from(g: Seq<bool>, width: int, row: int, col: int) -> Seq<char>
    decreases width - col,
{
    if col >= width {
        seq!['\n']
    } else {
        render_token(cell_at(g, width, row, col)) + render_row_from(g, width, row, col + 1)
    }
}

/// The rendered grid from row `row` downward.
pub open spec fn render_from(g: Seq<bool>, height: int, width: int, row: int) -> Seq<char>
    decreases height - row,
{
    if row >= height {
        Seq::empty()
    } else {
        render_row_from(g, width, row, 0) + render_from(g, height, width, row + 1)
    }
}

/// The full text rendering of a grid: rows top to bottom, columns
/// left to right, each cell three characters wide, one line per row.
pub open spec fn render_spec(g: Seq<bool>, height: int, width: int) -> Seq<char> {
    render_from(g, height, width, 0)
}

/// A bounded 2D grid of cells. Built once, then mutated in place, one
/// whole generation at a time; the set of grid slots never changes
/// across its lifetime, only the cell states do.
pub struct World {
    pub height: i32,
    pub width: i32,
    pub cells: Vec<Cell>,
}

impl World {
    /// Well-formedness: positive dimensions whose product fits an
    /// `i32`, and exactly one cell slot per in-bounds coordinate.
    pub open spec fn wf(&self) -> bool {
        0 < self.height && 0 < self.width && (self.height as int) * (self.width as int)
            <= i32::MAX as int && self.cells@.len() == (self.height as int) * (self.width as int)
    }

    /// The grid as row-major alive flags.
    pub open spec fn grid(&self) -> Seq<bool> {
        alive_view(self.cells@)
    }

    /// Whether the cell at (row, col) is alive.
    pub open spec fn alive_at(&self, row: int, col: int) -> bool {
        cell_at(self.grid(), self.width as int, row, col)
    }

    /// Build a world from explicit initial cell states, row-major.
    /// The result is fully pinned: worlds seeded with identical
    /// states are identical in every later generation.
    pub fn from_states(height: i32, width: i32, states: &Vec<bool>) -> (w: World)
        requires
            0 < height,
            0 < width,
            height as int * width as int <= i32::MAX as int,
            states@.len() == height as int * width as int,
        ensures
            w.wf(),
            w.height == height,
            w.width == width,
            forall|k: int| 0 <= k < states@.len() ==> w.grid()[k] == states@[k],
    {
        let n = (height as usize) * (width as usize);
        let mut cells: Vec<Cell> = Vec::new();
        let mut k: usize = 0;
        while k < n
            invariant
                k <= n,
                n == height as int * width as int,
                states@.len() == n as int,
                cells@.len() == k as int,
                forall|j: int| 0 <= j < k ==> cells@[j].alive == states@[j],
            decreases n - k,
        {
            let mut cl = Cell::new();
            cl.set_state(states[k]);
            cells.push(cl);
            k += 1;
        }
        let w = World { height, width, cells };
        proof {
            assert forall|j: int| 0 <= j < states@.len() implies w.grid()[j] == states@[j] by {
                assert(w.grid()[j] == w.cells@[j].alive);
            }
        }
        w
    }

    /// Build a world of the given dimensions with every cell's state
    /// drawn at random: each cell takes one uniform draw, scaled to
    /// thousandths, and starts alive exactly when the scaled draw
    /// falls strictly below `spawn_millis` (strictly — this engine's
    /// fixed choice of behavior at the threshold boundary). Nothing
    /// more is promised of the initial states; seed `from_states`
    /// with chosen values to pin them.
    pub fn new(height: i32, width: i32, spawn_millis: u32) -> (w: World)
        requires
            0 < height,
            0 < width,
            height as int * width as int <= i32::MAX as int,
            spawn_millis <= 1000,
        ensures
            w.wf(),
            w.height == height,
            w.width == width,
    {
        let n = (height as usize) * (width as usize);
        let mut states: Vec<bool> = Vec::new();
        let mut k: usize = 0;
        while k < n
            invariant
                k <= n,
                n == height as int * width as int,
                spawn_millis <= 1000,
                states@.len() == k as int,
            decreases n - k,
        {
            let draw = rand::random::<u32>();
            let alive = (draw as u64) * 1000 < (spawn_millis as u64) * 0x1_0000_0000;
            states.push(alive);
            k += 1;
        }
        World::from_states(height, width, &states)
    }

    /// The cell at an in-bounds coordinate.
    pub fn cell(&self, row: i32, col: i32) -> (r: Cell)
        requires
            self.wf(),
            in_bounds_spec(row as int, col as int, self.height as int, self.width as int),
        ensures
            r.alive == self.alive_at(row as int, col as int),
    {
        proof {
            lemma_grid_completeness(
                self.height as int,
                self.width as int,
                row as int,
                col as int,
                row as int,
                col as int,
            );
        }
        let idx = (row as usize) * (self.width as usize) + (col as usize);
        let r = self.cells[idx];
        proof {
            assert(self.grid()[idx as int] == self.cells@[idx as int].alive);
        }
        r
    }

    /// Advance one generation: every cell's next state is computed
    /// from the current generation alone, and the whole grid is then
    /// swapped at once, so no cell's update ever observes another
    /// cell's already-updated state.
    pub fn step(&mut self)
        requires
            old(self).wf(),
        ensures
            final(self).wf(),
            final(self).height == old(self).height,
            final(self).width == old(self).width,
            forall|r: int, c: int|
                in_bounds_spec(r, c, old(self).height as int, old(self).width as int)
                    ==> #[trigger] cell_at(final(self).grid(), old(self).width as int, r, c)
                    == next_alive(
                    cell_at(old(self).grid(), old(self).width as int, r, c),
                    live_neighbor_count(
                        old(self).grid(),
                        old(self).height as int,
                        old(self).width as int,
                        r,
                        c,
                    ),
                ),
    {
        let height = self.height;
        let width = self.width;
        let ghost g = self.grid();
        let ghost hh = height as int;
        let ghost ww = width as int;
        let mut next: Vec<Cell> = Vec::new();
        let mut row: i32 = 0;
        while row < height
            invariant
                self == old(self),
                old(self).wf(),
                g == self.grid(),
                height == self.height,
                width == self.width,
                hh == height as int,
                ww == width as int,
                0 <= row <= height,
                next@.len() == row as int * ww,
                forall|r: int, c: int|
                    in_bounds_spec(r, c, hh, ww) && r * ww + c < next@.len()
                        ==> #[trigger] cell_at(alive_view(next@), ww, r, c)
                        == next_alive(cell_at(g, ww, r, c), live_neighbor_count(g, hh, ww, r, c)),
            decreases height - row,
        {
            let mut col: i32 = 0;
            proof {
                lemma_grid_completeness(hh, ww, row as int, 0, row as int, 0);
            }
            while col < width
                invariant
                    self == old(self),
                    old(self).wf(),
                    g == self.grid(),
                    height == self.height,
                    width == self.width,
                    hh == height as int,
                    ww == width as int,
                    0 <= row < height,
                    0 <= col <= width,
                    next@.len() == row as int * ww + col as int,
                    forall|r: int, c: int|
                        in_bounds_spec(r, c, hh, ww) && r * ww + c < next@.len()
                            ==> #[trigger] cell_at(alive_view(next@), ww, r, c)
                            == next_alive(
                            cell_at(g, ww, r, c),
                            live_neighbor_count(g, hh, ww, r, c),
                        ),
                decreases width - col,
            {
                let coord = Coord::new(row, col);
                let nv = neighbors(&coord, height, width);
                let mut cnt: u32 = 0;
                let mut k: usize = 0;
                proof {
                    assert(nv@.len() <= 8);
                    assert(nv@.subrange(0, 0) =~= Seq::<Coord>::empty());
                }
                while k < nv.len()
                    invariant
                        self == old(self),
                        old(self).wf(),
                        g == self.grid(),
                        height == self.height,
                        width == self.width,
                        hh == height as int,
                        ww == width as int,
                        k <= nv@.len() <= 8,
                        cnt <= k,
                        nv@ == neighbor_list(coord.row as int, coord.col as int, hh, ww),
                        forall|j: int|
                            0 <= j < nv@.len() ==> in_bounds_spec(
                                #[trigger] nv@[j].row as int,
                                nv@[j].col as int,
                                hh,
                                ww,
                            ),
                        cnt as int == live_in_list(g, hh, ww, nv@.subrange(0, k as int)),
                    decreases nv@.len() - k,
                {
                    let nc = nv[k];
                    proof {
                        lemma_grid_completeness(hh, ww, nc.row as int, nc.col as int, nc.row as int, nc.col as int);
                    }
                    let idx = (nc.row as usize) * (width as usize) + (nc.col as usize);
                    let live = self.cells[idx].alive;
                    proof {
                        assert(g[idx as int] == self.cells@[idx as int].alive);
                        assert(live == alive_in(g, hh, ww, nc.row as int, nc.col as int));
                        let pre = nv@.subrange(0, k as int);
                        let post = nv@.subrange(0, k as int + 1);
                        assert(post.drop_last() =~= pre);
                        assert(post.last() == nv@[k as int]);
                    }
                    if live {
                        cnt = cnt + 1;
                    }
                    k += 1;
                }
                proof {
                    assert(nv@.subrange(0, nv@.len() as int) =~= nv@);
                    lemma_live_in_neighbor_list(g, hh, ww, row as int, col as int);
                    assert(cnt as int == live_neighbor_count(g, hh, ww, row as int, col as int));
                    lemma_grid_completeness(hh, ww, row as int, col as int, row as int, col as int);
                }
                let cidx = (row as usize) * (width as usize) + (col as usize);
                let past = self.cells[cidx];
                proof {
                    assert(g[cidx as int] == self.cells@[cidx as int].alive);
                    assert(past.alive == cell_at(g, ww, row as int, col as int));
                }
                let mut ncell = past.copy();
                if past.alive {
                    if cnt < 2 {
                        // underpopulation
                        ncell.kill();
                    } else if cnt > 3 {
                        // overpopulation
                        ncell.kill();
                    }
                } else {
                    if cnt == 3 {
                        // reproduction
                        ncell.spawn();
                    }
                }
                proof {
                    assert(ncell.alive == next_alive(
                        cell_at(g, ww, row as int, col as int),
                        live_neighbor_count(g, hh, ww, row as int, col as int),
                    ));
                }
                let ghost prev = next@;
                next.push(ncell);
                proof {
                    assert(alive_view(next@) =~= alive_view(prev).push(ncell.alive));
                    assert forall|r: int, c: int|
                        in_bounds_spec(r, c, hh, ww) && r * ww + c < next@.len() implies #[trigger] cell_at(
                        alive_view(next@),
                        ww,
                        r,
                        c,
                    ) == next_alive(cell_at(g, ww, r, c), live_neighbor_count(g, hh, ww, r, c)) by {
                        lemma_grid_completeness(hh, ww, r, c, row as int, col as int);
                        if r * ww + c < prev.len() {
                            assert(cell_at(alive_view(next@), ww, r, c) == cell_at(
                                alive_view(prev),
                                ww,
                                r,
                                c,
                            ));
                        } else {
                            assert(r * ww + c == prev.len());
                            assert(r == row as int && c == col as int);
                        }
                    }
                }
                col += 1;
            }
            proof {
                assert((row as int + 1) * ww == row as int * ww + ww) by (nonlinear_arith);
            }
            row += 1;
        }
        self.cells = next;
        proof {
            assert forall|r: int, c: int| in_bounds_spec(r, c, hh, ww) implies #[trigger] cell_at(
                self.grid(),
                ww,
                r,
                c,
            ) == next_alive(cell_at(g, ww, r, c), live_neighbor_count(g, hh, ww, r, c)) by {
                lemma_grid_completeness(hh, ww, r, c, r, c);
            }
        }
    }

    /// Render the current state as text: one line per grid row, row 0
    /// first, columns left to right, each cell as the three-character
    /// token " 0 " when alive and " . " when dead, a newline closing
    /// every row. A pure read: callable at any point, the world is
    /// never changed by it.
    pub fn draw(&self) -> (r: String)
        requires
            self.wf(),
        ensures
            r@ == render_spec(self.grid(), self.height as int, self.width as int),
    {
        let ghost g = self.grid();
        let ghost hh = self.height as int;
        let ghost ww = self.width as int;
        let mut out = String::new();
        let mut row: i32 = 0;
        proof {
            assert(out@ =~= Seq::<char>::empty());
        }
        while row < self.height
            invariant
                self.wf(),
                hh == self.height as int,
                ww == self.width as int,
                g == self.grid(),
                0 <= row <= self.height,
                out@ + render_from(g, hh, ww, row as int) == render_spec(g, hh, ww),
            decreases self.height - row,
        {
            let mut col: i32 = 0;
            proof {
                assert(render_from(g, hh, ww, row as int) == render_row_from(g, ww, row as int, 0)
                    + render_from(g, hh, ww, row as int + 1));
            }
            while col < self.width
                invariant
                    self.wf(),
                    hh == self.height as int,
                    ww == self.width as int,
                    g == self.grid(),
                    0 <= row < self.height,
                    0 <= col <= self.width,
                    out@ + render_row_from(g, ww, row as int, col as int) + render_from(
                        g,
                        hh,
                        ww,
                        row as int + 1,
                    ) == render_spec(g, hh, ww),
                decreases self.width - col,
            {
                let cl = self.cell(row, col);
                if cl.alive {
                    out.append(" 0 ");
                } else {
                    out.append(" . ");
                }
                proof {
                    reveal_strlit(" 0 ");
                    reveal_strlit(" . ");
                    assert(" 0 "@ =~= render_token(true));
                    assert(" . "@ =~= render_token(false));
                    assert(render_row_from(g, ww, row as int, col as int) == render_token(
                        cell_at(g, ww, row as int, col as int),
                    ) + render_row_from(g, ww, row as int, col as int + 1));
                    assert(out@ + render_row_from(g, ww, row as int, col as int + 1) + render_from(
                        g,
                        hh,
                        ww,
                        row as int + 1,
                    ) =~= render_spec(g, hh, ww));
                }
                col += 1;
            }
            out.append("\n");
            proof {
                reveal_strlit("\n");
                assert(render_row_from(g, ww, row as int, self.width as int) =~= seq!['\n']);
                assert("\n"@ =~= seq!['\n']);
                assert(out@ + render_from(g, hh, ww, row as int + 1) =~= render_spec(g, hh, ww));
            }
            row += 1;
        }
        proof {
            assert(render_from(g, hh, ww, hh) =~= Seq::<char>::empty());
            assert(out@ =~= render_spec(g, hh, ww));
        }
        out
    }
}

} // verus!
