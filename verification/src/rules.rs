//! The cellular-automaton rule: live-neighbor counting over a
//! row-major grid of booleans, and Conway's transition function,
//! together with the laws that hold of them.

use vstd::prelude::*;

use crate::coord::Coord;
use crate::grid::b2i;
use crate::grid::in_bounds_spec;
use crate::grid::neighbor_list;
use crate::grid::opt_coord;

verus! {

/// The boolean stored at (row, col) of a row-major grid of the given
/// width.
pub open spec fn cell_at(g: Seq<bool>, width: int, row: int, col: int) -> bool {
    g[row * width + col]
}

/// Whether (row, col) is in bounds and holds a live cell.
pub open spec fn alive_in(g: Seq<bool>, height: int, width: int, row: int, col: int) -> bool {
    in_bounds_spec(row, col, height, width) && cell_at(g, width, row, col)
}

/// The number of live in-bounds neighbors of (row, col): out-of-bounds
/// positions never count, so edges act as hard boundaries.
pub open spec fn live_neighbor_count(
    g: Seq<bool>,
    height: int,
    width: int,
    row: int,
    col: int,
) -> int {
    b2i(alive_in(g, height, width, row - 1, col - 1)) + b2i(
        alive_in(g, height, width, row - 1, col),
    ) + b2i(alive_in(g, height, width, row - 1, col + 1)) + b2i(
        alive_in(g, height, width, row, col - 1),
    ) + b2i(alive_in(g, height, width, row, col + 1)) + b2i(
        alive_in(g, height, width, row + 1, col - 1),
    ) + b2i(alive_in(g, height, width, row + 1, col)) + b2i(
        alive_in(g, height, width, row + 1, col + 1),
    )
}

/// Conway's rule: a live cell survives on two or three live neighbors
/// (dying of underpopulation below, of overpopulation above); a dead
/// cell comes alive on exactly three.
pub open spec fn next_alive(cur: bool, n: int) -> bool {
    if cur {
        2 <= n && n <= 3
    } else {
        n == 3
    }
}

/// Underpopulation: a live cell with fewer than two live neighbors is
/// dead in the next generation.
pub proof fn lemma_underpopulation(n: int)
    requires
        n < 2,
    ensures
        !next_alive(true, n),
{
}

/// Survival: a live cell with exactly two or three live neighbors
/// stays alive in the next generation.
pub proof fn lemma_survival(n: int)
    requires
        n == 2 || n == 3,
    ensures
        next_alive(true, n),
{
}

/// Overpopulation: a live cell with four or more live neighbors is
/// dead in the next generation.
pub proof fn lemma_overpopulation(n: int)
    requires
        n >= 4,
    ensures
        !next_alive(true, n),
{
}

/// Reproduction: a dead cell comes alive in the next generation when
/// and only when it has exactly three live neighbors.
pub proof fn lemma_reproduction(n: int)
    ensures
        next_alive(false, n) <==> n == 3,
{
}

/// How many coordinates of `s` name a live in-bounds cell of `g`.
pub open spec fn live_in_list(g: Seq<bool>, height: int, width: int, s: Seq<Coord>) -> int
    decreases s.len(),
{
    if s.len() == 0 {
        0
    } else {
        live_in_list(g, height, width, s.drop_last()) + b2i(
            alive_in(g, height, width, s.last().row as int, s.last().col as int),
        )
    }
}

/// Live counts add up over concatenation.
proof fn lemma_live_in_list_concat(g: Seq<bool>, height: int, width: int, a: Seq<Coord>, b: Seq<
    Coord,
>)
    ensures
        live_in_list(g, height, width, a + b) == live_in_list(g, height, width, a) + live_in_list(
            g,
            height,
            width,
            b,
        ),
    decreases b.len(),
{
    if b.len() == 0 {
        assert(a + b =~= a);
    } else {
        assert((a + b).drop_last() =~= a + b.drop_last());
        assert((a + b).last() == b.last());
        lemma_live_in_list_concat(g, height, width, a, b.drop_last());
    }
}

/// The live count along one candidate's contribution.
proof fn lemma_live_opt(g: Seq<bool>, height: int, width: int, row: int, col: int)
    requires
        height <= i32::MAX as int,
        width <= i32::MAX as int,
    ensures
        live_in_list(g, height, width, opt_coord(row, col, height, width)) == b2i(
            alive_in(g, height, width, row, col),
        ),
{
    assert(live_in_list(g, height, width, Seq::<Coord>::empty()) == 0);
    if in_bounds_spec(row, col, height, width) {
        let s = opt_coord(row, col, height, width);
        assert(s.drop_last() =~= Seq::<Coord>::empty());
        assert(s.last().row as int == row && s.last().col as int == col);
        assert(live_in_list(g, height, width, s) == live_in_list(g, height, width, s.drop_last())
            + b2i(alive_in(g, height, width, s.last().row as int, s.last().col as int)));
    } else {
        assert(opt_coord(row, col, height, width) =~= Seq::<Coord>::empty());
    }
}

/// Counting live cells along the neighbor list gives exactly the live
/// neighbor count: the order of the neighbors never matters.
pub proof fn lemma_live_in_neighbor_list(g: Seq<bool>, height: int, width: int, row: int, col: int)
    requires
        height <= i32::MAX as int,
        width <= i32::MAX as int,
    ensures
        live_in_list(g, height, width, neighbor_list(row, col, height, width))
            == live_neighbor_count(g, height, width, row, col),
{
    let o1 = opt_coord(row - 1, col - 1, height, width);
    let o2 = opt_coord(row - 1, col, height, width);
    let o3 = opt_coord(row - 1, col + 1, height, width);
    let o4 = opt_coord(row, col - 1, height, width);
    let o5 = opt_coord(row, col + 1, height, width);
    let o6 = opt_coord(row + 1, col - 1, height, width);
    let o7 = opt_coord(row + 1, col, height, width);
    let o8 = opt_coord(row + 1, col + 1, height, width);
    lemma_live_in_list_concat(g, height, width, o1 + o2 + o3 + o4 + o5 + o6 + o7, o8);
    lemma_live_in_list_concat(g, height, width, o1 + o2 + o3 + o4 + o5 + o6, o7);
    lemma_live_in_list_concat(g, height, width, o1 + o2 + o3 + o4 + o5, o6);
    lemma_live_in_list_concat(g, height, width, o1 + o2 + o3 + o4, o5);
    lemma_live_in_list_concat(g, height, width, o1 + o2 + o3, o4);
    lemma_live_in_list_concat(g, height, width, o1 + o2, o3);
    lemma_live_in_list_concat(g, height, width, o1, o2);
    lemma_live_opt(g, height, width, row - 1, col - 1);
    lemma_live_opt(g, height, width, row - 1, col);
    lemma_live_opt(g, height, width, row - 1, col + 1);
    lemma_live_opt(g, height, width, row, col - 1);
    lemma_live_opt(g, height, width, row, col + 1);
    lemma_live_opt(g, height, width, row + 1, col - 1);
    lemma_live_opt(g, height, width, row + 1, col);
    lemma_live_opt(g, height, width, row + 1, col + 1);
}

/// Determinism after initialization: two grids that agree on every
/// in-bounds cell step to next generations that also agree on every
/// in-bounds cell — the successor generation is a function of the
/// current cell states alone.
pub proof fn lemma_step_deterministic(g1: Seq<bool>, g2: Seq<bool>, height: int, width: int)
    requires
        forall|r: int, c: int|
            #![trigger alive_in(g1, height, width, r, c)]
            #![trigger alive_in(g2, height, width, r, c)]
            alive_in(g1, height, width, r, c) == alive_in(g2, height, width, r, c),
    ensures
        forall|r: int, c: int|
            in_bounds_spec(r, c, height, width) ==> #[trigger] next_alive(
                cell_at(g1, width, r, c),
                live_neighbor_count(g1, height, width, r, c),
            ) == next_alive(cell_at(g2, width, r, c), live_neighbor_count(g2, height, width, r, c)),
{
    assert forall|r: int, c: int| in_bounds_spec(r, c, height, width) implies #[trigger] next_alive(
        cell_at(g1, width, r, c),
        live_neighbor_count(g1, height, width, r, c),
    ) == next_alive(cell_at(g2, width, r, c), live_neighbor_count(g2, height, width, r, c)) by {
        assert(alive_in(g1, height, width, r, c) == alive_in(g2, height, width, r, c));
        assert(alive_in(g1, height, width, r - 1, c - 1) == alive_in(g2, height, width, r - 1, c - 1));
        assert(alive_in(g1, height, width, r - 1, c) == alive_in(g2, height, width, r - 1, c));
        assert(alive_in(g1, height, width, r - 1, c + 1) == alive_in(g2, height, width, r - 1, c + 1));
        assert(alive_in(g1, height, width, r, c - 1) == alive_in(g2, height, width, r, c - 1));
        assert(alive_in(g1, height, width, r, c + 1) == alive_in(g2, height, width, r, c + 1));
        assert(alive_in(g1, height, width, r + 1, c - 1) == alive_in(g2, height, width, r + 1, c - 1));
        assert(alive_in(g1, height, width, r + 1, c) == alive_in(g2, height, width, r + 1, c));
        assert(alive_in(g1, height, width, r + 1, c + 1) == alive_in(g2, height, width, r + 1, c + 1));
    }
}

/// Whether (r, c) lies in the 2 x 2 block whose top-left corner is
/// (row, col).
pub open spec fn in_block(row: int, col: int, r: int, c: int) -> bool {
    row <= r <= row + 1 && col <= c <= col + 1
}

/// Stability of the still-life block: on a grid whose live cells are
/// exactly a 2 x 2 block placed away from every boundary, the
/// transition rule changes nothing — the block is a fixed point, so
/// it is unchanged by any number of generations.
pub proof fn lemma_block_still_life(g: Seq<bool>, height: int, width: int, row: int, col: int)
    requires
        1 <= row && row + 1 <= height - 2,
        1 <= col && col + 1 <= width - 2,
        forall|r: int, c: int|
            in_bounds_spec(r, c, height, width) ==> (#[trigger] cell_at(g, width, r, c) <==>
            in_block(row, col, r, c)),
    ensures
        forall|r: int, c: int|
            in_bounds_spec(r, c, height, width) ==> #[trigger] next_alive(
                cell_at(g, width, r, c),
                live_neighbor_count(g, height, width, r, c),
            ) == cell_at(g, width, r, c),
{
    assert forall|r: int, c: int| in_bounds_spec(r, c, height, width) implies #[trigger] next_alive(
        cell_at(g, width, r, c),
        live_neighbor_count(g, height, width, r, c),
    ) == cell_at(g, width, r, c) by {
        assert(alive_in(g, height, width, r - 1, c - 1) == (in_bounds_spec(r - 1, c - 1, height, width)
            && in_block(row, col, r - 1, c - 1)));
        assert(alive_in(g, height, width, r - 1, c) == (in_bounds_spec(r - 1, c, height, width)
            && in_block(row, col, r - 1, c)));
        assert(alive_in(g, height, width, r - 1, c + 1) == (in_bounds_spec(r - 1, c + 1, height, width)
            && in_block(row, col, r - 1, c + 1)));
        assert(alive_in(g, height, width, r, c - 1) == (in_bounds_spec(r, c - 1, height, width)
            && in_block(row, col, r, c - 1)));
        assert(alive_in(g, height, width, r, c + 1) == (in_bounds_spec(r, c + 1, height, width)
            && in_block(row, col, r, c + 1)));
        assert(alive_in(g, height, width, r + 1, c - 1) == (in_bounds_spec(r + 1, c - 1, height, width)
            && in_block(row, col, r + 1, c - 1)));
        assert(alive_in(g, height, width, r + 1, c) == (in_bounds_spec(r + 1, c, height, width)
            && in_block(row, col, r + 1, c)));
        assert(alive_in(g, height, width, r + 1, c + 1) == (in_bounds_spec(r + 1, c + 1, height, width)
            && in_block(row, col, r + 1, c + 1)));
    }
}

} // verus!
