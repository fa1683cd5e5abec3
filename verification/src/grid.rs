//! Grid geometry: bounds checks and the neighborhood of a coordinate.
//!
//! Edges are hard boundaries — there is no wrap-around — so edge and
//! corner cells have fewer than eight neighbors.

use vstd::prelude::*;

use crate::coord::Coord;

verus! {

/// Whether (row, col) lies on a grid of the given dimensions.
pub open spec fn in_bounds_spec(row: int, col: int, height: int, width: int) -> bool {
    0 <= row < height && 0 <= col < width
}

/// 1 for true, 0 for false: the summand of a count.
pub open spec fn b2i(b: bool) -> int {
    if b {
        1
    } else {
        0
    }
}

/// Check if a coordinate falls within grid bounds.
pub fn inbounds(coords: Coord, height: i32, width: i32) -> (r: bool)
    ensures
        r == in_bounds_spec(coords.row as int, coords.col as int, height as int, width as int),
{
    let row = coords.row;
    let col = coords.col;
    row >= 0 && row < height && col >= 0 && col < width
}

/// The at-most-one entry a candidate position contributes to a
/// neighbor list: itself when in bounds, nothing otherwise.
pub open spec fn opt_coord(row: int, col: int, height: int, width: int) -> Seq<Coord> {
    if in_bounds_spec(row, col, height, width) {
        seq![Coord { row: row as i32, col: col as i32 }]
    } else {
        Seq::empty()
    }
}

/// The in-bounds neighbors of (row, col) in a fixed reading order: the
/// up-to-eight coordinates at row/col offsets {-1,0,1} x {-1,0,1},
/// excluding the cell itself, kept only when in bounds.
pub open spec fn neighbor_list(row: int, col: int, height: int, width: int) -> Seq<Coord> {
    opt_coord(row - 1, col - 1, height, width) + opt_coord(row - 1, col, height, width)
        + opt_coord(row - 1, col + 1, height, width) + opt_coord(row, col - 1, height, width)
        + opt_coord(row, col + 1, height, width) + opt_coord(row + 1, col - 1, height, width)
        + opt_coord(row + 1, col, height, width) + opt_coord(row + 1, col + 1, height, width)
}

/// How many of the eight surrounding positions are in bounds.
pub open spec fn neighbor_count(row: int, col: int, height: int, width: int) -> int {
    b2i(in_bounds_spec(row - 1, col - 1, height, width)) + b2i(
        in_bounds_spec(row - 1, col, height, width),
    ) + b2i(in_bounds_spec(row - 1, col + 1, height, width)) + b2i(
        in_bounds_spec(row, col - 1, height, width),
    ) + b2i(in_bounds_spec(row, col + 1, height, width)) + b2i(
        in_bounds_spec(row + 1, col - 1, height, width),
    ) + b2i(in_bounds_spec(row + 1, col, height, width)) + b2i(
        in_bounds_spec(row + 1, col + 1, height, width),
    )
}

/// Append the candidate at (row, col) when it is in bounds.
fn push_candidate(out: &mut Vec<Coord>, row: i64, col: i64, height: i32, width: i32)
    requires
        i32::MIN as int - 1 <= row as int <= i32::MAX as int + 1,
        i32::MIN as int - 1 <= col as int <= i32::MAX as int + 1,
    ensures
        final(out)@ == old(out)@ + opt_coord(row as int, col as int, height as int, width as int),
{
    if 0 <= row && row < height as i64 && 0 <= col && col < width as i64 {
        out.push(Coord { row: row as i32, col: col as i32 });
        proof {
            assert(out@ =~= old(out)@ + opt_coord(
                row as int,
                col as int,
                height as int,
                width as int,
            ));
        }
    } else {
        proof {
            assert(out@ =~= old(out)@ + opt_coord(
                row as int,
                col as int,
                height as int,
                width as int,
            ));
        }
    }
}

/// All in-bounds neighbors of a coordinate, in the fixed reading
/// order of `neighbor_list`. Corner cells get three, edge cells five,
/// interior cells eight; the order never affects a neighbor count.
pub fn neighbors(coords: &Coord, height: i32, width: i32) -> (r: Vec<Coord>)
    ensures
        r@ == neighbor_list(coords.row as int, coords.col as int, height as int, width as int),
        r@.len() == neighbor_count(coords.row as int, coords.col as int, height as int,
            width as int,
        ),
        forall|k: int|
            0 <= k < r@.len() ==> in_bounds_spec(
                #[trigger] r@[k].row as int,
                r@[k].col as int,
                height as int,
                width as int,
            ),
{
    let row = coords.row as i64;
    let col = coords.col as i64;
    let mut out: Vec<Coord> = Vec::new();
    push_candidate(&mut out, row - 1, col - 1, height, width);
    push_candidate(&mut out, row - 1, col, height, width);
    push_candidate(&mut out, row - 1, col + 1, height, width);
    push_candidate(&mut out, row, col - 1, height, width);
    push_candidate(&mut out, row, col + 1, height, width);
    push_candidate(&mut out, row + 1, col - 1, height, width);
    push_candidate(&mut out, row + 1, col, height, width);
    push_candidate(&mut out, row + 1, col + 1, height, width);
    proof {
        assert(out@ =~= neighbor_list(
            coords.row as int,
            coords.col as int,
            height as int,
            width as int,
        ));
    }
    out
}

/// Whether `d` is a neighbor of (row, col): in bounds, at most one
/// step away in each direction, and not the cell itself.
pub open spec fn is_neighbor(row: int, col: int, height: int, width: int, d: Coord) -> bool {
    in_bounds_spec(d.row as int, d.col as int, height, width) && row - 1 <= d.row as int <= row + 1
        && col - 1 <= d.col as int <= col + 1 && !(d.row as int == row && d.col as int == col)
}

/// Membership in a concatenation.
proof fn lemma_contains_concat(a: Seq<Coord>, b: Seq<Coord>, x: Coord)
    ensures
        (a + b).contains(x) <==> a.contains(x) || b.contains(x),
{
    if a.contains(x) {
        let i = choose|i: int| 0 <= i < a.len() && a[i] == x;
        assert((a + b)[i] == x);
    }
    if b.contains(x) {
        let i = choose|i: int| 0 <= i < b.len() && b[i] == x;
        assert((a + b)[a.len() + i] == x);
    }
    if (a + b).contains(x) {
        let i = choose|i: int| 0 <= i < (a + b).len() && (a + b)[i] == x;
        if i < a.len() {
            assert(a[i] == x);
        } else {
            assert(b[i - a.len()] == x);
        }
    }
}

/// What one candidate's contribution holds.
proof fn lemma_opt_contains(row: int, col: int, height: int, width: int, d: Coord)
    requires
        height <= i32::MAX as int,
        width <= i32::MAX as int,
    ensures
        opt_coord(row, col, height, width).contains(d) <==> (in_bounds_spec(
            row,
            col,
            height,
            width,
        ) && d.row as int == row && d.col as int == col),
{
    if in_bounds_spec(row, col, height, width) {
        let e = (Coord { row: row as i32, col: col as i32 });
        assert(opt_coord(row, col, height, width) =~= seq![e]);
        if d == e {
            assert(seq![e][0] == d);
        }
        if seq![e].contains(d) {
            let i = choose|i: int| 0 <= i < seq![e].len() && seq![e][i] == d;
            assert(d == e);
        }
    } else {
        if opt_coord(row, col, height, width).contains(d) {
            let i = choose|i: int|
                0 <= i < opt_coord(row, col, height, width).len() && opt_coord(
                    row,
                    col,
                    height,
                    width,
                )[i] == d;
            assert(false);
        }
    }
}

/// The neighbor list, read as a set: it holds exactly the in-bounds
/// coordinates adjacent to (row, col), so its order carries no
/// meaning.
pub proof fn lemma_neighbor_list_members(row: int, col: int, height: int, width: int, d: Coord)
    requires
        height <= i32::MAX as int,
        width <= i32::MAX as int,
    ensures
        neighbor_list(row, col, height, width).contains(d) <==> is_neighbor(
            row,
            col,
            height,
            width,
            d,
        ),
{
    let o1 = opt_coord(row - 1, col - 1, height, width);
    let o2 = opt_coord(row - 1, col, height, width);
    let o3 = opt_coord(row - 1, col + 1, height, width);
    let o4 = opt_coord(row, col - 1, height, width);
    let o5 = opt_coord(row, col + 1, height, width);
    let o6 = opt_coord(row + 1, col - 1, height, width);
    let o7 = opt_coord(row + 1, col, height, width);
    let o8 = opt_coord(row + 1, col + 1, height, width);
    lemma_contains_concat(o1 + o2 + o3 + o4 + o5 + o6 + o7, o8, d);
    lemma_contains_concat(o1 + o2 + o3 + o4 + o5 + o6, o7, d);
    lemma_contains_concat(o1 + o2 + o3 + o4 + o5, o6, d);
    lemma_contains_concat(o1 + o2 + o3 + o4, o5, d);
    lemma_contains_concat(o1 + o2 + o3, o4, d);
    lemma_contains_concat(o1 + o2, o3, d);
    lemma_contains_concat(o1, o2, d);
    lemma_opt_contains(row - 1, col - 1, height, width, d);
    lemma_opt_contains(row - 1, col, height, width, d);
    lemma_opt_contains(row - 1, col + 1, height, width, d);
    lemma_opt_contains(row, col - 1, height, width, d);
    lemma_opt_contains(row, col + 1, height, width, d);
    lemma_opt_contains(row + 1, col - 1, height, width, d);
    lemma_opt_contains(row + 1, col, height, width, d);
    lemma_opt_contains(row + 1, col + 1, height, width, d);
}

/// Neighbor count at a corner: a corner coordinate of a grid at least
/// 2 x 2 has exactly three neighbors.
pub proof fn lemma_corner_neighbor_count(row: int, col: int, height: int, width: int)
    requires
        height >= 2,
        width >= 2,
        row == 0 || row == height - 1,
        col == 0 || col == width - 1,
    ensures
        neighbor_count(row, col, height, width) == 3,
{
}

/// Neighbor count on an edge: an edge, non-corner coordinate has
/// exactly five neighbors.
pub proof fn lemma_edge_neighbor_count(row: int, col: int, height: int, width: int)
    requires
        ((row == 0 || row == height - 1) && 1 <= col <= width - 2 && height >= 2) || ((col == 0
            || col == width - 1) && 1 <= row <= height - 2 && width >= 2),
    ensures
        neighbor_count(row, col, height, width) == 5,
{
}

/// Neighbor count in the interior: an interior coordinate has exactly
/// eight neighbors.
pub proof fn lemma_interior_neighbor_count(row: int, col: int, height: int, width: int)
    requires
        1 <= row <= height - 2,
        1 <= col <= width - 2,
    ensures
        neighbor_count(row, col, height, width) == 8,
{
}

} // verus!
