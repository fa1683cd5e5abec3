use game_of_life::cell::Cell;
use game_of_life::coord::Coord;
use game_of_life::grid::inbounds;
use game_of_life::grid::neighbors;
use game_of_life::world::World;

fn world_from(height: i32, width: i32, live: &[(i32, i32)]) -> World {
    let mut states = vec![false; (height * width) as usize];
    for &(r, c) in live {
        states[(r * width + c) as usize] = true;
    }
    World::from_states(height, width, &states)
}

fn alive(w: &World, r: i32, c: i32) -> bool {
    w.cell(r, c).alive
}

#[test]
fn cell_starts_dead() {
    let c = Cell::new();
    assert!(!c.alive);
}

#[test]
fn cell_operations() {
    let mut c = Cell::new();
    c.spawn();
    assert!(c.alive);
    c.kill();
    assert!(!c.alive);
    c.set_state(true);
    assert!(c.alive);
    c.set_state(false);
    assert!(!c.alive);
}

#[test]
fn cell_copy_is_independent() {
    let mut original = Cell::new();
    original.spawn();
    let mut copy = original.copy();
    copy.kill();
    assert!(original.alive);
    assert!(!copy.alive);
}

#[test]
fn inbounds_checks() {
    assert!(inbounds(Coord::new(0, 0), 10, 20));
    assert!(inbounds(Coord::new(9, 19), 10, 20));
    assert!(!inbounds(Coord::new(10, 0), 10, 20));
    assert!(!inbounds(Coord::new(0, 20), 10, 20));
    assert!(!inbounds(Coord::new(-1, 5), 10, 20));
    assert!(!inbounds(Coord::new(5, -1), 10, 20));
}

#[test]
fn neighbor_count_corner() {
    let n = neighbors(&Coord::new(0, 0), 10, 20);
    assert_eq!(n.len(), 3);
    let n = neighbors(&Coord::new(0, 19), 10, 20);
    assert_eq!(n.len(), 3);
    let n = neighbors(&Coord::new(9, 0), 10, 20);
    assert_eq!(n.len(), 3);
    let n = neighbors(&Coord::new(9, 19), 10, 20);
    assert_eq!(n.len(), 3);
}

#[test]
fn neighbor_count_edge() {
    let n = neighbors(&Coord::new(0, 5), 10, 20);
    assert_eq!(n.len(), 5);
    let n = neighbors(&Coord::new(4, 0), 10, 20);
    assert_eq!(n.len(), 5);
}

#[test]
fn neighbor_count_interior() {
    let n = neighbors(&Coord::new(5, 5), 10, 20);
    assert_eq!(n.len(), 8);
}

#[test]
fn neighbor_lone_cell() {
    let n = neighbors(&Coord::new(0, 0), 1, 1);
    assert_eq!(n.len(), 0);
}

#[test]
fn neighbors_are_in_bounds() {
    let n = neighbors(&Coord::new(0, 0), 10, 20);
    for c in &n {
        assert!(inbounds(*c, 10, 20));
    }
}

#[test]
fn grid_completeness_after_new() {
    let w = World::new(10, 20, 400);
    assert_eq!(w.height, 10);
    assert_eq!(w.width, 20);
    assert_eq!(w.cells.len(), 200);
}

#[test]
fn spawn_threshold_extremes() {
    let none = World::new(4, 5, 0);
    for r in 0..4 {
        for c in 0..5 {
            assert!(!alive(&none, r, c));
        }
    }
    let all = World::new(4, 5, 1000);
    for r in 0..4 {
        for c in 0..5 {
            assert!(alive(&all, r, c));
        }
    }
}

#[test]
fn from_states_pins_cells() {
    let w = world_from(3, 3, &[(0, 1), (2, 2)]);
    assert!(alive(&w, 0, 1));
    assert!(alive(&w, 2, 2));
    assert!(!alive(&w, 0, 0));
    assert!(!alive(&w, 1, 1));
}

#[test]
fn underpopulation_zero_neighbors() {
    let mut w = world_from(3, 3, &[(1, 1)]);
    w.step();
    assert!(!alive(&w, 1, 1));
}

#[test]
fn underpopulation_one_neighbor() {
    let mut w = world_from(3, 4, &[(1, 1), (1, 2)]);
    w.step();
    assert!(!alive(&w, 1, 1));
    assert!(!alive(&w, 1, 2));
}

#[test]
fn survival_two_and_three_neighbors() {
    // a horizontal blinker: the center has two live neighbors and survives
    let mut w = world_from(5, 5, &[(2, 1), (2, 2), (2, 3)]);
    w.step();
    assert!(alive(&w, 2, 2));
    // in a block every live cell has three live neighbors and survives
    let mut b = world_from(4, 4, &[(1, 1), (1, 2), (2, 1), (2, 2)]);
    b.step();
    assert!(alive(&b, 1, 1));
    assert!(alive(&b, 1, 2));
    assert!(alive(&b, 2, 1));
    assert!(alive(&b, 2, 2));
}

#[test]
fn overpopulation_four_neighbors() {
    // a plus shape: the center has four live neighbors and dies
    let mut w = world_from(5, 5, &[(2, 2), (1, 2), (3, 2), (2, 1), (2, 3)]);
    assert!(alive(&w, 2, 2));
    w.step();
    assert!(!alive(&w, 2, 2));
}

#[test]
fn reproduction_exactly_three() {
    // the cell at (2, 2) is dead with exactly three live neighbors
    let mut w = world_from(5, 5, &[(1, 1), (1, 2), (2, 1)]);
    assert!(!alive(&w, 2, 2));
    w.step();
    assert!(alive(&w, 2, 2));
}

#[test]
fn no_reproduction_on_two_neighbors() {
    let mut w = world_from(5, 5, &[(1, 1), (1, 3)]);
    assert!(!alive(&w, 1, 2));
    w.step();
    assert!(!alive(&w, 1, 2));
}

#[test]
fn blinker_oscillates() {
    let mut w = world_from(5, 5, &[(1, 2), (2, 2), (3, 2)]);
    w.step();
    assert!(alive(&w, 2, 1));
    assert!(alive(&w, 2, 2));
    assert!(alive(&w, 2, 3));
    assert!(!alive(&w, 1, 2));
    assert!(!alive(&w, 3, 2));
    w.step();
    assert!(alive(&w, 1, 2));
    assert!(alive(&w, 2, 2));
    assert!(alive(&w, 3, 2));
    assert!(!alive(&w, 2, 1));
    assert!(!alive(&w, 2, 3));
}

#[test]
fn generation_isolation_full_grid() {
    // on a fully live 3x3 grid one step kills the center (eight live
    // neighbors) and every edge cell (five), while corners (three)
    // survive — possible only if all updates read the old generation
    let mut w = world_from(
        3,
        3,
        &[
            (0, 0),
            (0, 1),
            (0, 2),
            (1, 0),
            (1, 1),
            (1, 2),
            (2, 0),
            (2, 1),
            (2, 2),
        ],
    );
    w.step();
    assert!(alive(&w, 0, 0));
    assert!(alive(&w, 0, 2));
    assert!(alive(&w, 2, 0));
    assert!(alive(&w, 2, 2));
    assert!(!alive(&w, 0, 1));
    assert!(!alive(&w, 1, 0));
    assert!(!alive(&w, 1, 1));
    assert!(!alive(&w, 1, 2));
    assert!(!alive(&w, 2, 1));
}

#[test]
fn block_still_life_is_stable() {
    let mut w = world_from(5, 6, &[(1, 2), (1, 3), (2, 2), (2, 3)]);
    let frame = w.draw();
    for _ in 0..5 {
        w.step();
        assert_eq!(w.draw(), frame);
    }
}

#[test]
fn render_format_single_live_cell() {
    let w = world_from(2, 2, &[(0, 0)]);
    assert_eq!(w.draw(), " 0  . \n .  . \n");
}

#[test]
fn render_format_rows_and_columns() {
    let w = world_from(2, 3, &[(0, 1), (1, 2)]);
    assert_eq!(w.draw(), " .  0  . \n .  .  0 \n");
}

#[test]
fn render_does_not_mutate() {
    let w = world_from(3, 3, &[(1, 1)]);
    let first = w.draw();
    let second = w.draw();
    assert_eq!(first, second);
    assert!(alive(&w, 1, 1));
}

#[test]
fn determinism_post_initialization() {
    let live = [(0, 1), (1, 1), (2, 1), (3, 3), (3, 4), (4, 3)];
    let mut a = world_from(6, 6, &live);
    let mut b = world_from(6, 6, &live);
    for _ in 0..10 {
        assert_eq!(a.draw(), b.draw());
        a.step();
        b.step();
    }
    assert_eq!(a.draw(), b.draw());
}
