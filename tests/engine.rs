use life_engine::board::{Board, BoardType};
use life_engine::cells::{Cell, CellDesc, Coord};
use life_engine::engine::{hashed_area, should_switch, Engine, SWITCH_BOARD_INERTIA};
use life_engine::hashed::new as new_hashed;
use life_engine::torus::{cycle, wrap_on};
use life_engine::vect::new as new_vect;

fn alive_set(b: &Board) -> Vec<(isize, isize, usize)> {
    let mut v: Vec<(isize, isize, usize)> = b
        .iter()
        .into_iter()
        .filter(|d| d.is_alive)
        .map(|d| (d.coord.col, d.coord.row, d.gen))
        .collect();
    v.sort();
    v
}

fn alive_coords(b: &Board) -> Vec<(isize, isize)> {
    alive_set(b).into_iter().map(|(c, r, _)| (c, r)).collect()
}

fn seed(b: &mut Board, cells: &[(isize, isize)]) {
    for &(c, r) in cells {
        b.born_at(c, r);
    }
}

const BLOCK: [(isize, isize); 4] = [(0, 0), (1, 0), (0, 1), (1, 1)];
const GLIDER: [(isize, isize); 5] = [(1, 0), (2, 1), (0, 2), (1, 2), (2, 2)];

#[test]
fn wrap_boundaries_and_period() {
    assert_eq!(cycle(5, -5, 5), -5);
    assert_eq!(cycle(-6, -5, 5), 4);
    assert_eq!(cycle(6, -5, 5), -4);
    assert_eq!(cycle(0, -5, 5), 0);
    for x in [-23isize, -16, -6, -5, 0, 4, 5, 17, 31] {
        for k in -3isize..=3 {
            assert_eq!(cycle(x + k * 10, -5, 5), cycle(x, -5, 5));
        }
        let w = cycle(x, -5, 5);
        assert!(-5 <= w && w < 5);
    }
    // far below the range
    assert_eq!(cycle(-16, -5, 5), 4);
    // an axis of 10 cells spans [-5, 5); one of 7 spans [-3, 4)
    assert_eq!(wrap_on(5, Some(10)), -5);
    assert_eq!(wrap_on(4, Some(7)), -3);
    assert_eq!(wrap_on(-4, Some(7)), 3);
    assert_eq!(wrap_on(123, None), 123);
}

#[test]
fn born_twice_changes_nothing() {
    let mut b = Board::new(new_hashed(), None, None);
    b.born_at(3, 4);
    let pop = b.get_population();
    let gen = b.get_cell_gen(3, 4);
    b.born_at(3, 4);
    assert_eq!(b.get_population(), pop);
    assert_eq!(b.get_cell_gen(3, 4), gen);
    assert_eq!(pop, 1);

    b.born_at_gen(7, 7, 5);
    b.born_at(7, 7);
    assert_eq!(b.get_cell(7, 7), Cell::Occupied { gen: 5 });
    assert_eq!(b.get_population(), 2);
}

#[test]
fn kill_of_dead_cell_keeps_population() {
    let mut b = Board::new(new_hashed(), Some(10), Some(10));
    b.born_at(1, 1);
    b.kill_at(2, 2);
    assert_eq!(b.get_population(), 1);
    b.kill_at(1, 1);
    assert_eq!(b.get_population(), 0);
    assert!(!b.is_alive(1, 1));
}

#[test]
fn kill_on_dense_board_empties_the_slot() {
    let mut b = Board::new(new_vect(), None, None);
    b.born_at(0, 0);
    b.kill_at(0, 0);
    assert_eq!(b.get_cell(0, 0), Cell::Empty);
    assert_eq!(b.get_population(), 0);
}

#[test]
fn vicinity_order() {
    let mut b = Board::new(new_hashed(), None, None);
    // W and SE neighbours of (0, 0)
    b.born_at(-1, 0);
    b.born_at(1, 1);
    assert_eq!(b.get_vicinity(0, 0), vec![true, false, false, false, false, true, false, false]);
}

#[test]
fn block_is_still_life() {
    for kind in [BoardType::Hashed, BoardType::SymVec] {
        let mut b = Board::empty(kind, None, None);
        seed(&mut b, &BLOCK);
        let next = b.next_generation();
        assert_eq!(alive_coords(&next), alive_coords(&b));
        assert_eq!(next.get_population(), 4);
        // survivors age by one generation
        assert_eq!(next.get_cell_gen(0, 0), 2);
    }
}

#[test]
fn glider_moves_by_one_diagonal_in_four_steps() {
    for kind in [BoardType::Hashed, BoardType::SymVec] {
        let mut b = Board::empty(kind, None, None);
        seed(&mut b, &GLIDER);
        for _ in 0..4 {
            b = b.next_generation();
        }
        let mut expected: Vec<(isize, isize)> = GLIDER.iter().map(|&(c, r)| (c + 1, r + 1)).collect();
        expected.sort();
        assert_eq!(alive_coords(&b), expected);
    }
}

#[test]
fn glider_wraps_on_a_torus() {
    let mut b = Board::empty(BoardType::Hashed, Some(8), Some(8));
    seed(&mut b, &GLIDER);
    // 32 steps move the glider 8 cells down and right: once around the torus
    for _ in 0..32 {
        b = b.next_generation();
    }
    let mut expected: Vec<(isize, isize)> = GLIDER.to_vec();
    expected.sort();
    assert_eq!(alive_coords(&b), expected);
}

#[test]
fn blinker_oscillates() {
    let mut b = Board::empty(BoardType::Hashed, None, None);
    seed(&mut b, &[(0, 0), (1, 0), (2, 0)]);
    let b1 = b.next_generation();
    assert_eq!(alive_coords(&b1), vec![(1, -1), (1, 0), (1, 1)]);
    let b2 = b1.next_generation();
    assert_eq!(alive_coords(&b2), vec![(0, 0), (1, 0), (2, 0)]);
}

#[test]
fn hashed_and_dense_boards_agree() {
    // R-pentomino
    let cells = [(1, 0), (2, 0), (0, 1), (1, 1), (1, 2)];
    for extents in [(None, None), (Some(16), Some(12))] {
        let mut h = Board::empty(BoardType::Hashed, extents.0, extents.1);
        let mut d = Board::empty(BoardType::SymVec, extents.0, extents.1);
        seed(&mut h, &cells);
        seed(&mut d, &cells);
        for _ in 0..40 {
            h = h.next_generation();
            d = d.next_generation();
            assert_eq!(alive_set(&h), alive_set(&d));
        }
    }
}

#[test]
fn switching_store_keeps_cells_and_generations() {
    let cells: Vec<Coord> = GLIDER.iter().map(|&(c, r)| Coord { col: c, row: r }).collect();
    let mut e = Engine::new(Some(cells), None, None);
    e.iterations(5);
    let before = alive_set(e.get_board());
    assert_eq!(before.len(), 5);
    let kind = e.get_board_type();
    e.switch_board();
    assert_ne!(e.get_board_type(), kind);
    assert_eq!(alive_set(e.get_board()), before);
    e.switch_board();
    assert_eq!(e.get_board_type(), kind);
    assert_eq!(alive_set(e.get_board()), before);
}

fn blocks_everywhere() -> Vec<Coord> {
    let mut v = Vec::new();
    for i in 0..5isize {
        for j in 0..5isize {
            for &(c, r) in BLOCK.iter() {
                v.push(Coord { col: -10 + 4 * i + c, row: -10 + 4 * j + r });
            }
        }
    }
    v
}

#[test]
fn dense_pattern_switches_only_after_inertia() {
    let mut e = Engine::new(Some(blocks_everywhere()), None, None);
    assert_eq!(e.get_board().get_population(), 100);
    e.one_iteration();
    // no switch on the first step
    assert_eq!(e.get_board_type(), BoardType::Hashed);
    e.one_iteration();
    assert_eq!(e.get_board_type(), BoardType::SymVec);
    assert_eq!(e.get_board().get_population(), 100);

    // a sparse board now (one block far from the origin, so that the
    // dense store holds many empty slots): the dense store stays for the
    // inertia period
    let mut sparse = Board::empty(BoardType::SymVec, None, None);
    seed(&mut sparse, &[(100, 100), (101, 100), (100, 101), (101, 101)]);
    e.set_board(sparse);
    let mut steps = 0;
    while e.get_board_type() == BoardType::SymVec && steps < 1000 {
        e.one_iteration();
        steps += 1;
    }
    assert_eq!(e.get_board_type(), BoardType::Hashed);
    assert_eq!(steps, SWITCH_BOARD_INERTIA + 1);
    assert_eq!(e.get_board().get_population(), 4);
}

#[test]
fn engine_steps_and_resets() {
    let cells: Vec<Coord> = BLOCK.iter().map(|&(c, r)| Coord { col: c, row: r }).collect();
    let mut e = Engine::new(Some(cells), Some(10), Some(10));
    let t = e.iterations(3);
    assert_eq!(t, e.get_last_iter_time());
    assert_eq!(e.cur_iteration(), 3);
    assert_eq!(e.get_board().get_population(), 4);
    e.reset();
    assert_eq!(e.cur_iteration(), 0);
    assert_eq!(e.get_board().get_population(), 0);
    e.set_predefined(vec![Coord { col: 0, row: 0 }]);
    assert_eq!(e.get_board().get_population(), 1);
}

#[test]
fn switch_decision() {
    // too soon after the last switch
    assert!(!should_switch(BoardType::Hashed, SWITCH_BOARD_INERTIA, 100, 100));
    // 3 in 100 is dense enough, 2 in 100 is not
    assert!(should_switch(BoardType::Hashed, SWITCH_BOARD_INERTIA + 1, 3, 100));
    assert!(!should_switch(BoardType::Hashed, SWITCH_BOARD_INERTIA + 1, 2, 100));
    assert!(should_switch(BoardType::SymVec, SWITCH_BOARD_INERTIA + 1, 2, 100));
    assert!(!should_switch(BoardType::SymVec, SWITCH_BOARD_INERTIA + 1, 3, 100));
    // an empty area: live cells count as dense, no cells as neither
    assert!(should_switch(BoardType::Hashed, 500, 1, 0));
    assert!(!should_switch(BoardType::Hashed, 500, 0, 0));
    assert!(!should_switch(BoardType::SymVec, 500, 0, 0));
}

#[test]
fn hashed_area_sums_row_extents() {
    let descs = vec![
        CellDesc { coord: Coord { col: -3, row: 0 }, gen: 0, is_alive: false },
        CellDesc { coord: Coord { col: 2, row: 0 }, gen: 1, is_alive: true },
        CellDesc { coord: Coord { col: 5, row: 1 }, gen: 0, is_alive: false },
        CellDesc { coord: Coord { col: 0, row: 0 }, gen: 0, is_alive: false },
    ];
    // row 0: |2| + |-3|; row 1: |5| + |5|
    assert_eq!(hashed_area(&descs), 15);
    assert_eq!(hashed_area(&vec![]), 0);
}

#[test]
fn fill_from_draws_is_exact() {
    let e = Engine::new(None, Some(2), Some(2));
    // position (col, row) uses draw col * 2 + row; column 1 lands on -1
    let b = e.create_from_draws(&vec![0, 999_999, 5, 7], 6);
    assert_eq!(alive_set(&b), vec![(-1, 0, 1), (0, 0, 1)]);
}

#[test]
fn random_fill_extremes() {
    let e = Engine::new(None, Some(4), Some(3));
    let none = e.create_random(0);
    assert_eq!(none.get_population(), 0);
    let all = e.create_random(1_000_000);
    assert_eq!(all.get_population(), 12);
    let unbounded = Engine::new(None, None, Some(3));
    assert_eq!(unbounded.create_random(1_000_000).get_population(), 0);
}

#[test]
fn dense_store_starts_with_empty_square() {
    let b = Board::new(new_vect(), None, None);
    let descs = b.iter();
    assert_eq!(descs.len(), 4);
    assert!(descs.iter().all(|d: &CellDesc| !d.is_alive && d.gen == 0));
}

#[test]
fn fresh_dense_store_on_tiny_extents() {
    for (w, h) in [(Some(1), Some(1)), (Some(2), Some(1)), (Some(1), Some(2)), (Some(2), Some(2))] {
        let mut b = Board::new(new_vect(), w, h);
        assert_eq!(b.get_population(), 0);
        assert_eq!(b.get_cols(), w);
        assert_eq!(b.get_rows(), h);
        for c in -3..3 {
            for r in -3..3 {
                assert!(!b.is_alive(c, r));
            }
        }
        b.born_at(0, 0);
        assert_eq!(b.get_population(), 1);
        assert!(b.is_alive(0, 0));
    }
}

#[test]
fn engine_block_and_glider() {
    let block: Vec<Coord> = BLOCK.iter().map(|&(c, r)| Coord { col: c, row: r }).collect();
    let mut e = Engine::new(Some(block), None, None);
    e.one_iteration();
    let mut expected: Vec<(isize, isize)> = BLOCK.to_vec();
    expected.sort();
    assert_eq!(alive_coords(e.get_board()), expected);
    assert_eq!(e.get_board().get_population(), 4);

    let glider: Vec<Coord> = GLIDER.iter().map(|&(c, r)| Coord { col: c, row: r }).collect();
    let mut e = Engine::new(Some(glider), None, None);
    for _ in 0..4 {
        e.one_iteration();
    }
    let mut expected: Vec<(isize, isize)> = GLIDER.iter().map(|&(c, r)| (c + 1, r + 1)).collect();
    expected.sort();
    assert_eq!(alive_coords(e.get_board()), expected);
    assert_eq!(e.get_board().get_population(), 5);
    assert_eq!(e.cur_iteration(), 4);
}
