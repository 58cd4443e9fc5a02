use life_engine::board::Board;
use life_engine::cells::{Cell, CellDesc};
use life_engine::hashed::new as new_hashed;
use life_engine::torus::cycle;

#[test]
fn board_test_board_ok() {
    let mut my_board = Board::new(new_hashed(), Some(10), Some(10));

    // set some existing cells
    my_board.born_at(0, 0);
    my_board.born_at(4, 4);

    // extend board by one cell
    my_board.born_at(5, 2);

    // test allocated cells
    assert_eq!(my_board.get_cell(0, 0), Cell::Occupied { gen: 1 });
    assert_eq!(my_board.get_cell(4, 4), Cell::Occupied { gen: 1 });

    // test previously expanded cell
    assert_eq!(my_board.get_cell(5, 2), Cell::Occupied { gen: 1 });

    // test existing cell
    assert_eq!(my_board.get_cell(2, 2), Cell::Empty);

    // check extended cell
    assert_eq!(my_board.get_cell(5, 3), Cell::Empty);

    my_board.kill_at(0, 0);
    assert_eq!(my_board.get_cell(0, 0), Cell::Empty);
}

#[test]
fn board_test_board_iter() {
    let mut my_board = Board::new(new_hashed(), Some(10), Some(10));

    my_board.born_at(0, 0);
    my_board.born_at(1, 1);
    my_board.born_at(2, 2);
    my_board.born_at(3, 3);
    my_board.born_at(4, 4);

    let mut ctr = 0;

    for CellDesc { is_alive, .. } in my_board.iter() {
        if is_alive {
            ctr += 1;
        }
    }

    assert!(ctr == 5);
}

#[test]
fn board_test_glyder() {
    let mut my_board = Board::new(new_hashed(), Some(10), Some(10));

    my_board.born_at(0, 0);
    my_board.born_at(1, 1);
    my_board.born_at(1, 2);
    my_board.born_at(0, 2);
    my_board.born_at(-1, 2);

    assert_eq!(my_board.is_alive(0, 0), true);
    assert_eq!(my_board.is_alive(1, 1), true);
    assert_eq!(my_board.is_alive(1, 2), true);
    assert_eq!(my_board.is_alive(0, 2), true);
    assert_eq!(my_board.is_alive(-1, 2), true);
}

#[test]
fn board_test_cycle() {
    assert_eq!(cycle(0, -5, 5), 0);
    assert_eq!(cycle(-5, -5, 5), -5);
    assert_eq!(cycle(5, -5, 5), -5);
    assert_eq!(cycle(6, -5, 5), -4);
    assert_eq!(cycle(-6, -5, 5), 4);
    assert_eq!(cycle(-7, -5, 5), 3);

    assert_eq!(cycle(0, 0, 5), 0);
    assert_eq!(cycle(-1, 0, 5), 4);
    assert_eq!(cycle(-2, 0, 5), 3);
    assert_eq!(cycle(2, 0, 5), 2);
    assert_eq!(cycle(5, 0, 5), 0);
    assert_eq!(cycle(6, 0, 5), 1);

    assert_eq!(cycle(5, 5, 6), 5);
    assert_eq!(cycle(6, 5, 6), 5);
    assert_eq!(cycle(4, 5, 6), 5);

    assert_eq!(cycle(-5, -5, -4), -5);
    assert_eq!(cycle(-4, -5, -4), -5);
    assert_eq!(cycle(-6, -5, -4), -5);
}

#[test]
fn board_test_restricted_board() {
    let mut my_board = Board::new(new_hashed(), Some(10), Some(10));

    my_board.born_at(5, 2);
    assert_eq!(my_board.is_alive(-5, 2), true);

    my_board.born_at(0, -7);
    assert_eq!(my_board.is_alive(0, 3), true);
}

#[test]
fn mod_test_board_ok() {
    let mut my_board = Board::new(new_hashed(), Some(10), Some(10));

    // set some existing cells
    my_board.born_at(0, 0);
    my_board.born_at(4, 4);

    // extend board by one cell
    my_board.born_at(5, 2);

    // test allocated cells
    assert_eq!(my_board.get_cell(0, 0), Cell::Occupied { gen: 1 });
    assert_eq!(my_board.get_cell(4, 4), Cell::Occupied { gen: 1 });

    // test previously expanded cell
    assert_eq!(my_board.get_cell(5, 2), Cell::Occupied { gen: 1 });

    // test existing cell
    assert_eq!(my_board.get_cell(2, 2), Cell::Empty);

    // check extended cell
    assert_eq!(my_board.get_cell(5, 3), Cell::Empty);

    my_board.kill_at(0, 0);
    assert_eq!(my_board.get_cell(0, 0), Cell::Empty);
}

#[test]
fn mod_test_board_iter() {
    let mut my_board = Board::new(new_hashed(), Some(10), Some(10));

    my_board.born_at(0, 0);
    my_board.born_at(1, 1);
    my_board.born_at(2, 2);
    my_board.born_at(3, 3);
    my_board.born_at(4, 4);

    let mut ctr = 0;

    for CellDesc { is_alive, .. } in my_board.iter() {
        if is_alive {
            ctr += 1;
        }
    }

    assert!(ctr == 5);
}

#[test]
fn mod_test_glyder() {
    let mut my_board = Board::new(new_hashed(), Some(10), Some(10));

    my_board.born_at(0, 0);
    my_board.born_at(1, 1);
    my_board.born_at(1, 2);
    my_board.born_at(0, 2);
    my_board.born_at(-1, 2);

    assert_eq!(my_board.is_alive(0, 0), true);
    assert_eq!(my_board.is_alive(1, 1), true);
    assert_eq!(my_board.is_alive(1, 2), true);
    assert_eq!(my_board.is_alive(0, 2), true);
    assert_eq!(my_board.is_alive(-1, 2), true);
}

#[test]
fn mod_test_cycle() {
    assert_eq!(cycle(0, -5, 5), 0);
    assert_eq!(cycle(-5, -5, 5), -5);
    assert_eq!(cycle(5, -5, 5), -5);
    assert_eq!(cycle(6, -5, 5), -4);
    assert_eq!(cycle(-6, -5, 5), 4);
    assert_eq!(cycle(-7, -5, 5), 3);

    assert_eq!(cycle(0, 0, 5), 0);
    assert_eq!(cycle(-1, 0, 5), 4);
    assert_eq!(cycle(-2, 0, 5), 3);
    assert_eq!(cycle(2, 0, 5), 2);
    assert_eq!(cycle(5, 0, 5), 0);
    assert_eq!(cycle(6, 0, 5), 1);

    assert_eq!(cycle(5, 5, 6), 5);
    assert_eq!(cycle(6, 5, 6), 5);
    assert_eq!(cycle(4, 5, 6), 5);

    assert_eq!(cycle(-5, -5, -4), -5);
    assert_eq!(cycle(-4, -5, -4), -5);
    assert_eq!(cycle(-6, -5, -4), -5);
}

#[test]
fn mod_test_restricted_board() {
    let mut my_board = Board::new(new_hashed(), Some(10), Some(10));

    my_board.born_at(5, 2);
    assert_eq!(my_board.is_alive(-5, 2), true);

    my_board.born_at(0, -7);
    assert_eq!(my_board.is_alive(0, 3), true);
}
