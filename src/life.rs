//! The rule of the game, stated over the cells that are alive.
use vstd::prelude::*;
use crate::cells::Cell;
use crate::torus::{wrap_axis, on_axis, valid_extent, lemma_wrap_axis_shift, lemma_wrap_axis_props};

verus! {

/// The `i`-th neighbour offset, in the order W, NW, N, NE, E, SE, S, SW
/// (rows grow downwards, so N is row - 1).
pub open spec fn offset(i: int) -> (int, int) {
    if i == 0 {
        (-1, 0)
    } else if i == 1 {
        (-1, -1)
    } else if i == 2 {
        (0, -1)
    } else if i == 3 {
        (1, -1)
    } else if i == 4 {
        (1, 0)
    } else if i == 5 {
        (1, 1)
    } else if i == 6 {
        (0, 1)
    } else {
        (-1, 1)
    }
}

pub open spec fn shift(k: (int, int), d: (int, int)) -> (int, int) {
    (k.0 + d.0, k.1 + d.1)
}

/// A position mapped onto the board: each bounded axis wraps.
pub open spec fn wrap_key(k: (int, int), cols: Option<usize>, rows: Option<usize>) -> (int, int) {
    (wrap_axis(k.0, cols), wrap_axis(k.1, rows))
}

/// A position that wrapping leaves as it is.
pub open spec fn on_board(k: (int, int), cols: Option<usize>, rows: Option<usize>) -> bool {
    on_axis(k.0, cols) && on_axis(k.1, rows)
}

pub open spec fn is_occupied(c: Cell) -> bool {
    c is Occupied
}

/// The generation of a live cell; 0 for an empty slot.
pub open spec fn gen_of(c: Cell) -> usize {
    match c {
        Cell::Occupied { gen } => gen,
        Cell::Empty => 0,
    }
}

/// The live cells among the slots, each with its generation.
pub open spec fn alive_of(slots: Map<(int, int), Cell>) -> Map<(int, int), usize> {
    Map::new(
        |k: (int, int)| slots.contains_key(k) && is_occupied(slots[k]),
        |k: (int, int)| gen_of(slots[k]),
    )
}

/// How many of the first `n` neighbour positions of `k` hold a live cell.
pub open spec fn live_neighbours_upto(
    alive: Map<(int, int), usize>,
    k: (int, int),
    cols: Option<usize>,
    rows: Option<usize>,
    n: int,
) -> int
    decreases n,
{
    if n <= 0 {
        0
    } else {
        live_neighbours_upto(alive, k, cols, rows, n - 1) + if alive.contains_key(
            wrap_key(shift(k, offset(n - 1)), cols, rows),
        ) {
            1int
        } else {
            0int
        }
    }
}

/// How many of the eight neighbour positions of `k` hold a live cell.
pub open spec fn live_neighbours(
    alive: Map<(int, int), usize>,
    k: (int, int),
    cols: Option<usize>,
    rows: Option<usize>,
) -> int {
    live_neighbours_upto(alive, k, cols, rows, 8)
}

/// B3/S23: a live cell with two or three live neighbours survives; an
/// empty position with exactly three is born.
pub open spec fn lives_next(
    alive: Map<(int, int), usize>,
    k: (int, int),
    cols: Option<usize>,
    rows: Option<usize>,
) -> bool {
    let n = live_neighbours(alive, k, cols, rows);
    if alive.contains_key(k) {
        n == 2 || n == 3
    } else {
        n == 3
    }
}

/// A survivor's generation goes up by one; a newborn starts at 1.
pub open spec fn next_gen_of(alive: Map<(int, int), usize>, k: (int, int)) -> usize {
    if alive.contains_key(k) {
        (alive[k] + 1) as usize
    } else {
        1
    }
}

/// The next generation computed over the allocated slots only.
pub open spec fn step_slots(
    slots: Map<(int, int), Cell>,
    cols: Option<usize>,
    rows: Option<usize>,
) -> Map<(int, int), usize> {
    Map::new(
        |k: (int, int)| slots.contains_key(k) && lives_next(alive_of(slots), k, cols, rows),
        |k: (int, int)| next_gen_of(alive_of(slots), k),
    )
}

/// The next generation of the game over every position of the board.
pub open spec fn life_step(
    alive: Map<(int, int), usize>,
    cols: Option<usize>,
    rows: Option<usize>,
) -> Map<(int, int), usize> {
    Map::new(
        |k: (int, int)| on_board(k, cols, rows) && lives_next(alive, k, cols, rows),
        |k: (int, int)| next_gen_of(alive, k),
    )
}

/// The live cells after `k` steps of the game.
pub open spec fn life_steps(
    alive: Map<(int, int), usize>,
    cols: Option<usize>,
    rows: Option<usize>,
    k: nat,
) -> Map<(int, int), usize>
    decreases k,
{
    if k == 0 {
        alive
    } else {
        life_step(life_steps(alive, cols, rows, (k - 1) as nat), cols, rows)
    }
}

/// Every neighbour position of every live cell has a slot, so a cell that
/// may be born next is among the slots that a step visits.
pub open spec fn neighbourhoods_allocated(
    slots: Map<(int, int), Cell>,
    cols: Option<usize>,
    rows: Option<usize>,
) -> bool {
    forall|k: (int, int), i: int|
        alive_of(slots).contains_key(k) && 0 <= i < 8 ==> #[trigger] slots.contains_key(
            wrap_key(shift(k, offset(i)), cols, rows),
        )
}

pub open spec fn slots_on_board(
    slots: Map<(int, int), Cell>,
    cols: Option<usize>,
    rows: Option<usize>,
) -> bool {
    forall|k: (int, int)| #[trigger] slots.contains_key(k) ==> on_board(k, cols, rows)
}

proof fn lemma_some_neighbour_alive(
    alive: Map<(int, int), usize>,
    k: (int, int),
    cols: Option<usize>,
    rows: Option<usize>,
    n: int,
)
    requires
        0 <= n <= 8,
        live_neighbours_upto(alive, k, cols, rows, n) > 0,
    ensures
        exists|i: int| 0 <= i < n && alive.contains_key(#[trigger] wrap_key(shift(k, offset(i)), cols, rows)),
    decreases n,
{
    if n > 0 {
        if alive.contains_key(wrap_key(shift(k, offset(n - 1)), cols, rows)) {
        } else {
            lemma_some_neighbour_alive(alive, k, cols, rows, n - 1);
        }
    }
}

/// Where every neighbourhood of a live cell is allocated, a step over the
/// slots is the step of the game itself.
pub proof fn lemma_step_slots_is_life(
    slots: Map<(int, int), Cell>,
    cols: Option<usize>,
    rows: Option<usize>,
)
    requires
        valid_extent(cols),
        valid_extent(rows),
        slots_on_board(slots, cols, rows),
        neighbourhoods_allocated(slots, cols, rows),
    ensures
        step_slots(slots, cols, rows) == life_step(alive_of(slots), cols, rows),
{
    let alive = alive_of(slots);
    assert forall|k: (int, int)| on_board(k, cols, rows) && lives_next(alive, k, cols, rows)
        implies #[trigger] slots.contains_key(k) by {
        if !alive.contains_key(k) {
            lemma_some_neighbour_alive(alive, k, cols, rows, 8);
            let i = choose|i: int| 0 <= i < 8 && alive.contains_key(#[trigger] wrap_key(shift(k, offset(i)), cols, rows));
            let a = wrap_key(shift(k, offset(i)), cols, rows);
            let j = (i + 4) % 8;
            assert(offset(i).0 + offset(j).0 == 0 && offset(i).1 + offset(j).1 == 0);
            assert(slots.contains_key(wrap_key(shift(a, offset(j)), cols, rows)));
            lemma_wrap_axis_shift(k.0 + offset(i).0, offset(j).0, cols);
            lemma_wrap_axis_shift(k.1 + offset(i).1, offset(j).1, rows);
            lemma_wrap_axis_props(k.0, cols);
            lemma_wrap_axis_props(k.1, rows);
            assert(shift(shift(k, offset(i)), offset(j)) == k);
        }
    }
    assert(step_slots(slots, cols, rows) =~= life_step(alive, cols, rows));
}

} // verus!
