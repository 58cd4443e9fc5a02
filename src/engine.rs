//! The engine: steps the board, and moves it between the hashed and the
//! dense store as the population gets denser or sparser.
use vstd::prelude::*;
use std::collections::HashMap;
use crate::board::{Board, BoardType, lists_cells, desc_key, coord_in_reach, seeded, in_margin, margin_ok};
use crate::cells::{CellDesc, Coord};
use crate::torus::valid_extent;
use crate::life::life_steps;

verus! {

broadcast use vstd::std_specs::hash::group_hash_axioms;

/// Steps that must pass after a switch of store before the next one.
pub const SWITCH_BOARD_INERTIA: usize = 128;

/// How often (in steps) the dense store is rebuilt to drop dead slots.
pub const ITERATIONS_TO_CLEANUP: usize = 1000;

/// The density threshold, `DENSITY_NUM / DENSITY_DEN` (3%).
pub const DENSITY_NUM: u128 = 3;

pub const DENSITY_DEN: u128 = 100;

/// Draws per cell of a random fill are taken from `[0, RANDOM_SCALE)`;
/// a probability is given in millionths.
pub const RANDOM_SCALE: u32 = 1_000_000;

/// Relies on rand 0.4's `thread_rng` and `Rng::gen_range`: a value drawn
/// from `[0, n)` (`gen_range` panics only when its bounds are equal or reversed).
#[verifier::external_body]
fn draw_below(n: u32) -> (r: u32)
    requires
        n > 0,
    ensures
        r < n,
{
    rand::Rng::gen_range(&mut rand::thread_rng(), 0u32, n)
}

/// Relies on time 0.1's `precise_time_ns`: a reading of a nanosecond
/// counter; nothing is promised of its value.
#[verifier::external_body]
fn now_ns() -> (r: u64) {
    time::precise_time_ns()
}

/// Population over area reaches the threshold. An empty area counts as
/// infinitely dense when anything is alive, and as neither dense nor
/// sparse when nothing is.
pub open spec fn dense_enough(population: int, area: int) -> bool {
    if area == 0 {
        population > 0
    } else {
        DENSITY_DEN * population >= DENSITY_NUM * area
    }
}

/// Population over area stays below the threshold.
pub open spec fn sparse_enough(population: int, area: int) -> bool {
    area > 0 && DENSITY_DEN * population < DENSITY_NUM * area
}

/// A hashed board goes dense when dense enough, a dense board goes hashed
/// when sparse enough, and neither before more than `SWITCH_BOARD_INERTIA`
/// steps have passed since the last switch.
pub open spec fn switch_due(kind: BoardType, since_switch: int, population: int, area: int) -> bool {
    since_switch > SWITCH_BOARD_INERTIA && (kind == BoardType::Hashed && dense_enough(population, area)
        || kind == BoardType::SymVec && sparse_enough(population, area))
}

/// Whether the engine switches store after a step.
pub fn should_switch(kind: BoardType, iters_from_prev_switch: usize, population: usize, area: u128) -> (r: bool)
    ensures
        r == switch_due(kind, iters_from_prev_switch as int, population as int, area as int),
{
    if iters_from_prev_switch <= SWITCH_BOARD_INERTIA {
        return false;
    }
    let p: u128 = population as u128 * DENSITY_DEN;
    let q: u128 = p / DENSITY_NUM;
    proof {
        let rem = p % DENSITY_NUM;
        vstd::arithmetic::div_mod::lemma_fundamental_div_mod(p as int, DENSITY_NUM as int);
        assert((DENSITY_NUM * area <= p) == (area <= q)) by (nonlinear_arith)
            requires p == 3 * q + rem, 0 <= rem < 3, DENSITY_NUM == 3;
    }
    let dense = if area == 0 {
        population > 0
    } else {
        area <= q
    };
    match kind {
        BoardType::Hashed => dense,
        BoardType::SymVec => area > 0 && !dense,
    }
}

/// Per row seen, in order of first sight: the row, the least and the
/// greatest column among the cells listed in it.
pub open spec fn row_table(s: Seq<CellDesc>) -> Seq<(isize, isize, isize)>
    decreases s.len(),
{
    if s.len() == 0 {
        Seq::empty()
    } else {
        let t = row_table(s.drop_last());
        let d = s.last();
        if exists|j: int| 0 <= j < t.len() && t[j].0 == d.coord.row {
            let j = choose|j: int| 0 <= j < t.len() && t[j].0 == d.coord.row;
            t.update(
                j,
                (
                    d.coord.row,
                    if d.coord.col < t[j].1 { d.coord.col } else { t[j].1 },
                    if d.coord.col > t[j].2 { d.coord.col } else { t[j].2 },
                ),
            )
        } else {
            t.push((d.coord.row, d.coord.col, d.coord.col))
        }
    }
}

pub open spec fn abs_of(x: isize) -> int {
    if x < 0 { -x } else { x as int }
}

/// The sum over rows of `|greatest column| + |least column|`.
pub open spec fn table_area(t: Seq<(isize, isize, isize)>) -> int
    decreases t.len(),
{
    if t.len() == 0 {
        0
    } else {
        table_area(t.drop_last()) + abs_of(t.last().2) + abs_of(t.last().1)
    }
}

/// The area a step is measured against: for a hashed board, the row
/// extents of the listed slots; for a dense board, the number of slots.
pub open spec fn scanned_area(kind: BoardType, descs: Seq<CellDesc>) -> int {
    match kind {
        BoardType::Hashed => table_area(row_table(descs)),
        BoardType::SymVec => descs.len() as int,
    }
}

fn abs_wide(x: isize) -> (r: u128)
    ensures
        r == abs_of(x),
        r <= 0x8000_0000_0000_0000,
{
    if x < 0 {
        (-(x as i128)) as u128
    } else {
        x as u128
    }
}

/// The row extents of the listed cells, summed (see `scanned_area`).
pub fn hashed_area(descs: &Vec<CellDesc>) -> (r: u128)
    ensures
        r == table_area(row_table(descs@)),
{
    let mut index: HashMap<isize, usize> = HashMap::new();
    let mut table: Vec<(isize, isize, isize)> = Vec::new();
    let mut i: usize = 0;
    while i < descs.len()
        invariant
            i <= descs@.len(),
            table@ == row_table(descs@.subrange(0, i as int)),
            table@.len() <= i,
            forall|row: isize| #[trigger] index@.contains_key(row) ==> (index@[row] as int) < table@.len()
                && table@[index@[row] as int].0 == row,
            forall|j: int| 0 <= j < table@.len() ==> index@.contains_key((#[trigger] table@[j]).0)
                && index@[table@[j].0] == j,
        decreases descs@.len() - i,
    {
        let d = descs[i];
        let row = d.coord.row;
        let col = d.coord.col;
        let ghost t = table@;
        proof {
            assert(descs@.subrange(0, i + 1).drop_last() =~= descs@.subrange(0, i as int));
            assert(descs@.subrange(0, i + 1).last() == d);
        }
        match index.get(&row) {
            Some(j_ref) => {
                let j = *j_ref;
                let (_, lo, hi) = table[j];
                let lo2 = if col < lo { col } else { lo };
                let hi2 = if col > hi { col } else { hi };
                table.set(j, (row, lo2, hi2));
                proof {
                    let jc = choose|jc: int| 0 <= jc < t.len() && t[jc].0 == row;
                    assert(index@[t[jc].0] == jc);
                }
            },
            None => {
                index.insert(row, table.len());
                table.push((row, col, col));
                proof {
                    assert(!exists|jc: int| 0 <= jc < t.len() && t[jc].0 == row);
                }
            },
        }
        i = i + 1;
    }
    assert(descs@.subrange(0, i as int) =~= descs@);
    let mut acc: u128 = 0;
    let mut j: usize = 0;
    while j < table.len()
        invariant
            j <= table@.len(),
            table@.len() <= usize::MAX,
            acc == table_area(table@.subrange(0, j as int)),
            acc <= j * 0x1_0000_0000_0000_0000,
        decreases table@.len() - j,
    {
        let (_, lo, hi) = table[j];
        proof {
            assert(table@.subrange(0, j + 1).drop_last() =~= table@.subrange(0, j as int));
            assert((j + 1) * 0x1_0000_0000_0000_0000 <= 0xffff_ffff_ffff_ffff_0000_0000_0000_0000u128) by (nonlinear_arith)
                requires j + 1 <= 0xffff_ffff_ffff_ffffu128;
        }
        acc = acc + abs_wide(hi) + abs_wide(lo);
        j = j + 1;
    }
    assert(table@.subrange(0, j as int) =~= table@);
    acc
}

/// A live cell may be placed anywhere the board's live cells are.
pub open spec fn alive_in_reach(b: Board) -> bool {
    forall|k: (int, int)| #[trigger] b.alive().contains_key(k) ==> coord_in_reach(k.0) && coord_in_reach(k.1)
}

/// The positions `(col, row)`, `0 <= col < n`, `0 <= row < m`, whose draw
/// (`draws[col * m + row]`) is below `p`, as they land on the board; all
/// with generation 1.
pub open spec fn random_fill(
    draws: Seq<u32>,
    p: int,
    n: int,
    m: int,
    cols: Option<usize>,
    rows: Option<usize>,
) -> Map<(int, int), usize> {
    Map::new(
        |k: (int, int)| exists|c: int, r: int| #![trigger draws[c * m + r]]
            0 <= c < n && 0 <= r < m && draws[c * m + r] < p && crate::life::wrap_key((c, r), cols, rows) == k,
        |k: (int, int)| 1usize,
    )
}

/// The simulation: a board, the step count, and the state of the store switching.
pub struct Engine {
    cols: Option<usize>,
    rows: Option<usize>,
    board_type: BoardType,
    iters_from_prev_switch: usize,
    board: Board,
    iteration: usize,
    last_iter_time: u64,
    last_area: u128,
}

impl Engine {
    pub closed spec fn board_spec(&self) -> Board {
        self.board
    }

    pub closed spec fn kind(&self) -> BoardType {
        self.board_type
    }

    pub closed spec fn since_switch(&self) -> int {
        self.iters_from_prev_switch as int
    }

    pub closed spec fn iteration_spec(&self) -> int {
        self.iteration as int
    }

    pub closed spec fn last_area_spec(&self) -> int {
        self.last_area as int
    }

    pub closed spec fn last_time_spec(&self) -> u64 {
        self.last_iter_time
    }

    pub closed spec fn well_formed(&self) -> bool {
        &&& self.board.well_formed()
        &&& self.board.kind() == self.board_type
        &&& self.board.cols_spec() == self.cols
        &&& self.board.rows_spec() == self.rows
    }

    /// The engine's board is well formed, with the engine's extents and
    /// store kind, and its population counts its live cells.
    pub proof fn lemma_board_well_formed(&self)
        requires
            self.well_formed(),
        ensures
            self.board_spec().well_formed(),
            self.board_spec().cols_spec() == self.cols_spec(),
            self.board_spec().rows_spec() == self.rows_spec(),
            self.board_spec().kind() == self.kind(),
            self.board_spec().population_spec() == self.board_spec().alive().dom().len(),
            valid_extent(self.cols_spec()),
            valid_extent(self.rows_spec()),
    {
        self.board.lemma_board_facts();
    }

    pub closed spec fn can_step_spec(&self) -> bool {
        self.board.can_advance_spec() && self.iteration < usize::MAX && self.iters_from_prev_switch < usize::MAX
    }

    pub closed spec fn cols_spec(&self) -> Option<usize> {
        self.cols
    }

    pub closed spec fn rows_spec(&self) -> Option<usize> {
        self.rows
    }

    fn new_board(board_type: BoardType, cols: Option<usize>, rows: Option<usize>) -> (r: Board)
        requires
            valid_extent(cols),
            valid_extent(rows),
        ensures
            r.well_formed(),
            r.alive() == Map::<(int, int), usize>::empty(),
            r.holds_neighbourhoods(),
            r.cols_spec() == cols,
            r.rows_spec() == rows,
            r.kind() == board_type,
            r.population_spec() == 0,
            forall|m: int| #[trigger] r.slots_within(m),
    {
        Board::empty(board_type, cols, rows)
    }

    /// An engine on a hashed board with the given extents, seeded with the
    /// listed coordinates if any.
    pub fn new(config_vec: Option<Vec<Coord>>, cols: Option<usize>, rows: Option<usize>) -> (r: Engine)
        requires
            valid_extent(cols),
            valid_extent(rows),
            config_vec is Some ==> forall|i: int| 0 <= i < config_vec->0@.len() ==> coord_in_reach(
                (#[trigger] config_vec->0@[i]).col as int,
            ) && coord_in_reach(config_vec->0@[i].row as int),
        ensures
            r.well_formed(),
            r.kind() == BoardType::Hashed,
            r.since_switch() == SWITCH_BOARD_INERTIA,
            r.iteration_spec() == 0,
            r.cols_spec() == cols,
            r.rows_spec() == rows,
            r.board_spec().holds_neighbourhoods(),
            r.board_spec().alive() == (match config_vec {
                Some(v) => seeded(Map::empty(), v@, cols, rows),
                None => Map::empty(),
            }),
            r.board_spec().population_spec() == r.board_spec().alive().dom().len(),
            r.board_spec().gens_below(2),
            forall|m: int| #![trigger r.board_spec().slots_within(m)]
                margin_ok(m) && (config_vec is Some ==> forall|i: int| 0 <= i < config_vec->0@.len() ==> in_margin(
                    (#[trigger] config_vec->0@[i]).col as int,
                    m + 1,
                ) && in_margin(config_vec->0@[i].row as int, m + 1)) ==> r.board_spec().slots_within(m),
    {
        let board_type = BoardType::Hashed;
        let mut engine = Engine {
            cols,
            rows,
            board_type,
            iters_from_prev_switch: SWITCH_BOARD_INERTIA,
            board: Self::new_board(board_type, cols, rows),
            iteration: 0,
            last_iter_time: 0,
            last_area: 0,
        };
        if let Some(board_config) = config_vec {
            // the seed count is a usize, so the population cannot overflow
            let n = board_config.len();
            assert(n == board_config@.len());
            engine.board.set_predefined(board_config);
        }
        proof {
            engine.board.lemma_board_facts();
        }
        engine
    }

    /// Seeds the listed coordinates onto the current board.
    pub fn set_predefined(&mut self, board_config: Vec<Coord>)
        requires
            old(self).well_formed(),
            forall|i: int| 0 <= i < board_config@.len() ==> coord_in_reach((#[trigger] board_config@[i]).col as int)
                && coord_in_reach(board_config@[i].row as int),
            old(self).board_spec().population_spec() + board_config@.len() <= usize::MAX,
        ensures
            final(self).well_formed(),
            final(self).board_spec().alive() == seeded(old(self).board_spec().alive(), board_config@, old(self).cols_spec(), old(self).rows_spec()),
            final(self).kind() == old(self).kind(),
            final(self).iteration_spec() == old(self).iteration_spec(),
            final(self).since_switch() == old(self).since_switch(),
            old(self).board_spec().holds_neighbourhoods() ==> final(self).board_spec().holds_neighbourhoods(),
            final(self).board_spec().population_spec() == final(self).board_spec().alive().dom().len(),
            forall|k: (int, int)| #[trigger] final(self).board_spec().alive().contains_key(k) ==> final(self).board_spec().alive()[k] == 1
                || (old(self).board_spec().alive().contains_key(k) && final(self).board_spec().alive()[k] == old(self).board_spec().alive()[k]),
            forall|m: int| #![trigger final(self).board_spec().slots_within(m)]
                margin_ok(m) && old(self).board_spec().slots_within(m) && (forall|i: int| 0 <= i < board_config@.len() ==> in_margin(
                    (#[trigger] board_config@[i]).col as int,
                    m + 1,
                ) && in_margin(board_config@[i].row as int, m + 1)) ==> final(self).board_spec().slots_within(m),
    {
        self.board.set_predefined(board_config);
        proof {
            self.board.lemma_board_facts();
        }
    }

    /// Drops every cell and restarts the step count; the store kind stays.
    pub fn reset(&mut self)
        requires
            old(self).well_formed(),
        ensures
            final(self).well_formed(),
            final(self).board_spec().alive() == Map::<(int, int), usize>::empty(),
            final(self).board_spec().population_spec() == 0,
            forall|m: int| #[trigger] final(self).board_spec().slots_within(m),
            final(self).board_spec().holds_neighbourhoods(),
            final(self).kind() == old(self).kind(),
            final(self).iteration_spec() == 0,
            final(self).last_time_spec() == 0,
            final(self).since_switch() == old(self).since_switch(),
            final(self).cols_spec() == old(self).cols_spec(),
            final(self).rows_spec() == old(self).rows_spec(),
    {
        proof {
            self.board.lemma_board_facts();
        }
        self.board = Self::new_board(self.board_type, self.cols, self.rows);
        self.iteration = 0;
        self.last_iter_time = 0;
    }

    /// A board of the given kind holding the same live cells, with the same
    /// generations, as the current one.
    fn clone_board(&self, board_type: BoardType) -> (r: Board)
        requires
            self.well_formed(),
            alive_in_reach(self.board_spec()),
        ensures
            r.well_formed(),
            r.alive() == self.board_spec().alive(),
            r.holds_neighbourhoods(),
            r.cols_spec() == self.cols_spec(),
            r.rows_spec() == self.rows_spec(),
            r.kind() == board_type,
            r.population_spec() == r.alive().dom().len(),
            forall|m: int| #![trigger r.slots_within(m)] margin_ok(m) && self.board_spec().alive_within(m + 1) ==> r.slots_within(m),
    {
        proof {
            self.board.lemma_board_facts();
        }
        let mut new_board = Self::new_board(board_type, self.board.get_cols(), self.board.get_rows());
        let descs = self.board.iter();
        let ghost src = self.board.alive();
        let mut i: usize = 0;
        while i < descs.len()
            invariant
                self.well_formed(),
                src == self.board.alive(),
                alive_in_reach(self.board),
                lists_cells(descs@, self.board.slots()),
                i <= descs@.len(),
                new_board.well_formed(),
                new_board.holds_neighbourhoods(),
                new_board.cols_spec() == self.cols,
                new_board.rows_spec() == self.rows,
                new_board.kind() == board_type,
                new_board.population_spec() <= i,
                forall|m: int| #![trigger new_board.slots_within(m)] margin_ok(m) && self.board.alive_within(m + 1) ==> new_board.slots_within(m),
                forall|j: int| 0 <= j < i && (#[trigger] descs@[j]).is_alive ==> new_board.alive().contains_key(desc_key(descs@[j]))
                    && new_board.alive()[desc_key(descs@[j])] == descs@[j].gen,
                forall|k: (int, int)| #[trigger] new_board.alive().contains_key(k) ==> src.contains_key(k)
                    && new_board.alive()[k] == src[k] && exists|j: int| 0 <= j < i && desc_key(#[trigger] descs@[j]) == k,
            decreases descs@.len() - i,
        {
            let d = descs[i];
            let ghost k = desc_key(d);
            if d.is_alive {
                proof {
                    assert(self.board.slots().contains_key(k));
                    assert(src.contains_key(k));
                    self.board.lemma_board_facts();
                    crate::torus::lemma_wrap_axis_props(k.0, self.cols);
                    crate::torus::lemma_wrap_axis_props(k.1, self.rows);
                    self.board.lemma_slots_on_board(k);
                    assert(!new_board.alive().contains_key(k)) by {
                        if new_board.alive().contains_key(k) {
                            let j = choose|j: int| 0 <= j < i && desc_key(#[trigger] descs@[j]) == k;
                            assert(desc_key(descs@[j]) != desc_key(descs@[i as int]));
                        }
                    }
                }
                let ghost before_birth = new_board;
                new_board.born_at_gen(d.coord.col, d.coord.row, d.gen);
                proof {
                    assert forall|m: int| margin_ok(m) && self.board.alive_within(m + 1) implies #[trigger] new_board.slots_within(m) by {
                        assert(before_birth.slots_within(m));
                        assert(in_margin(k.0, m + 1) && in_margin(k.1, m + 1));
                    }
                }
            }
            proof {
                assert forall|k2: (int, int)| #[trigger] new_board.alive().contains_key(k2) implies src.contains_key(k2)
                    && new_board.alive()[k2] == src[k2] && exists|j: int| 0 <= j < i + 1 && desc_key(#[trigger] descs@[j]) == k2 by {
                    if k2 == k {
                        assert(desc_key(descs@[i as int]) == k2);
                    }
                }
                assert forall|j: int| 0 <= j < i + 1 && (#[trigger] descs@[j]).is_alive implies new_board.alive().contains_key(desc_key(descs@[j]))
                    && new_board.alive()[desc_key(descs@[j])] == descs@[j].gen by {
                    if j < i {
                        assert(desc_key(descs@[j]) != desc_key(descs@[i as int]));
                    }
                }
            }
            i = i + 1;
        }
        proof {
            new_board.lemma_board_facts();
            assert(new_board.alive() =~= src) by {
                assert forall|k: (int, int)| #[trigger] src.contains_key(k) implies new_board.alive().contains_key(k) by {
                    let j = choose|j: int| 0 <= j < descs@.len() && #[trigger] desc_key(descs@[j]) == k;
                }
            }
        }
        new_board
    }

    /// The number of steps taken.
    pub fn cur_iteration(&self) -> (r: usize)
        ensures
            r == self.iteration_spec(),
    {
        self.iteration
    }

    /// How long the last batch of steps took, in nanoseconds.
    pub fn get_last_iter_time(&self) -> (r: u64)
        ensures
            r == self.last_time_spec(),
    {
        self.last_iter_time
    }

    /// The area the last step measured its density against.
    pub fn get_last_area(&self) -> (r: u128)
        ensures
            r == self.last_area_spec(),
    {
        self.last_area
    }

    /// Which store the board uses.
    pub fn get_board_type(&self) -> (r: BoardType)
        ensures
            r == self.kind(),
    {
        self.board_type
    }

    pub fn get_board(&self) -> (r: &Board)
        ensures
            *r == self.board_spec(),
    {
        &self.board
    }

    /// Replaces the board; the engine takes on its store kind.
    pub fn set_board(&mut self, board: Board)
        requires
            old(self).well_formed(),
            board.well_formed(),
            board.cols_spec() == old(self).cols_spec(),
            board.rows_spec() == old(self).rows_spec(),
        ensures
            final(self).well_formed(),
            final(self).board_spec() == board,
            final(self).kind() == board.kind(),
            final(self).iteration_spec() == old(self).iteration_spec(),
            final(self).since_switch() == old(self).since_switch(),
    {
        self.board_type = board.get_type();
        self.board = board;
    }

    /// Moves the board to the other store: hashed to dense or dense to
    /// hashed. The live cells and their generations stay as they are.
    pub fn switch_board(&mut self)
        requires
            old(self).well_formed(),
            alive_in_reach(old(self).board_spec()),
        ensures
            final(self).well_formed(),
            final(self).kind() != old(self).kind(),
            final(self).board_spec().alive() == old(self).board_spec().alive(),
            final(self).last_area_spec() == old(self).last_area_spec(),
            final(self).last_time_spec() == old(self).last_time_spec(),
            final(self).board_spec().population_spec() == final(self).board_spec().alive().dom().len(),
            final(self).board_spec().population_spec() == old(self).board_spec().population_spec(),
            forall|m: int| #![trigger final(self).board_spec().slots_within(m)]
                margin_ok(m) && old(self).board_spec().alive_within(m + 1) ==> final(self).board_spec().slots_within(m),
            final(self).board_spec().holds_neighbourhoods(),
            final(self).iteration_spec() == old(self).iteration_spec(),
            final(self).since_switch() == old(self).since_switch(),
            final(self).cols_spec() == old(self).cols_spec(),
            final(self).rows_spec() == old(self).rows_spec(),
    {
        let new_type = match self.board_type {
            BoardType::Hashed => BoardType::SymVec,
            BoardType::SymVec => BoardType::Hashed,
        };
        proof {
            self.board.lemma_board_facts();
        }
        let new_board = self.clone_board(new_type);
        self.board_type = new_type;
        self.board = new_board;
    }

    /// Whether a step may be taken (see `Board::can_advance`), with room
    /// left in the step counters.
    pub fn can_step(&self) -> (r: bool)
        requires
            self.well_formed(),
        ensures
            r == self.can_step_spec(),
            r ==> self.board_spec().slots_in_reach(),
            r ==> forall|k: (int, int)| #[trigger] self.board_spec().alive().contains_key(k) ==> self.board_spec().alive()[k] < usize::MAX,
            r ==> self.iteration_spec() < usize::MAX,
            r ==> self.since_switch() < usize::MAX,
    {
        self.board.can_advance() && self.iteration < usize::MAX && self.iters_from_prev_switch < usize::MAX
    }

    /// One step of the game. The density of the new generation decides
    /// whether the board moves to the other store; every
    /// `ITERATIONS_TO_CLEANUP` steps a dense board is rebuilt without its
    /// dead slots.
    pub fn one_iteration(&mut self)
        requires
            old(self).well_formed(),
            old(self).board_spec().slots_in_reach(),
            forall|k: (int, int)| #[trigger] old(self).board_spec().alive().contains_key(k) ==> old(self).board_spec().alive()[k] < usize::MAX,
            old(self).iteration_spec() < usize::MAX,
            old(self).since_switch() < usize::MAX,
        ensures
            final(self).well_formed(),
            final(self).board_spec().alive() == old(self).board_spec().next_alive(),
            old(self).board_spec().holds_neighbourhoods() ==> final(self).board_spec().alive()
                == crate::life::life_step(old(self).board_spec().alive(), old(self).cols_spec(), old(self).rows_spec()),
            final(self).board_spec().holds_neighbourhoods(),
            final(self).board_spec().population_spec() == final(self).board_spec().alive().dom().len(),
            forall|m: int| #![trigger final(self).board_spec().slots_within(m)]
                margin_ok(m) && old(self).board_spec().slots_within(m + 1) ==> final(self).board_spec().slots_within(m),
            forall|g: int| #![trigger old(self).board_spec().gens_below(g)]
                1 <= g && old(self).board_spec().gens_below(g) ==> final(self).board_spec().gens_below(g + 1),
            final(self).iteration_spec() == old(self).iteration_spec() + 1,
            final(self).cols_spec() == old(self).cols_spec(),
            final(self).rows_spec() == old(self).rows_spec(),
            exists|descs: Seq<CellDesc>| lists_cells(descs, old(self).board_spec().slots())
                && final(self).last_area_spec() == scanned_area(old(self).kind(), descs),
            (final(self).kind() != old(self).kind()) == switch_due(
                old(self).kind(),
                old(self).since_switch(),
                final(self).board_spec().population_spec() as int,
                final(self).last_area_spec(),
            ),
            final(self).kind() != old(self).kind() ==> old(self).since_switch() > SWITCH_BOARD_INERTIA,
            final(self).kind() != old(self).kind() ==> final(self).since_switch() == 1,
            final(self).kind() == old(self).kind() ==> final(self).since_switch() == old(self).since_switch() + 1,
    {
        let descs = self.board.iter();
        let next_gen = self.board.next_generation_from(&descs);
        let area: u128 = match self.board_type {
            BoardType::Hashed => hashed_area(&descs),
            BoardType::SymVec => descs.len() as u128,
        };
        let ghost old_board = self.board;
        self.board = next_gen;
        self.last_area = area;
        proof {
            assert(alive_in_reach(self.board)) by {
                assert forall|k: (int, int)| #[trigger] self.board.alive().contains_key(k) implies coord_in_reach(k.0) && coord_in_reach(k.1) by {
                    assert(old_board.slots().contains_key(k));
                }
            }
        }
        let population = self.board.get_population();
        let ghost stepped = self.board;
        let ghost kind_before = self.board_type;
        let switch = should_switch(self.board_type, self.iters_from_prev_switch, population, area);
        if switch {
            self.iters_from_prev_switch = 0;
            self.switch_board();
        }
        let ghost switched = self.board;
        if self.iteration % ITERATIONS_TO_CLEANUP == 0 && self.board_type == BoardType::SymVec {
            // rebuilding drops the slots of cells that died long ago
            let new_board = self.clone_board(self.board_type);
            self.board = new_board;
        }
        proof {
            assert forall|m: int| margin_ok(m) && old_board.slots_within(m + 1) implies #[trigger] self.board.slots_within(m) by {
                assert(stepped.slots_within(m));
                assert forall|k: (int, int)| #[trigger] stepped.alive().contains_key(k) implies in_margin(k.0, m + 1)
                    && in_margin(k.1, m + 1) by {
                    assert(old_board.slots().contains_key(k));
                }
                assert(stepped.alive_within(m + 1));
                assert(switched.slots_within(m));
                assert(switched.alive() == stepped.alive());
                assert(switched.alive_within(m + 1));
            }
            assert forall|g: int| 1 <= g && old_board.gens_below(g) implies #[trigger] self.board.gens_below(g + 1) by {
                assert forall|k: (int, int)| #[trigger] self.board.alive().contains_key(k) implies self.board.alive()[k] < g + 1 by {
                    assert(stepped.alive().contains_key(k));
                    if old_board.alive().contains_key(k) {
                        assert(old_board.alive()[k] < g);
                    }
                }
            }
        }
        proof {
            stepped.lemma_board_facts();
            self.board.lemma_board_facts();
            assert(self.board.alive() == stepped.alive());
            assert(self.board.population_spec() == population);
            assert((self.board_type != kind_before) == switch);
            assert(lists_cells(descs@, old_board.slots()));
            assert(area == scanned_area(kind_before, descs@));
        }
        self.iteration = self.iteration + 1;
        self.iters_from_prev_switch = self.iters_from_prev_switch + 1;
        proof {
            assert(lists_cells(descs@, old(self).board_spec().slots()) && self.last_area_spec() == scanned_area(
                old(self).kind(),
                descs@,
            ));
            assert(self.board_spec().population_spec() == population);
            assert((self.kind() != old(self).kind()) == switch);
            if old_board.holds_neighbourhoods() {
                crate::board::lemma_backend_equivalence(&old_board, &old_board);
            }
        }
    }

    /// Takes up to `n` steps, stopping early only where `can_step` fails,
    /// and returns the time they took in nanoseconds.
    pub fn iterations(&mut self, n: u64) -> (r: u64)
        requires
            old(self).well_formed(),
        ensures
            final(self).well_formed(),
            old(self).iteration_spec() <= final(self).iteration_spec() <= old(self).iteration_spec() + n,
            final(self).iteration_spec() < old(self).iteration_spec() + n ==> !final(self).can_step_spec(),
            final(self).cols_spec() == old(self).cols_spec(),
            final(self).rows_spec() == old(self).rows_spec(),
            final(self).board_spec().population_spec() == final(self).board_spec().alive().dom().len(),
            old(self).board_spec().holds_neighbourhoods() ==> final(self).board_spec().alive() == life_steps(
                old(self).board_spec().alive(),
                old(self).cols_spec(),
                old(self).rows_spec(),
                (final(self).iteration_spec() - old(self).iteration_spec()) as nat,
            ),
            r == final(self).last_time_spec(),
    {
        let st = now_ns();
        let mut k: u64 = 0;
        while k < n && self.can_step()
            invariant
                self.well_formed(),
                k <= n,
                self.iteration_spec() == old(self).iteration_spec() + k,
                self.cols_spec() == old(self).cols_spec(),
                self.rows_spec() == old(self).rows_spec(),
                old(self).board_spec().holds_neighbourhoods() ==> self.board_spec().holds_neighbourhoods()
                    && self.board_spec().alive() == life_steps(
                    old(self).board_spec().alive(),
                    old(self).cols_spec(),
                    old(self).rows_spec(),
                    k as nat,
                ),
            decreases n - k,
        {
            self.one_iteration();
            k = k + 1;
        }
        proof {
            self.board.lemma_board_facts();
        }
        let end = now_ns();
        self.last_iter_time = end.saturating_sub(st);
        self.last_iter_time
    }

    /// Creates a board of the current kind and extents on which every
    /// position is alive with probability `p_ppm` millionths. An unbounded
    /// board gets no cells.
    pub fn create_random(&self, p_ppm: u32) -> (r: Board)
        requires
            self.well_formed(),
        ensures
            r.well_formed(),
            r.kind() == self.kind(),
            r.cols_spec() == self.cols_spec(),
            r.rows_spec() == self.rows_spec(),
            r.holds_neighbourhoods(),
            forall|k: (int, int)| #[trigger] r.alive().contains_key(k) ==> r.alive()[k] == 1,
            (self.cols_spec() is None || self.rows_spec() is None || p_ppm == 0) ==> r.alive() == Map::<(int, int), usize>::empty(),
            ({
                let n = self.cols_spec()->0 as int;
                let m = self.rows_spec()->0 as int;
                self.cols_spec() is Some && self.rows_spec() is Some && n <= isize::MAX - 2 && m <= isize::MAX - 2
                    && n * m <= usize::MAX ==> exists|draws: Seq<u32>|
                    draws.len() == n * m && (forall|i: int| 0 <= i < draws.len() ==> #[trigger] draws[i] < RANDOM_SCALE)
                        && r.alive() == random_fill(draws, p_ppm as int, n, m, self.cols_spec(), self.rows_spec())
            }),
    {
        let cols = self.board.get_cols();
        let rows = self.board.get_rows();
        proof {
            self.board.lemma_board_facts();
        }
        match (cols, rows) {
            (Some(n), Some(m)) => {
                if n > (isize::MAX - 2) as usize || m > (isize::MAX - 2) as usize || m == 0 {
                    return Self::new_board(self.board_type, cols, rows);
                }
                let q: usize = usize::MAX / m;
                if n > q {
                    proof {
                        vstd::arithmetic::div_mod::lemma_fundamental_div_mod(usize::MAX as int, m as int);
                        let rem = usize::MAX as int % m as int;
                        assert(n * m > usize::MAX) by (nonlinear_arith)
                            requires n >= q + 1, usize::MAX == m * q + rem, rem < m, m > 0;
                    }
                    return Self::new_board(self.board_type, cols, rows);
                }
                proof {
                    vstd::arithmetic::div_mod::lemma_fundamental_div_mod(usize::MAX as int, m as int);
                    let rem = usize::MAX as int % m as int;
                    assert(n * m <= usize::MAX) by (nonlinear_arith)
                        requires n <= q, usize::MAX == m * q + rem, 0 <= rem, m > 0;
                }
                let total: usize = n * m;
                let mut draws: Vec<u32> = Vec::new();
                let mut i: usize = 0;
                while i < total
                    invariant
                        i <= total,
                        draws@.len() == i,
                        forall|j: int| 0 <= j < i ==> #[trigger] draws@[j] < RANDOM_SCALE,
                    decreases total - i,
                {
                    draws.push(draw_below(RANDOM_SCALE));
                    i = i + 1;
                }
                let r = self.create_from_draws(&draws, p_ppm);
                proof {
                    if p_ppm == 0 {
                        assert(r.alive() =~= Map::<(int, int), usize>::empty());
                    }
                    assert(draws@.len() == n * m);
                }
                r
            },
            _ => Self::new_board(self.board_type, cols, rows),
        }
    }

    /// Fills a board of the current kind and bounded extents `n` by `m`:
    /// position `(col, row)`, `0 <= col < n`, `0 <= row < m`, is born where
    /// `draws[col * m + row] < p_ppm`.
    pub fn create_from_draws(&self, draws: &Vec<u32>, p_ppm: u32) -> (r: Board)
        requires
            self.well_formed(),
            self.cols_spec() is Some,
            self.rows_spec() is Some,
            self.cols_spec()->0 <= isize::MAX - 2,
            self.rows_spec()->0 <= isize::MAX - 2,
            draws@.len() == self.cols_spec()->0 * self.rows_spec()->0,
        ensures
            r.well_formed(),
            r.kind() == self.kind(),
            r.cols_spec() == self.cols_spec(),
            r.rows_spec() == self.rows_spec(),
            r.holds_neighbourhoods(),
            r.alive() == random_fill(
                draws@,
                p_ppm as int,
                self.cols_spec()->0 as int,
                self.rows_spec()->0 as int,
                self.cols_spec(),
                self.rows_spec(),
            ),
    {
        let n = self.cols.unwrap();
        let m = self.rows.unwrap();
        proof {
            self.board.lemma_board_facts();
        }
        let mut board = Self::new_board(self.board_type, self.cols, self.rows);
        let total = draws.len();
        let mut t: usize = 0;
        while t < total
            invariant
                self.well_formed(),
                self.cols == Some(n),
                self.rows == Some(m),
                n <= isize::MAX - 2,
                m <= isize::MAX - 2,
                total == draws@.len(),
                total == n * m,
                t <= total,
                board.well_formed(),
                board.holds_neighbourhoods(),
                board.kind() == self.board_type,
                board.cols_spec() == self.cols,
                board.rows_spec() == self.rows,
                board.population_spec() <= t,
                board.alive() == Map::new(
                    |k: (int, int)| exists|c: int, r: int| #![trigger draws@[c * m + r]]
                        0 <= c < n && 0 <= r < m && c * m + r < t && draws@[c * m + r] < p_ppm
                            && crate::life::wrap_key((c, r), self.cols, self.rows) == k,
                    |k: (int, int)| 1usize,
                ),
            decreases total - t,
        {
            let c = t / m;
            let r = t % m;
            proof {
                vstd::arithmetic::div_mod::lemma_fundamental_div_mod(t as int, m as int);
                assert(c < n) by (nonlinear_arith)
                    requires t == m * c + r, t < n * m, 0 <= r, m > 0;
                assert(c * m + r == t) by (nonlinear_arith)
                    requires t == m * c + r;
            }
            let ghost before = board.alive();
            let ghost kc = crate::life::wrap_key((c as int, r as int), self.cols, self.rows);
            if draws[t] < p_ppm {
                board.born_at(c as isize, r as isize);
            }
            proof {
                let target = Map::new(
                    |k: (int, int)| exists|c2: int, r2: int| #![trigger draws@[c2 * m + r2]]
                        0 <= c2 < n && 0 <= r2 < m && c2 * m + r2 < t + 1 && draws@[c2 * m + r2] < p_ppm
                            && crate::life::wrap_key((c2, r2), self.cols, self.rows) == k,
                    |k: (int, int)| 1usize,
                );
                assert forall|k: (int, int)| #[trigger] target.contains_key(k) implies board.alive().contains_key(k) by {
                    let (c2, r2) = choose|c2: int, r2: int| #![trigger draws@[c2 * m + r2]]
                        0 <= c2 < n && 0 <= r2 < m && c2 * m + r2 < t + 1 && draws@[c2 * m + r2] < p_ppm
                            && crate::life::wrap_key((c2, r2), self.cols, self.rows) == k;
                    if c2 * m + r2 == t {
                        assert(m * c2 + r2 == t) by (nonlinear_arith)
                            requires c2 * m + r2 == t;
                        vstd::arithmetic::div_mod::lemma_fundamental_div_mod_converse(t as int, m as int, c2, r2);
                    } else {
                        assert(before.contains_key(k));
                    }
                }
                assert forall|k: (int, int)| #[trigger] board.alive().contains_key(k) implies target.contains_key(k) by {
                    if before.contains_key(k) {
                        let (c2, r2) = choose|c2: int, r2: int| #![trigger draws@[c2 * m + r2]]
                            0 <= c2 < n && 0 <= r2 < m && c2 * m + r2 < t && draws@[c2 * m + r2] < p_ppm
                                && crate::life::wrap_key((c2, r2), self.cols, self.rows) == k;
                        assert(draws@[c2 * m + r2] < p_ppm);
                    } else {
                        assert(k == kc);
                        assert(draws@[c as int * m + r as int] < p_ppm);
                    }
                }
                assert(board.alive() =~= target);
            }
            t = t + 1;
        }
        proof {
            let target = random_fill(draws@, p_ppm as int, n as int, m as int, self.cols, self.rows);
            assert forall|k: (int, int)| #[trigger] target.contains_key(k) implies board.alive().contains_key(k) by {
                let (c2, r2) = choose|c2: int, r2: int| #![trigger draws@[c2 * m + r2]]
                    0 <= c2 < n && 0 <= r2 < m && draws@[c2 * m + r2] < p_ppm
                        && crate::life::wrap_key((c2, r2), self.cols, self.rows) == k;
                assert(c2 * m + r2 < n * m) by (nonlinear_arith)
                    requires 0 <= c2 < n, 0 <= r2 < m;
            }
            assert(board.alive() =~= target);
        }
        board
    }
}

/// Which store an engine uses does not show in a step: two engines with
/// the same extents and the same live cells, each with the neighbourhoods
/// of its live cells allocated, step to the same live cells, those of the
/// game's rule.
pub proof fn lemma_engine_backend_equivalence(e1: &Engine, e2: &Engine)
    requires
        e1.well_formed(),
        e2.well_formed(),
        e1.board_spec().holds_neighbourhoods(),
        e2.board_spec().holds_neighbourhoods(),
        e1.board_spec().alive() == e2.board_spec().alive(),
        e1.cols_spec() == e2.cols_spec(),
        e1.rows_spec() == e2.rows_spec(),
    ensures
        e1.board_spec().next_alive() == e2.board_spec().next_alive(),
        e1.board_spec().next_alive() == crate::life::life_step(e1.board_spec().alive(), e1.cols_spec(), e1.rows_spec()),
{
    e1.lemma_board_well_formed();
    e2.lemma_board_well_formed();
    crate::board::lemma_backend_equivalence(&e1.board_spec(), &e2.board_spec());
}

} // verus!
