//! The game board: a cell store behind coordinate wrapping, with the
//! neighbourhood of every birth allocated and the population counted.
use vstd::prelude::*;
use crate::cells::{row_major_before, BoardInternal, Cell, CellDesc, CellIterType, Coord, key_of, lists_slots, grown_to_hold, in_isize};
use crate::hashed::HashBased;
use crate::vect::SymVecBased;
use crate::torus::{wrap_on, wrap_axis, valid_extent, lemma_wrap_axis_props, lemma_wrap_axis_shift};
use crate::life::{
    alive_of, gen_of, is_occupied, offset, shift, wrap_key, on_board, step_slots, live_neighbours_upto, neighbourhoods_allocated, slots_on_board,
};

verus! {

/// Which store a board uses.
#[derive(Debug, Clone, Copy, PartialEq, Eq, Structural)]
pub enum BoardType {
    Hashed,
    SymVec,
}

/// One of the two cell stores.
pub enum Store {
    Hashed(HashBased),
    SymVec(SymVecBased),
}

impl Store {
    pub open spec fn kind(&self) -> BoardType {
        match self {
            Store::Hashed(_) => BoardType::Hashed,
            Store::SymVec(_) => BoardType::SymVec,
        }
    }
}

impl Store {
    pub open spec fn slots(&self) -> Map<(int, int), Cell> {
        match self {
            Store::Hashed(h) => h.slots(),
            Store::SymVec(v) => v.slots(),
        }
    }

    pub open spec fn well_formed(&self) -> bool {
        match self {
            Store::Hashed(h) => h.well_formed(),
            Store::SymVec(v) => v.well_formed(),
        }
    }

    /// See `BoardInternal::touched_only`: true of the hashed store only.
    pub open spec fn touched_only(&self) -> bool {
        match self {
            Store::Hashed(h) => h.touched_only(),
            Store::SymVec(v) => v.touched_only(),
        }
    }

    pub proof fn lemma_slots_finite(&self)
        requires
            self.well_formed(),
        ensures
            self.slots().dom().finite(),
            forall|k: (int, int)| #[trigger] self.slots().contains_key(k) ==> in_isize(k),
    {
        match self {
            Store::Hashed(h) => h.lemma_slots_finite(),
            Store::SymVec(v) => v.lemma_slots_finite(),
        }
    }

    fn get_cell(&self, col: isize, row: isize) -> (r: Option<Cell>)
        requires
            self.well_formed(),
        ensures
            r == (if self.slots().contains_key((col as int, row as int)) {
                Some(self.slots()[(col as int, row as int)])
            } else {
                None
            }),
    {
        match self {
            Store::Hashed(h) => h.get_cell(col, row),
            Store::SymVec(v) => v.get_cell(col, row),
        }
    }

    fn set_cell(&mut self, col: isize, row: isize, val: Cell)
        requires
            old(self).well_formed(),
            old(self).slots().contains_key((col as int, row as int)),
        ensures
            final(self).well_formed(),
            final(self).kind() == old(self).kind(),
            final(self).slots() == old(self).slots().insert((col as int, row as int), val),
    {
        match self {
            Store::Hashed(h) => h.set_cell(col, row, val),
            Store::SymVec(v) => v.set_cell(col, row, val),
        }
    }

    fn ensure_cell(&mut self, col: isize, row: isize)
        requires
            old(self).well_formed(),
            isize::MIN < col < isize::MAX,
            isize::MIN < row < isize::MAX,
        ensures
            final(self).well_formed(),
            final(self).kind() == old(self).kind(),
            grown_to_hold(old(self).slots(), final(self).slots(), (col as int, row as int)),
            old(self).touched_only() ==> final(self).slots() == (if old(self).slots().contains_key(
                (col as int, row as int),
            ) {
                old(self).slots()
            } else {
                old(self).slots().insert((col as int, row as int), Cell::Empty)
            }),
    {
        match self {
            Store::Hashed(h) => h.ensure_cell(col, row),
            Store::SymVec(v) => v.ensure_cell(col, row),
        }
    }

    fn rm_cell(&mut self, col: isize, row: isize)
        requires
            old(self).well_formed(),
        ensures
            final(self).well_formed(),
            final(self).kind() == old(self).kind(),
            old(self).touched_only() ==> !final(self).slots().contains_key((col as int, row as int)),
            !old(self).touched_only() ==> final(self).slots().contains_key((col as int, row as int))
                == old(self).slots().contains_key((col as int, row as int)),
            final(self).slots().remove((col as int, row as int)) == old(self).slots().remove(
                (col as int, row as int),
            ),
            final(self).slots().contains_key((col as int, row as int)) ==> final(self).slots()[(
            col as int,
            row as int,
            )] == Cell::Empty,
    {
        match self {
            Store::Hashed(h) => h.rm_cell(col, row),
            Store::SymVec(v) => v.rm_cell(col, row),
        }
    }

    fn get_iter(&self) -> (r: Vec<CellIterType>)
        requires
            self.well_formed(),
        ensures
            lists_slots(r@, self.slots()),
            !self.touched_only() ==> forall|a: int, b: int|
                0 <= a < b < r@.len() ==> row_major_before(key_of(#[trigger] r@[a]), key_of(#[trigger] r@[b])),
    {
        match self {
            Store::Hashed(h) => h.get_iter(),
            Store::SymVec(v) => v.get_iter(),
        }
    }
}

/// A coordinate that a birth may name: its neighbours fit in `isize` and
/// stay clear of its extreme values.
pub open spec fn coord_in_reach(x: int) -> bool {
    in_margin(x, 2)
}

/// `x` lies at least `m` away from both extreme values of `isize`.
pub open spec fn in_margin(x: int, m: int) -> bool {
    isize::MIN + m <= x <= isize::MAX - m
}

/// A margin small enough that wrapping on a bounded axis stays inside it.
pub open spec fn margin_ok(m: int) -> bool {
    0 <= m <= isize::MAX / 4
}

/// Wrapping keeps a coordinate within a margin.
pub proof fn lemma_wrap_margin(x: int, extent: Option<usize>, m: int)
    requires
        valid_extent(extent),
        margin_ok(m),
        in_margin(x, m),
    ensures
        in_margin(wrap_axis(x, extent), m),
{
    lemma_wrap_axis_props(x, extent);
}

/// The position of a board cell.
pub open spec fn desc_key(d: CellDesc) -> (int, int) {
    (d.coord.col as int, d.coord.row as int)
}

/// `descs` names every slot of `slots` once, with whether it is alive and its generation.
pub open spec fn lists_cells(descs: Seq<CellDesc>, slots: Map<(int, int), Cell>) -> bool {
    &&& forall|i: int|
        0 <= i < descs.len() ==> #[trigger] slots.contains_key(desc_key(descs[i]))
            && descs[i].is_alive == is_occupied(slots[desc_key(descs[i])])
            && descs[i].gen == gen_of(slots[desc_key(descs[i])])
    &&& forall|k: (int, int)|
        #[trigger] slots.contains_key(k) ==> exists|i: int| 0 <= i < descs.len() && #[trigger] desc_key(descs[i]) == k
    &&& forall|i: int, j: int|
        0 <= i < descs.len() && 0 <= j < descs.len() && i != j ==> desc_key(#[trigger] descs[i]) != desc_key(
            #[trigger] descs[j],
        )
}

/// The game board. Bounded axes wrap, so a bounded board is a torus.
pub struct Board {
    cells: Store,
    population: usize,
    rows: Option<usize>,
    cols: Option<usize>,
    // a box around every slot and the origin
    col_lo: isize,
    col_hi: isize,
    row_lo: isize,
    row_hi: isize,
    // no live cell has a larger generation
    gen_bound: usize,
}

impl Board {
    /// The allocated slots, at wrapped positions.
    pub closed spec fn slots(&self) -> Map<(int, int), Cell> {
        self.cells.slots()
    }

    pub closed spec fn cols_spec(&self) -> Option<usize> {
        self.cols
    }

    pub closed spec fn rows_spec(&self) -> Option<usize> {
        self.rows
    }

    pub closed spec fn kind(&self) -> BoardType {
        self.cells.kind()
    }

    pub closed spec fn population_spec(&self) -> usize {
        self.population
    }

    /// The live cells, each with its generation.
    pub open spec fn alive(&self) -> Map<(int, int), usize> {
        alive_of(self.slots())
    }

    /// Where a coordinate lands on this board.
    pub open spec fn wrap(&self, col: int, row: int) -> (int, int) {
        wrap_key((col, row), self.cols_spec(), self.rows_spec())
    }

    /// The live cells of the next generation, computed over the allocated slots.
    pub open spec fn next_alive(&self) -> Map<(int, int), usize> {
        step_slots(self.slots(), self.cols_spec(), self.rows_spec())
    }

    /// Every slot lies clear of the extreme values of `isize`, so that a
    /// cell may be born there.
    pub open spec fn slots_in_reach(&self) -> bool {
        self.slots_within(2)
    }

    /// Every slot lies at least `m` away from the extreme values of `isize`.
    pub open spec fn slots_within(&self, m: int) -> bool {
        forall|k: (int, int)| #[trigger] self.slots().contains_key(k) ==> in_margin(k.0, m) && in_margin(k.1, m)
    }

    /// Every live cell lies at least `m` away from the extreme values of `isize`.
    pub open spec fn alive_within(&self, m: int) -> bool {
        forall|k: (int, int)| #[trigger] self.alive().contains_key(k) ==> in_margin(k.0, m) && in_margin(k.1, m)
    }

    /// Every generation is below `g`.
    pub open spec fn gens_below(&self, g: int) -> bool {
        forall|k: (int, int)| #[trigger] self.alive().contains_key(k) ==> self.alive()[k] < g
    }

    pub closed spec fn can_advance_spec(&self) -> bool {
        isize::MIN + 2 <= self.col_lo && self.col_hi <= isize::MAX - 2 && isize::MIN + 2 <= self.row_lo
            && self.row_hi <= isize::MAX - 2 && self.gen_bound < usize::MAX
    }

    pub proof fn lemma_board_facts(&self)
        requires
            self.well_formed(),
        ensures
            valid_extent(self.cols_spec()),
            valid_extent(self.rows_spec()),
            self.population_spec() == self.alive().dom().len(),
            self.alive().dom().finite(),
    {
        self.lemma_alive_finite();
    }

    pub proof fn lemma_slots_on_board(&self, k: (int, int))
        requires
            self.well_formed(),
            self.slots().contains_key(k),
        ensures
            on_board(k, self.cols_spec(), self.rows_spec()),
    {
    }

    /// Whether a step may be taken: every slot lies clear of the extreme
    /// values of `isize`, and no generation is at the largest `usize`.
    /// Answered from a bounding box and a bound on generations, in constant time.
    pub fn can_advance(&self) -> (r: bool)
        requires
            self.well_formed(),
        ensures
            r == self.can_advance_spec(),
            r ==> self.slots_in_reach(),
            r ==> forall|k: (int, int)| #[trigger] self.alive().contains_key(k) ==> self.alive()[k] < usize::MAX,
    {
        isize::MIN + 2 <= self.col_lo && self.col_hi <= isize::MAX - 2 && isize::MIN + 2 <= self.row_lo
            && self.row_hi <= isize::MAX - 2 && self.gen_bound < usize::MAX
    }

    /// Every neighbour position of a live cell is allocated.
    pub open spec fn holds_neighbourhoods(&self) -> bool {
        neighbourhoods_allocated(self.slots(), self.cols_spec(), self.rows_spec())
    }

    pub closed spec fn well_formed(&self) -> bool {
        &&& self.cells.well_formed()
        &&& valid_extent(self.cols)
        &&& valid_extent(self.rows)
        &&& slots_on_board(self.slots(), self.cols, self.rows)
        &&& self.population == self.alive().dom().len()
        &&& self.col_lo <= 0 <= self.col_hi
        &&& self.row_lo <= 0 <= self.row_hi
        &&& forall|k: (int, int)| #[trigger] self.slots().contains_key(k) ==> self.col_lo <= k.0 <= self.col_hi
            && self.row_lo <= k.1 <= self.row_hi
        &&& forall|k: (int, int)| #[trigger] self.alive().contains_key(k) ==> self.alive()[k] <= self.gen_bound
    }

    proof fn lemma_alive_finite(&self)
        requires
            self.well_formed(),
        ensures
            self.alive().dom().finite(),
    {
        self.cells.lemma_slots_finite();
        vstd::set_lib::lemma_len_subset(self.alive().dom(), self.slots().dom());
    }

    /// An empty board over the given store (one whose slots are all
    /// empty), with optional column and row counts. A store with a slot
    /// off the board's extents is set aside for a new empty one of the
    /// same kind.
    pub fn new(cells: Store, width: Option<usize>, height: Option<usize>) -> (r: Board)
        requires
            cells.well_formed(),
            valid_extent(width),
            valid_extent(height),
            forall|k: (int, int)| #[trigger] cells.slots().contains_key(k) ==> cells.slots()[k] == Cell::Empty,
        ensures
            r.well_formed(),
            r.alive() == Map::<(int, int), usize>::empty(),
            r.population_spec() == 0,
            (forall|k: (int, int)| #[trigger] cells.slots().contains_key(k) ==> on_board(k, width, height))
                ==> r.slots() == cells.slots(),
            r.holds_neighbourhoods(),
            r.cols_spec() == width,
            r.rows_spec() == height,
            r.kind() == cells.kind(),
    {
        let list = cells.get_iter();
        let mut fits = true;
        let mut i: usize = 0;
        while i < list.len()
            invariant
                i <= list@.len(),
                valid_extent(width),
                valid_extent(height),
                fits == (forall|j: int| 0 <= j < i ==> on_board(key_of(#[trigger] list@[j]), width, height)),
            decreases list@.len() - i,
        {
            let (c, r) = (list[i].0, list[i].1);
            proof {
                lemma_wrap_axis_props(c as int, width);
                lemma_wrap_axis_props(r as int, height);
            }
            let ok = wrap_on(c, width) == c && wrap_on(r, height) == r;
            proof {
                if fits && ok {
                    assert forall|j: int| 0 <= j < i + 1 implies on_board(key_of(#[trigger] list@[j]), width, height) by {}
                }
            }
            fits = fits && ok;
            i = i + 1;
        }
        if fits {
            proof {
                assert forall|k: (int, int)| #[trigger] cells.slots().contains_key(k) implies on_board(k, width, height) by {
                    let j = choose|j: int| 0 <= j < list@.len() && #[trigger] key_of(list@[j]) == k;
                }
            }
            Board::from_fitting_store(cells, width, height)
        } else {
            let fresh = match cells {
                Store::Hashed(_) => Store::Hashed(HashBased::new()),
                Store::SymVec(_) => Store::SymVec(crate::vect::allocate(0, 0)),
            };
            proof {
                assert(fresh.slots() =~= Map::<(int, int), Cell>::empty());
                let j = choose|j: int| 0 <= j < list@.len() && !on_board(key_of(#[trigger] list@[j]), width, height);
                assert(cells.slots().contains_key(key_of(list@[j])));
            }
            Board::from_fitting_store(fresh, width, height)
        }
    }

    fn from_fitting_store(cells: Store, width: Option<usize>, height: Option<usize>) -> (r: Board)
        requires
            cells.well_formed(),
            valid_extent(width),
            valid_extent(height),
            forall|k: (int, int)| #[trigger] cells.slots().contains_key(k) ==> on_board(k, width, height) && cells.slots()[k] == Cell::Empty,
        ensures
            r.well_formed(),
            r.alive() == Map::<(int, int), usize>::empty(),
            r.slots() == cells.slots(),
            r.holds_neighbourhoods(),
            r.cols_spec() == width,
            r.rows_spec() == height,
            r.kind() == cells.kind(),
            r.population_spec() == 0,
    {
        let list = cells.get_iter();
        let mut col_lo: isize = 0;
        let mut col_hi: isize = 0;
        let mut row_lo: isize = 0;
        let mut row_hi: isize = 0;
        let mut i: usize = 0;
        while i < list.len()
            invariant
                i <= list@.len(),
                col_lo <= 0 <= col_hi,
                row_lo <= 0 <= row_hi,
                forall|j: int| 0 <= j < i ==> col_lo <= (#[trigger] list@[j]).0 <= col_hi && row_lo <= list@[j].1 <= row_hi,
            decreases list@.len() - i,
        {
            let (c, r, _) = list[i];
            if c < col_lo {
                col_lo = c;
            }
            if c > col_hi {
                col_hi = c;
            }
            if r < row_lo {
                row_lo = r;
            }
            if r > row_hi {
                row_hi = r;
            }
            i = i + 1;
        }
        let r = Board { cells, population: 0, cols: width, rows: height, col_lo, col_hi, row_lo, row_hi, gen_bound: 0 };
        proof {
            assert(r.alive() =~= Map::<(int, int), usize>::empty());
            r.cells.lemma_slots_finite();
            assert forall|k: (int, int)| #[trigger] r.slots().contains_key(k) implies r.col_lo <= k.0 <= r.col_hi
                && r.row_lo <= k.1 <= r.row_hi by {
                let j = choose|j: int| 0 <= j < list@.len() && #[trigger] key_of(list@[j]) == k;
                assert(col_lo <= list@[j].0 <= col_hi);
            }
        }
        r
    }

    /// Where a coordinate lands on this board.
    fn constrain_board(&self, col: isize, row: isize) -> (r: (isize, isize))
        requires
            self.well_formed(),
        ensures
            (r.0 as int, r.1 as int) == self.wrap(col as int, row as int),
            on_board((r.0 as int, r.1 as int), self.cols_spec(), self.rows_spec()),
    {
        proof {
            lemma_wrap_axis_props(col as int, self.cols);
            lemma_wrap_axis_props(row as int, self.rows);
        }
        (wrap_on(col, self.cols), wrap_on(row, self.rows))
    }

    /// Allocates the slot where a coordinate lands, leaving every cell as it was.
    pub fn ensure_cell(&mut self, col: isize, row: isize)
        requires
            old(self).well_formed(),
            isize::MIN < col < isize::MAX,
            isize::MIN < row < isize::MAX,
        ensures
            final(self).well_formed(),
            grown_to_hold(old(self).slots(), final(self).slots(), old(self).wrap(col as int, row as int)),
            final(self).alive() == old(self).alive(),
            final(self).cols_spec() == old(self).cols_spec(),
            final(self).rows_spec() == old(self).rows_spec(),
            final(self).kind() == old(self).kind(),
            final(self).population_spec() == old(self).population_spec(),
            forall|m: int| #![trigger final(self).slots_within(m)]
                margin_ok(m) && old(self).slots_within(m) && in_margin(col as int, m) && in_margin(row as int, m)
                    ==> final(self).slots_within(m),
    {
        let (c, r) = self.constrain_board(col, row);
        proof {
            lemma_wrap_axis_props(col as int, self.cols);
            lemma_wrap_axis_props(row as int, self.rows);
            assert(isize::MIN < c < isize::MAX) by {
                if let Some(n) = self.cols {
                    assert(n / 2 <= isize::MAX / 2);
                }
            }
            assert(isize::MIN < r < isize::MAX) by {
                if let Some(n) = self.rows {
                    assert(n / 2 <= isize::MAX / 2);
                }
            }
        }
        let ghost old_self = *self;
        self.cells.ensure_cell(c, r);
        if c < self.col_lo {
            self.col_lo = c;
        }
        if c > self.col_hi {
            self.col_hi = c;
        }
        if r < self.row_lo {
            self.row_lo = r;
        }
        if r > self.row_hi {
            self.row_hi = r;
        }
        proof {
            assert(self.alive() =~= old_self.alive());
            assert forall|j: (int, int)| #[trigger] self.slots().contains_key(j) implies on_board(j, self.cols, self.rows) by {
                if !old_self.slots().contains_key(j) {
                    lemma_wrap_axis_props(0, self.cols);
                }
            }
            assert forall|m: int| margin_ok(m) && old_self.slots_within(m) && in_margin(col as int, m) && in_margin(row as int, m)
                implies #[trigger] self.slots_within(m) by {
                lemma_wrap_margin(col as int, self.cols, m);
                lemma_wrap_margin(row as int, self.rows, m);
                assert forall|j: (int, int)| #[trigger] self.slots().contains_key(j) implies in_margin(j.0, m) && in_margin(j.1, m) by {
                    if !old_self.slots().contains_key(j) {
                    }
                }
            }
        }
    }

    /// Makes the cell where a coordinate lands alive with the given
    /// generation, and allocates its eight neighbours. A cell already alive
    /// is left as it is.
    pub fn born_at_gen(&mut self, col: isize, row: isize, gen: usize)
        requires
            old(self).well_formed(),
            coord_in_reach(col as int),
            coord_in_reach(row as int),
            old(self).population_spec() < usize::MAX,
        ensures
            final(self).well_formed(),
            final(self).cols_spec() == old(self).cols_spec(),
            final(self).rows_spec() == old(self).rows_spec(),
            final(self).kind() == old(self).kind(),
            old(self).alive().contains_key(old(self).wrap(col as int, row as int)) ==> final(self).alive()
                == old(self).alive() && final(self).population_spec() == old(self).population_spec(),
            !old(self).alive().contains_key(old(self).wrap(col as int, row as int)) ==> final(self).alive()
                == old(self).alive().insert(old(self).wrap(col as int, row as int), gen)
                && final(self).population_spec() == old(self).population_spec() + 1,
            old(self).holds_neighbourhoods() ==> final(self).holds_neighbourhoods(),
            forall|k: (int, int)| #[trigger] old(self).slots().contains_key(k) ==> final(self).slots().contains_key(k),
            forall|m: int| #![trigger final(self).slots_within(m)]
                margin_ok(m) && old(self).slots_within(m) && in_margin(col - 1, m) && in_margin(col + 1, m)
                    && in_margin(row - 1, m) && in_margin(row + 1, m) ==> final(self).slots_within(m),
    {
        if !self.is_alive(col, row) {
            let ghost old_self = *self;
            let ghost k = self.wrap(col as int, row as int);
            self.ensure_cell(col, row);
            let ghost b1 = *self;
            // a cell may be born next to this one at the next step, so
            // every neighbour gets a slot now
            self.ensure_cell(col - 1, row);
            let ghost b2 = *self;
            self.ensure_cell(col - 1, row - 1);
            let ghost b3 = *self;
            self.ensure_cell(col, row - 1);
            let ghost b4 = *self;
            self.ensure_cell(col + 1, row - 1);
            let ghost b5 = *self;
            self.ensure_cell(col + 1, row);
            let ghost b6 = *self;
            self.ensure_cell(col + 1, row + 1);
            let ghost b7 = *self;
            self.ensure_cell(col, row + 1);
            let ghost b8 = *self;
            self.ensure_cell(col - 1, row + 1);
            let ghost mid = *self;
            proof {
                assert forall|m: int| margin_ok(m) && old_self.slots_within(m) && in_margin(col - 1, m) && in_margin(col + 1, m)
                    && in_margin(row - 1, m) && in_margin(row + 1, m) implies #[trigger] mid.slots_within(m) by {
                    assert(b1.slots_within(m));
                    assert(b2.slots_within(m));
                    assert(b3.slots_within(m));
                    assert(b4.slots_within(m));
                    assert(b5.slots_within(m));
                    assert(b6.slots_within(m));
                    assert(b7.slots_within(m));
                    assert(b8.slots_within(m));
                }
            }
            let (c, r) = self.constrain_board(col, row);
            proof {
                self.lemma_alive_finite();
                assert(self.slots().contains_key(k));
                assert(!self.alive().contains_key(k));
            }
            self.population = self.population + 1;
            if gen > self.gen_bound {
                self.gen_bound = gen;
            }
            self.cells.set_cell(c, r, Cell::Occupied { gen: gen });
            proof {
                assert(self.alive() =~= old_self.alive().insert(k, gen));
                assert(self.slots().dom() =~= mid.slots().dom());
                assert forall|m: int| mid.slots_within(m) implies #[trigger] self.slots_within(m) by {
                    assert forall|j: (int, int)| #[trigger] self.slots().contains_key(j) implies in_margin(j.0, m) && in_margin(j.1, m) by {
                        assert(mid.slots().contains_key(j));
                    }
                }
                assert forall|i: int| 0 <= i < 8 implies #[trigger] self.slots().contains_key(
                    wrap_key(shift(k, offset(i)), self.cols, self.rows),
                ) by {
                    lemma_wrap_axis_shift(col as int, offset(i).0, self.cols);
                    lemma_wrap_axis_shift(row as int, offset(i).1, self.rows);
                    assert(wrap_key(shift(k, offset(i)), self.cols, self.rows) == self.wrap(
                        col + offset(i).0,
                        row + offset(i).1,
                    ));
                }
                if old_self.holds_neighbourhoods() {
                    assert forall|k2: (int, int), i: int|
                        self.alive().contains_key(k2) && 0 <= i < 8 implies #[trigger] self.slots().contains_key(
                        wrap_key(shift(k2, offset(i)), self.cols, self.rows),
                    ) by {
                        if k2 != k {
                            assert(old_self.alive().contains_key(k2));
                            assert(old_self.slots().contains_key(wrap_key(shift(k2, offset(i)), self.cols, self.rows)));
                        }
                    }
                }
            }
        }
    }

    /// `born_at_gen` with generation 1.
    pub fn born_at(&mut self, col: isize, row: isize)
        requires
            old(self).well_formed(),
            coord_in_reach(col as int),
            coord_in_reach(row as int),
            old(self).population_spec() < usize::MAX,
        ensures
            final(self).well_formed(),
            final(self).cols_spec() == old(self).cols_spec(),
            final(self).rows_spec() == old(self).rows_spec(),
            final(self).kind() == old(self).kind(),
            old(self).alive().contains_key(old(self).wrap(col as int, row as int)) ==> final(self).alive()
                == old(self).alive() && final(self).population_spec() == old(self).population_spec(),
            !old(self).alive().contains_key(old(self).wrap(col as int, row as int)) ==> final(self).alive()
                == old(self).alive().insert(old(self).wrap(col as int, row as int), 1)
                && final(self).population_spec() == old(self).population_spec() + 1,
            old(self).holds_neighbourhoods() ==> final(self).holds_neighbourhoods(),
            forall|k: (int, int)| #[trigger] old(self).slots().contains_key(k) ==> final(self).slots().contains_key(k),
            forall|m: int| #![trigger final(self).slots_within(m)]
                margin_ok(m) && old(self).slots_within(m) && in_margin(col - 1, m) && in_margin(col + 1, m)
                    && in_margin(row - 1, m) && in_margin(row + 1, m) ==> final(self).slots_within(m),
    {
        self.born_at_gen(col, row, 1);
    }

    /// Kills the cell where a coordinate lands; a dead cell stays dead and
    /// the population stays as it is.
    pub fn kill_at(&mut self, col: isize, row: isize)
        requires
            old(self).well_formed(),
        ensures
            final(self).well_formed(),
            final(self).alive() == old(self).alive().remove(old(self).wrap(col as int, row as int)),
            final(self).cols_spec() == old(self).cols_spec(),
            final(self).rows_spec() == old(self).rows_spec(),
            final(self).kind() == old(self).kind(),
    {
        if self.is_alive(col, row) {
            let ghost old_self = *self;
            let ghost k = self.wrap(col as int, row as int);
            let (c, r) = self.constrain_board(col, row);
            proof {
                self.lemma_alive_finite();
            }
            self.population = self.population - 1;
            self.cells.rm_cell(c, r);
            proof {
                let a = self.slots().remove(k);
                let b = old_self.slots().remove(k);
                assert(a == b);
                assert(self.alive() =~= old_self.alive().remove(k)) by {
                    assert forall|k2: (int, int)| k2 != k && #[trigger] old_self.slots().contains_key(k2)
                        implies self.slots().contains_key(k2) && self.slots()[k2] == old_self.slots()[k2] by {
                        assert(b.contains_key(k2) && b[k2] == old_self.slots()[k2]);
                        assert(a.contains_key(k2) && a[k2] == self.slots()[k2]);
                    }
                    assert forall|k2: (int, int)| k2 != k && #[trigger] self.slots().contains_key(k2)
                        implies old_self.slots().contains_key(k2) by {
                        assert(a.contains_key(k2));
                        assert(b.contains_key(k2));
                    }
                }
                assert(self.alive().dom() =~= old_self.alive().dom().remove(k));
                assert forall|k2: (int, int)| #[trigger] self.slots().contains_key(k2) implies old_self.slots().contains_key(k2) by {
                    if k2 != k {
                        assert(a.contains_key(k2));
                        assert(b.contains_key(k2));
                    }
                }
            }
        } else {
            assert(self.alive() =~= old(self).alive().remove(self.wrap(col as int, row as int)));
        }
    }

    /// Whether the cell where a coordinate lands is alive.
    pub fn is_alive(&self, col: isize, row: isize) -> (r: bool)
        requires
            self.well_formed(),
        ensures
            r == self.alive().contains_key(self.wrap(col as int, row as int)),
    {
        match self.get_cell(col, row) {
            Cell::Empty => false,
            Cell::Occupied { .. } => true,
        }
    }

    /// The cell where a coordinate lands; `Empty` where nothing is allocated.
    pub fn get_cell(&self, col: isize, row: isize) -> (r: Cell)
        requires
            self.well_formed(),
        ensures
            r == (if self.alive().contains_key(self.wrap(col as int, row as int)) {
                Cell::Occupied { gen: self.alive()[self.wrap(col as int, row as int)] }
            } else {
                Cell::Empty
            }),
    {
        let (c, r) = self.constrain_board(col, row);
        match self.cells.get_cell(c, r) {
            Some(x) => match x {
                Cell::Occupied { .. } => x,
                Cell::Empty => Cell::Empty,
            },
            None => Cell::Empty,
        }
    }

    /// The generation of the cell where a coordinate lands; 0 if it is dead.
    pub fn get_cell_gen(&self, col: isize, row: isize) -> (r: usize)
        requires
            self.well_formed(),
        ensures
            r == (if self.alive().contains_key(self.wrap(col as int, row as int)) {
                self.alive()[self.wrap(col as int, row as int)]
            } else {
                0
            }),
    {
        match self.get_cell(col, row) {
            Cell::Occupied { gen } => gen,
            Cell::Empty => 0,
        }
    }

    /// Whether each of the eight neighbours is alive, in the order W, NW,
    /// N, NE, E, SE, S, SW.
    pub fn get_vicinity(&self, col: isize, row: isize) -> (r: Vec<bool>)
        requires
            self.well_formed(),
            isize::MIN < col < isize::MAX,
            isize::MIN < row < isize::MAX,
        ensures
            r@.len() == 8,
            forall|i: int| 0 <= i < 8 ==> #[trigger] r@[i] == self.alive().contains_key(
                wrap_key(shift((col as int, row as int), offset(i)), self.cols_spec(), self.rows_spec()),
            ),
    {
        let neighbours = vec![
            self.is_alive(col - 1, row),
            self.is_alive(col - 1, row - 1),
            self.is_alive(col, row - 1),
            self.is_alive(col + 1, row - 1),
            self.is_alive(col + 1, row),
            self.is_alive(col + 1, row + 1),
            self.is_alive(col, row + 1),
            self.is_alive(col - 1, row + 1),
        ];
        neighbours
    }

    pub fn get_cols(&self) -> (r: Option<usize>)
        ensures
            r == self.cols_spec(),
    {
        self.cols
    }

    pub fn get_rows(&self) -> (r: Option<usize>)
        ensures
            r == self.rows_spec(),
    {
        self.rows
    }

    /// The number of live cells.
    pub fn get_population(&self) -> (r: usize)
        requires
            self.well_formed(),
        ensures
            r == self.alive().dom().len(),
            r == self.population_spec(),
    {
        self.population
    }

    /// Which store the board uses.
    pub fn get_type(&self) -> (r: BoardType)
        ensures
            r == self.kind(),
    {
        match self.cells {
            Store::Hashed(_) => BoardType::Hashed,
            Store::SymVec(_) => BoardType::SymVec,
        }
    }

    /// Every allocated slot once, with whether it is alive and its generation.
    pub fn iter(&self) -> (r: Vec<CellDesc>)
        requires
            self.well_formed(),
        ensures
            lists_cells(r@, self.slots()),
    {
        let list = self.cells.get_iter();
        let mut out: Vec<CellDesc> = Vec::new();
        let mut i: usize = 0;
        while i < list.len()
            invariant
                self.well_formed(),
                lists_slots(list@, self.slots()),
                i <= list@.len(),
                out@.len() == i,
                forall|j: int| 0 <= j < i ==> desc_key(#[trigger] out@[j]) == key_of(list@[j])
                    && out@[j].is_alive == is_occupied(list@[j].2) && out@[j].gen == gen_of(list@[j].2),
            decreases list@.len() - i,
        {
            let (col, row, cell) = list[i];
            let gen = match cell {
                Cell::Occupied { gen } => gen,
                Cell::Empty => 0,
            };
            proof {
                assert(self.slots().contains_key(key_of(list@[i as int])));
                lemma_wrap_axis_props(col as int, self.cols);
                lemma_wrap_axis_props(row as int, self.rows);
            }
            let is_alive = self.is_alive(col, row);
            out.push(CellDesc { coord: Coord { col, row }, gen, is_alive });
            i = i + 1;
        }
        proof {
            assert forall|k: (int, int)| #[trigger] self.slots().contains_key(k) implies exists|j: int|
                0 <= j < out@.len() && #[trigger] desc_key(out@[j]) == k by {
                let j = choose|j: int| 0 <= j < list@.len() && #[trigger] key_of(list@[j]) == k;
                assert(desc_key(out@[j]) == k);
            }
            assert forall|a: int, b: int| 0 <= a < out@.len() && 0 <= b < out@.len() && a != b
                implies desc_key(#[trigger] out@[a]) != desc_key(#[trigger] out@[b]) by {
                assert(key_of(list@[a]) != key_of(list@[b]));
            }
            assert forall|a: int| 0 <= a < out@.len() implies #[trigger] self.slots().contains_key(desc_key(out@[a]))
                && out@[a].is_alive == is_occupied(self.slots()[desc_key(out@[a])])
                && out@[a].gen == gen_of(self.slots()[desc_key(out@[a])]) by {
                assert(self.slots().contains_key(key_of(list@[a])));
            }
        }
        out
    }

    /// An empty board with the given store kind and extents.
    pub fn empty(kind: BoardType, cols: Option<usize>, rows: Option<usize>) -> (r: Board)
        requires
            valid_extent(cols),
            valid_extent(rows),
        ensures
            r.well_formed(),
            r.alive() == Map::<(int, int), usize>::empty(),
            r.holds_neighbourhoods(),
            r.cols_spec() == cols,
            r.rows_spec() == rows,
            r.kind() == kind,
            r.population_spec() == 0,
            forall|m: int| #[trigger] r.slots_within(m),
    {
        let cells = match kind {
            BoardType::Hashed => Store::Hashed(HashBased::new()),
            // a store with no slots fits a board of any extent
            BoardType::SymVec => Store::SymVec(crate::vect::allocate(0, 0)),
        };
        proof {
            assert(cells.slots() =~= Map::<(int, int), Cell>::empty());
        }
        Board::from_fitting_store(cells, cols, rows)
    }

    /// The next generation: every allocated slot is checked against the
    /// rule, and the survivors and births are placed on a fresh board of
    /// the same kind and extents.
    pub fn next_generation(&self) -> (r: Board)
        requires
            self.well_formed(),
            self.slots_in_reach(),
            forall|k: (int, int)| #[trigger] self.alive().contains_key(k) ==> self.alive()[k] < usize::MAX,
        ensures
            r.well_formed(),
            r.alive() == self.next_alive(),
            self.holds_neighbourhoods() ==> r.alive() == crate::life::life_step(self.alive(), self.cols_spec(), self.rows_spec()),
            r.holds_neighbourhoods(),
            forall|m: int| #![trigger r.slots_within(m)] margin_ok(m) && self.slots_within(m + 1) ==> r.slots_within(m),
            r.cols_spec() == self.cols_spec(),
            r.rows_spec() == self.rows_spec(),
            r.kind() == self.kind(),
    {
        proof {
            if self.holds_neighbourhoods() {
                crate::life::lemma_step_slots_is_life(self.slots(), self.cols, self.rows);
            }
        }
        let descs = self.iter();
        self.next_generation_from(&descs)
    }

    /// The next generation, from a listing of this board's slots as `iter` gives it.
    pub fn next_generation_from(&self, descs: &Vec<CellDesc>) -> (r: Board)
        requires
            self.well_formed(),
            self.slots_in_reach(),
            forall|k: (int, int)| #[trigger] self.alive().contains_key(k) ==> self.alive()[k] < usize::MAX,
            lists_cells(descs@, self.slots()),
        ensures
            r.well_formed(),
            r.alive() == self.next_alive(),
            r.holds_neighbourhoods(),
            forall|m: int| #![trigger r.slots_within(m)] margin_ok(m) && self.slots_within(m + 1) ==> r.slots_within(m),
            r.cols_spec() == self.cols_spec(),
            r.rows_spec() == self.rows_spec(),
            r.kind() == self.kind(),
    {
        let mut next_gen = Board::empty(self.get_type(), self.cols, self.rows);
        let ghost target = self.next_alive();
        let mut i: usize = 0;
        while i < descs.len()
            invariant
                self.well_formed(),
                self.slots_in_reach(),
                forall|k: (int, int)| #[trigger] self.alive().contains_key(k) ==> self.alive()[k] < usize::MAX,
                target == self.next_alive(),
                lists_cells(descs@, self.slots()),
                i <= descs@.len(),
                next_gen.well_formed(),
                next_gen.holds_neighbourhoods(),
                next_gen.cols_spec() == self.cols_spec(),
                next_gen.rows_spec() == self.rows_spec(),
                next_gen.kind() == self.kind(),
                next_gen.population_spec() <= i,
                forall|m: int| #![trigger next_gen.slots_within(m)] margin_ok(m) && self.slots_within(m + 1) ==> next_gen.slots_within(m),
                forall|j: int| 0 <= j < i ==> (target.contains_key(desc_key(#[trigger] descs@[j]))
                    <==> next_gen.alive().contains_key(desc_key(descs@[j]))),
                forall|k: (int, int)| #[trigger] next_gen.alive().contains_key(k) ==> target.contains_key(k)
                    && next_gen.alive()[k] == target[k] && exists|j: int| 0 <= j < i && desc_key(#[trigger] descs@[j]) == k,
            decreases descs@.len() - i,
        {
            let d = descs[i];
            let col = d.coord.col;
            let row = d.coord.row;
            let ghost k = desc_key(d);
            proof {
                assert(self.slots().contains_key(k));
                self.cells.lemma_slots_finite();
                lemma_wrap_axis_props(k.0, self.cols);
                lemma_wrap_axis_props(k.1, self.rows);
                assert(!next_gen.alive().contains_key(k)) by {
                    if next_gen.alive().contains_key(k) {
                        let j = choose|j: int| 0 <= j < i && desc_key(#[trigger] descs@[j]) == k;
                        assert(desc_key(descs@[j]) != desc_key(descs@[i as int]));
                    }
                }
            }
            let neighbours = self.get_vicinity(col, row);
            let mut cnt: usize = 0;
            let mut n: usize = 0;
            while n < 8
                invariant
                    n <= 8,
                    neighbours@.len() == 8,
                    cnt <= n,
                    cnt == live_neighbours_upto(self.alive(), k, self.cols_spec(), self.rows_spec(), n as int),
                    forall|m: int| 0 <= m < 8 ==> #[trigger] neighbours@[m] == self.alive().contains_key(
                        wrap_key(shift(k, offset(m)), self.cols_spec(), self.rows_spec()),
                    ),
                decreases 8 - n,
            {
                if neighbours[n] {
                    cnt = cnt + 1;
                }
                n = n + 1;
            }
            proof {
                assert(self.wrap(col as int, row as int) == k);
                if d.is_alive {
                    assert(self.alive().contains_key(k));
                }
            }
            let ghost before_birth = next_gen;
            if d.is_alive {
                // a live cell with two or three live neighbours survives;
                // with fewer or more it dies
                if cnt == 2 || cnt == 3 {
                    next_gen.born_at_gen(col, row, d.gen + 1);
                }
            } else {
                // an empty cell with exactly three live neighbours is born
                if cnt == 3 {
                    next_gen.born_at(col, row);
                }
            }
            proof {
                assert forall|m: int| margin_ok(m) && self.slots_within(m + 1) implies #[trigger] next_gen.slots_within(m) by {
                    assert(before_birth.slots_within(m));
                    assert(in_margin(k.0, m + 1) && in_margin(k.1, m + 1));
                }
                assert forall|j: int| 0 <= j < i + 1 implies (target.contains_key(desc_key(#[trigger] descs@[j]))
                    <==> next_gen.alive().contains_key(desc_key(descs@[j]))) by {
                    if j < i {
                        assert(desc_key(descs@[j]) != k);
                    }
                }
                assert forall|k2: (int, int)| #[trigger] next_gen.alive().contains_key(k2) implies target.contains_key(k2)
                    && next_gen.alive()[k2] == target[k2] && exists|j: int| 0 <= j < i + 1 && desc_key(#[trigger] descs@[j]) == k2 by {
                    if k2 == k {
                        assert(desc_key(descs@[i as int]) == k2);
                    }
                }
            }
            i = i + 1;
        }
        proof {
            assert(next_gen.alive() =~= target) by {
                assert forall|k: (int, int)| #[trigger] target.contains_key(k) implies next_gen.alive().contains_key(k) by {
                    let j = choose|j: int| 0 <= j < descs@.len() && #[trigger] desc_key(descs@[j]) == k;
                }
            }
        }
        next_gen
    }

    /// Makes every listed coordinate alive (generation 1), in order.
    pub fn set_predefined(&mut self, board_config: Vec<Coord>)
        requires
            old(self).well_formed(),
            forall|i: int| 0 <= i < board_config@.len() ==> coord_in_reach((#[trigger] board_config@[i]).col as int)
                && coord_in_reach(board_config@[i].row as int),
            old(self).population_spec() + board_config@.len() <= usize::MAX,
        ensures
            final(self).well_formed(),
            final(self).alive() == seeded(old(self).alive(), board_config@, old(self).cols_spec(), old(self).rows_spec()),
            final(self).cols_spec() == old(self).cols_spec(),
            final(self).rows_spec() == old(self).rows_spec(),
            final(self).kind() == old(self).kind(),
            old(self).holds_neighbourhoods() ==> final(self).holds_neighbourhoods(),
            forall|k: (int, int)| #[trigger] final(self).alive().contains_key(k) ==> final(self).alive()[k] == 1
                || (old(self).alive().contains_key(k) && final(self).alive()[k] == old(self).alive()[k]),
            forall|m: int| #![trigger final(self).slots_within(m)]
                margin_ok(m) && old(self).slots_within(m) && (forall|i: int| 0 <= i < board_config@.len() ==> in_margin(
                    (#[trigger] board_config@[i]).col as int,
                    m + 1,
                ) && in_margin(board_config@[i].row as int, m + 1)) ==> final(self).slots_within(m),
    {
        let ghost start = self.alive();
        let ghost start_board = *self;
        let mut i: usize = 0;
        while i < board_config.len()
            invariant
                self.well_formed(),
                i <= board_config@.len(),
                forall|j: int| 0 <= j < board_config@.len() ==> coord_in_reach((#[trigger] board_config@[j]).col as int)
                    && coord_in_reach(board_config@[j].row as int),
                self.population_spec() <= old(self).population_spec() + i,
                old(self).population_spec() + board_config@.len() <= usize::MAX,
                self.alive() == seeded(start, board_config@.subrange(0, i as int), self.cols_spec(), self.rows_spec()),
                self.cols_spec() == old(self).cols_spec(),
                self.rows_spec() == old(self).rows_spec(),
                self.kind() == old(self).kind(),
                start == old(self).alive(),
                start_board == *old(self),
                old(self).holds_neighbourhoods() ==> self.holds_neighbourhoods(),
                forall|k: (int, int)| #[trigger] self.alive().contains_key(k) ==> self.alive()[k] == 1
                    || (start.contains_key(k) && self.alive()[k] == start[k]),
                forall|m: int| #![trigger self.slots_within(m)]
                    margin_ok(m) && start_board.slots_within(m) && (forall|j: int| 0 <= j < board_config@.len() ==> in_margin(
                        (#[trigger] board_config@[j]).col as int,
                        m + 1,
                    ) && in_margin(board_config@[j].row as int, m + 1)) ==> self.slots_within(m),
            decreases board_config@.len() - i,
        {
            let c = board_config[i];
            let ghost before = *self;
            self.born_at(c.col, c.row);
            proof {
                assert forall|m: int| margin_ok(m) && start_board.slots_within(m) && (forall|j: int| 0 <= j < board_config@.len() ==> in_margin(
                    (#[trigger] board_config@[j]).col as int,
                    m + 1,
                ) && in_margin(board_config@[j].row as int, m + 1)) implies #[trigger] self.slots_within(m) by {
                    assert(before.slots_within(m));
                    assert(in_margin(board_config@[i as int].col as int, m + 1));
                }
            }
            proof {
                assert(board_config@.subrange(0, i + 1).drop_last() =~= board_config@.subrange(0, i as int));
            }
            i = i + 1;
        }
        assert(board_config@.subrange(0, i as int) =~= board_config@);
    }
}

/// The live cells after seeding each listed coordinate in turn: a
/// coordinate already alive is left as it is, a new one gets generation 1.
pub open spec fn seeded(
    alive: Map<(int, int), usize>,
    coords: Seq<Coord>,
    cols: Option<usize>,
    rows: Option<usize>,
) -> Map<(int, int), usize>
    decreases coords.len(),
{
    if coords.len() == 0 {
        alive
    } else {
        let before = seeded(alive, coords.drop_last(), cols, rows);
        let k = wrap_key((coords.last().col as int, coords.last().row as int), cols, rows);
        if before.contains_key(k) {
            before
        } else {
            before.insert(k, 1)
        }
    }
}

/// Which store a board uses does not show in how it evolves: two boards
/// with the same extents and the same live cells, each with the
/// neighbourhoods of its live cells allocated, step to the same live cells.
pub proof fn lemma_backend_equivalence(a: &Board, b: &Board)
    requires
        a.well_formed(),
        b.well_formed(),
        a.holds_neighbourhoods(),
        b.holds_neighbourhoods(),
        a.alive() == b.alive(),
        a.cols_spec() == b.cols_spec(),
        a.rows_spec() == b.rows_spec(),
    ensures
        a.next_alive() == b.next_alive(),
        a.next_alive() == crate::life::life_step(a.alive(), a.cols_spec(), a.rows_spec()),
{
    crate::life::lemma_step_slots_is_life(a.slots(), a.cols, a.rows);
    crate::life::lemma_step_slots_is_life(b.slots(), b.cols, b.rows);
}

} // verus!
