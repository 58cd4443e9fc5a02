//! The dense cell store: one signed-index vector of rows, each a
//! signed-index vector of cells. Every slot inside the allocated range
//! exists; the store grows outward on demand and never shrinks.
use vstd::prelude::*;
use crate::symvec::SymVec;
use crate::cells::{in_isize, row_major_before, BoardInternal, Cell, CellIterType, key_of};

verus! {

/// Dense store.
pub struct SymVecBased {
    cells: SymVec<SymVec<Cell>>,
}

/// The rectangle `[0, cols) x [0, rows)` of empty slots.
pub open spec fn empty_rect(cols: int, rows: int) -> Map<(int, int), Cell> {
    Map::new(|k: (int, int)| 0 <= k.0 < cols && 0 <= k.1 < rows, |k: (int, int)| Cell::Empty)
}

impl SymVecBased {
    spec fn lens_fit(&self) -> bool {
        &&& self.cells.vec_pos@.len() <= isize::MAX
        &&& self.cells.vec_neg@.len() <= isize::MAX
        &&& forall|r: int| #[trigger]
            self.cells.has_index(r) ==> self.cells.at(r).vec_pos@.len() <= isize::MAX
                && self.cells.at(r).vec_neg@.len() <= isize::MAX
    }

    /// A store whose slots are the square `[0, 2) x [0, 2)`, all empty.
    pub fn new() -> (r: SymVecBased)
        ensures
            r.well_formed(),
            r.slots() == empty_rect(2, 2),
    {
        allocate(2, 2)
    }

    /// Adds one empty slot at the outer end (positive or negative) of an existing row.
    fn grow_row(&mut self, row: isize, positive: bool)
        requires
            old(self).well_formed(),
            old(self).cells.has_index(row as int),
            positive ==> old(self).cells.at(row as int).vec_pos@.len() < isize::MAX,
            !positive ==> old(self).cells.at(row as int).vec_neg@.len() < isize::MAX,
        ensures
            final(self).well_formed(),
            final(self).cells.vec_pos@.len() == old(self).cells.vec_pos@.len(),
            final(self).cells.vec_neg@.len() == old(self).cells.vec_neg@.len(),
            positive ==> final(self).cells.at(row as int).vec_pos@.len() == old(self).cells.at(row as int).vec_pos@.len() + 1,
            positive ==> final(self).cells.at(row as int).vec_neg@.len() == old(self).cells.at(row as int).vec_neg@.len(),
            !positive ==> final(self).cells.at(row as int).vec_neg@.len() == old(self).cells.at(row as int).vec_neg@.len() + 1,
            !positive ==> final(self).cells.at(row as int).vec_pos@.len() == old(self).cells.at(row as int).vec_pos@.len(),
            final(self).slots() == old(self).slots().insert(
                (
                    if positive {
                        old(self).cells.at(row as int).vec_pos@.len() as int
                    } else {
                        -(old(self).cells.at(row as int).vec_neg@.len() as int) - 1
                    },
                    row as int,
                ),
                Cell::Empty,
            ),
    {
        let ghost old_self = *self;
        let mut line = self.cells.replace(row, SymVec::new());
        if positive {
            line.push_front(Cell::Empty);
        } else {
            line.push_back(Cell::Empty);
        }
        let ghost new_line = line;
        self.cells.set(row, line);
        proof {
            let k = (
                if positive {
                    old_self.cells.at(row as int).vec_pos@.len() as int
                } else {
                    -(old_self.cells.at(row as int).vec_neg@.len() as int) - 1
                },
                row as int,
            );
            assert(self.cells.at(row as int) == new_line);
            assert(self.slots() =~= old_self.slots().insert(k, Cell::Empty)) by {
                assert forall|k2: (int, int)| #[trigger] self.slots().contains_key(k2) && k2 != k
                    implies old_self.slots().contains_key(k2) && self.slots()[k2] == old_self.slots()[k2] by {
                    assert(self.cells.has_index(k2.1));
                }
                assert forall|k2: (int, int)| #[trigger] old_self.slots().contains_key(k2)
                    implies self.slots().contains_key(k2) by {
                    assert(old_self.cells.has_index(k2.1));
                }
            }
            assert forall|r: int| #[trigger] self.cells.has_index(r) implies self.cells.at(r).vec_pos@.len()
                <= isize::MAX && self.cells.at(r).vec_neg@.len() <= isize::MAX by {
                assert(old_self.cells.has_index(r));
            }
        }
    }

    /// Adds an empty row at the positive or the negative end.
    fn add_row(&mut self, positive: bool)
        requires
            old(self).well_formed(),
            positive ==> old(self).cells.vec_pos@.len() < isize::MAX,
            !positive ==> old(self).cells.vec_neg@.len() < isize::MAX,
        ensures
            final(self).well_formed(),
            final(self).slots() == old(self).slots(),
            positive ==> final(self).cells.vec_pos@.len() == old(self).cells.vec_pos@.len() + 1,
            positive ==> final(self).cells.vec_neg@.len() == old(self).cells.vec_neg@.len(),
            !positive ==> final(self).cells.vec_neg@.len() == old(self).cells.vec_neg@.len() + 1,
            !positive ==> final(self).cells.vec_pos@.len() == old(self).cells.vec_pos@.len(),
            forall|r: int| #[trigger] old(self).cells.has_index(r) ==> final(self).cells.at(r) == old(self).cells.at(r),
            positive ==> final(self).cells.at(old(self).cells.vec_pos@.len() as int).vec_pos@.len() == 0,
            positive ==> final(self).cells.at(old(self).cells.vec_pos@.len() as int).vec_neg@.len() == 0,
    {
        let ghost old_self = *self;
        if positive {
            self.cells.push_front(SymVec::new());
        } else {
            self.cells.push_back(SymVec::new());
        }
        proof {
            assert forall|r: int| #[trigger] old_self.cells.has_index(r) implies self.cells.at(r) == old_self.cells.at(r) by {}
            assert(self.slots() =~= old_self.slots()) by {
                assert forall|k2: (int, int)| #[trigger] self.slots().contains_key(k2)
                    implies old_self.slots().contains_key(k2) by {
                    if !old_self.cells.has_index(k2.1) {
                        assert(self.cells.at(k2.1).vec_pos@.len() == 0);
                    }
                }
            }
            assert forall|r: int| #[trigger] self.cells.has_index(r) implies self.cells.at(r).vec_pos@.len()
                <= isize::MAX && self.cells.at(r).vec_neg@.len() <= isize::MAX by {
                if old_self.cells.has_index(r) {
                } else {
                    assert(self.cells.at(r).vec_pos@.len() == 0);
                }
            }
        }
    }
}

/// A dense store whose slots are the rectangle `[0, cols) x [0, rows)`, all empty.
pub fn allocate(cols: usize, rows: usize) -> (r: SymVecBased)
    requires
        cols <= isize::MAX,
        rows <= isize::MAX,
    ensures
        r.well_formed(),
        r.slots() == empty_rect(cols as int, rows as int),
{
    let mut tmp = SymVecBased { cells: SymVec::new() };
    assert(tmp.slots() =~= Map::<(int, int), Cell>::empty());
    let mut r: usize = 0;
    while r < rows
        invariant
            r <= rows <= isize::MAX,
            cols <= isize::MAX,
            tmp.well_formed(),
            tmp.cells.vec_pos@.len() == r,
            tmp.cells.vec_neg@.len() == 0,
            tmp.slots() == empty_rect(cols as int, r as int),
        decreases rows - r,
    {
        tmp.add_row(true);
        let mut c: usize = 0;
        while c < cols
            invariant
                r < rows <= isize::MAX,
                c <= cols <= isize::MAX,
                tmp.well_formed(),
                tmp.cells.vec_pos@.len() == r + 1,
                tmp.cells.vec_neg@.len() == 0,
                tmp.cells.at(r as int).vec_pos@.len() == c,
                tmp.cells.at(r as int).vec_neg@.len() == 0,
                tmp.slots() == Map::new(
                    |k: (int, int)| 0 <= k.0 < cols && 0 <= k.1 < r || 0 <= k.0 < c && k.1 == r,
                    |k: (int, int)| Cell::Empty,
                ),
            decreases cols - c,
        {
            let ghost before = tmp.slots();
            tmp.grow_row(r as isize, true);
            c = c + 1;
            assert(tmp.slots() =~= Map::new(
                |k: (int, int)| 0 <= k.0 < cols && 0 <= k.1 < r || 0 <= k.0 < c && k.1 == r,
                |k: (int, int)| Cell::Empty,
            ));
        }
        r = r + 1;
        assert(tmp.slots() =~= empty_rect(cols as int, r as int));
    }
    tmp
}

/// `list` holds slots of `slots` with their contents, in strictly increasing row-major order.
spec fn sorted_slots(list: Seq<CellIterType>, slots: Map<(int, int), Cell>) -> bool {
    &&& forall|i: int|
        0 <= i < list.len() ==> #[trigger] slots.contains_key(key_of(list[i])) && slots[key_of(
            list[i],
        )] == list[i].2
    &&& forall|a: int, b: int|
        0 <= a < b < list.len() ==> row_major_before(key_of(#[trigger] list[a]), key_of(#[trigger] list[b]))
}

impl BoardInternal for SymVecBased {
    closed spec fn slots(&self) -> Map<(int, int), Cell> {
        Map::new(
            |k: (int, int)| self.cells.has_index(k.1) && self.cells.at(k.1).has_index(k.0),
            |k: (int, int)| self.cells.at(k.1).at(k.0),
        )
    }

    open spec fn touched_only(&self) -> bool {
        false
    }

    closed spec fn well_formed(&self) -> bool {
        &&& self.lens_fit()
        &&& self.slots().dom().finite()
    }

    proof fn lemma_slots_finite(&self) {
        assert forall|k: (int, int)| #[trigger] self.slots().contains_key(k) implies in_isize(k) by {
            assert(self.cells.has_index(k.1));
        }
    }

    fn get_cell(&self, col: isize, row: isize) -> (r: Option<Cell>) {
        if !self.cells.is_available(row) || !self.cells.get(row).is_available(col) {
            None
        } else {
            Some(*self.cells.get(row).get(col))
        }
    }

    fn set_cell(&mut self, col: isize, row: isize, val: Cell) {
        let ghost old_self = *self;
        let ghost k = (col as int, row as int);
        let mut line = self.cells.replace(row, SymVec::new());
        line.set(col, val);
        let ghost new_line = line;
        self.cells.set(row, line);
        proof {
            assert(self.cells.at(row as int) == new_line);
            assert(self.slots() =~= old_self.slots().insert(k, val)) by {
                assert forall|k2: (int, int)| #[trigger] self.slots().contains_key(k2) && k2 != k
                    implies old_self.slots().contains_key(k2) && self.slots()[k2] == old_self.slots()[k2] by {
                    assert(self.cells.has_index(k2.1));
                }
                assert forall|k2: (int, int)| #[trigger] old_self.slots().contains_key(k2)
                    implies self.slots().contains_key(k2) by {
                    assert(old_self.cells.has_index(k2.1));
                }
            }
            assert forall|r: int| #[trigger] self.cells.has_index(r) implies self.cells.at(r).vec_pos@.len()
                <= isize::MAX && self.cells.at(r).vec_neg@.len() <= isize::MAX by {
                assert(old_self.cells.has_index(r));
            }
        }
    }

    fn ensure_cell(&mut self, col: isize, row: isize) {
        let ghost old_slots = self.slots();
        let ghost k = (col as int, row as int);
        if row >= 0 {
            if self.cells.need_extend_pos(row) {
                while self.cells.need_extend_pos(row)
                    invariant
                        0 <= row < isize::MAX,
                        self.well_formed(),
                        self.slots() == old_slots,
                        self.cells.vec_pos@.len() <= row + 1,
                    decreases row + 1 - self.cells.vec_pos@.len(),
                {
                    self.add_row(true);
                }
            }
        } else {
            if self.cells.need_extend_neg(row) {
                while self.cells.need_extend_neg(row)
                    invariant
                        isize::MIN < row < 0,
                        self.well_formed(),
                        self.slots() == old_slots,
                        self.cells.vec_neg@.len() <= -(1 + row) + 1,
                    decreases -(1 + row) + 1 - self.cells.vec_neg@.len(),
                {
                    self.add_row(false);
                }
            }
        }
        assert(self.cells.has_index(row as int));
        if col >= 0 {
            if self.cells.get(row).need_extend_pos(col) {
                while self.cells.get(row).need_extend_pos(col)
                    invariant
                        0 <= col < isize::MAX,
                        self.well_formed(),
                        self.cells.has_index(row as int),
                        self.cells.at(row as int).vec_pos@.len() <= col + 1,
                        !old_slots.contains_key(k),
                        forall|j: (int, int)| #[trigger] old_slots.contains_key(j) ==> self.slots().contains_key(j) && self.slots()[j] == old_slots[j],
                        forall|j: (int, int)| #[trigger] self.slots().contains_key(j) && !old_slots.contains_key(j) ==> self.slots()[j] == Cell::Empty
                            && j.1 == row && 0 <= j.0 <= col,
                    decreases col + 1 - self.cells.at(row as int).vec_pos@.len(),
                {
                    self.grow_row(row, true);
                }
            }
        } else {
            if self.cells.get(row).need_extend_neg(col) {
                while self.cells.get(row).need_extend_neg(col)
                    invariant
                        isize::MIN < col < 0,
                        self.well_formed(),
                        self.cells.has_index(row as int),
                        self.cells.at(row as int).vec_neg@.len() <= -(1 + col) + 1,
                        !old_slots.contains_key(k),
                        forall|j: (int, int)| #[trigger] old_slots.contains_key(j) ==> self.slots().contains_key(j) && self.slots()[j] == old_slots[j],
                        forall|j: (int, int)| #[trigger] self.slots().contains_key(j) && !old_slots.contains_key(j) ==> self.slots()[j] == Cell::Empty
                            && j.1 == row && col <= j.0 < 0,
                    decreases -(1 + col) + 1 - self.cells.at(row as int).vec_neg@.len(),
                {
                    self.grow_row(row, false);
                }
            }
        }
        assert(self.slots().contains_key(k));
    }

    fn rm_cell(&mut self, col: isize, row: isize) {
        let ghost k = (col as int, row as int);
        if self.cells.is_available(row) && self.cells.get(row).is_available(col) {
            self.set_cell(col, row, Cell::Empty);
            assert(self.slots().remove(k) =~= old(self).slots().remove(k));
        }
    }

    fn get_iter(&self) -> (out: Vec<CellIterType>) {
        let mut out: Vec<CellIterType> = Vec::new();
        let lo_r: isize = -(self.cells.len_neg() as isize);
        let hi_r: isize = self.cells.len_pos() as isize;
        let mut r: isize = lo_r;
        while r < hi_r
            invariant
                self.well_formed(),
                lo_r == -(self.cells.vec_neg@.len() as int),
                hi_r == self.cells.vec_pos@.len(),
                lo_r <= r <= hi_r,
                sorted_slots(out@, self.slots()),
                forall|i: int| 0 <= i < out@.len() ==> (#[trigger] out@[i]).1 < r,
                forall|k: (int, int)| #[trigger] self.slots().contains_key(k) && k.1 < r ==> exists|i: int|
                    0 <= i < out@.len() && #[trigger] key_of(out@[i]) == k,
            decreases hi_r - r,
        {
            assert(self.cells.has_index(r as int));
            let line = self.cells.get(r);
            assert(line.vec_neg@.len() <= isize::MAX && line.vec_pos@.len() <= isize::MAX);
            let lo_c: isize = -(line.len_neg() as isize);
            let hi_c: isize = line.len_pos() as isize;
            let mut c: isize = lo_c;
            while c < hi_c
                invariant
                    self.well_formed(),
                    lo_r <= r < hi_r,
                    lo_r == -(self.cells.vec_neg@.len() as int),
                    hi_r == self.cells.vec_pos@.len(),
                    *line == self.cells.at(r as int),
                    lo_c == -(line.vec_neg@.len() as int),
                    hi_c == line.vec_pos@.len(),
                    lo_c <= c <= hi_c,
                    sorted_slots(out@, self.slots()),
                    forall|i: int| 0 <= i < out@.len() ==> row_major_before(key_of(#[trigger] out@[i]), (c as int, r as int)),
                    forall|k: (int, int)| #[trigger] self.slots().contains_key(k) && row_major_before(k, (c as int, r as int)) ==> exists|i: int|
                        0 <= i < out@.len() && #[trigger] key_of(out@[i]) == k,
                decreases hi_c - c,
            {
                let cell = *line.get(c);
                let ghost before = out@;
                out.push((c, r, cell));
                proof {
                    let kc = (c as int, r as int);
                    assert(key_of(out@[out@.len() - 1]) == kc);
                    assert forall|i: int| 0 <= i < out@.len() implies row_major_before(key_of(#[trigger] out@[i]), (c + 1, r as int)) by {
                        if i < before.len() {
                            assert(out@[i] == before[i]);
                        }
                    }
                    assert forall|k: (int, int)| #[trigger] self.slots().contains_key(k) && row_major_before(k, (c + 1, r as int)) implies exists|i: int|
                        0 <= i < out@.len() && #[trigger] key_of(out@[i]) == k by {
                        if k == kc {
                            assert(key_of(out@[out@.len() - 1]) == k);
                        } else {
                            assert(row_major_before(k, kc));
                            let i = choose|i: int| 0 <= i < before.len() && #[trigger] key_of(before[i]) == k;
                            assert(out@[i] == before[i]);
                        }
                    }
                    assert forall|a: int, b: int| 0 <= a < b < out@.len() implies row_major_before(key_of(#[trigger] out@[a]), key_of(#[trigger] out@[b])) by {
                        if b < before.len() {
                            assert(out@[a] == before[a] && out@[b] == before[b]);
                        } else {
                            assert(out@[a] == before[a]);
                        }
                    }
                    assert forall|i: int| 0 <= i < out@.len() implies #[trigger] self.slots().contains_key(key_of(out@[i])) && self.slots()[key_of(out@[i])] == out@[i].2 by {
                        if i < before.len() {
                            assert(out@[i] == before[i]);
                        }
                    }
                }
                c = c + 1;
            }
            proof {
                assert forall|k: (int, int)| #[trigger] self.slots().contains_key(k) && k.1 < r + 1 implies exists|i: int|
                    0 <= i < out@.len() && #[trigger] key_of(out@[i]) == k by {
                    if k.1 == r {
                        assert(row_major_before(k, (c as int, r as int)));
                    }
                }
            }
            r = r + 1;
        }
        proof {
            assert forall|k: (int, int)| #[trigger] self.slots().contains_key(k) implies exists|i: int|
                0 <= i < out@.len() && #[trigger] key_of(out@[i]) == k by {
                assert(self.cells.has_index(k.1));
            }
            assert forall|a: int, b: int| 0 <= a < out@.len() && 0 <= b < out@.len() && a != b
                implies key_of(#[trigger] out@[a]) != key_of(#[trigger] out@[b]) by {
                if a < b {
                    assert(row_major_before(key_of(out@[a]), key_of(out@[b])));
                } else {
                    assert(row_major_before(key_of(out@[b]), key_of(out@[a])));
                }
            }
        }
        out
    }
}

/// A dense store with the empty slots `[0, 2) x [0, 2)`, ready for a board.
pub fn new() -> (r: crate::board::Store)
    ensures
        r.well_formed(),
        r.slots() == empty_rect(2, 2),
        r.kind() == crate::board::BoardType::SymVec,
{
    crate::board::Store::SymVec(SymVecBased::new())
}

} // verus!
