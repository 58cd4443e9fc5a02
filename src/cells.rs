//! Coordinates, cells, and the interface shared by the two cell stores.
use vstd::prelude::*;

verus! {

/// A board position.
#[derive(Debug, Clone, Copy, PartialEq, Eq, Structural, Hash, PartialOrd, Ord)]
pub struct Coord {
    pub col: isize,
    pub row: isize,
}

/// What a slot holds: nothing, or a live cell with the generation it was born in.
#[derive(Debug, Clone, Copy, PartialEq, Eq, Structural)]
pub enum Cell {
    Empty,
    Occupied { gen: usize },
}

/// One allocated slot as the board hands it out: where it is, its
/// generation (0 when empty), and whether it is alive.
#[derive(Debug, Clone, Copy, PartialEq, Eq, Structural)]
pub struct CellDesc {
    pub coord: Coord,
    pub gen: usize,
    pub is_alive: bool,
}

/// A slot of a store: column, row, content.
pub type CellIterType = (isize, isize, Cell);

pub open spec fn key_of(e: CellIterType) -> (int, int) {
    (e.0 as int, e.1 as int)
}

pub open spec fn in_isize(k: (int, int)) -> bool {
    isize::MIN <= k.0 <= isize::MAX && isize::MIN <= k.1 <= isize::MAX
}

/// `list` names every slot of `slots` once, with its content.
pub open spec fn lists_slots(list: Seq<CellIterType>, slots: Map<(int, int), Cell>) -> bool {
    &&& forall|i: int|
        0 <= i < list.len() ==> #[trigger] slots.contains_key(key_of(list[i])) && slots[key_of(
            list[i],
        )] == list[i].2
    &&& forall|k: (int, int)|
        #[trigger] slots.contains_key(k) ==> exists|i: int| 0 <= i < list.len() && #[trigger] key_of(list[i]) == k
    &&& forall|i: int, j: int|
        0 <= i < list.len() && 0 <= j < list.len() && i != j ==> key_of(#[trigger] list[i]) != key_of(
            #[trigger] list[j],
        )
}

/// `new` keeps every slot of `old` and holds `k`; every slot it adds is
/// empty, in the row of `k`, and between column 0 and the column of `k`.
pub open spec fn grown_to_hold(
    old: Map<(int, int), Cell>,
    new: Map<(int, int), Cell>,
    k: (int, int),
) -> bool {
    &&& new.contains_key(k)
    &&& forall|j: (int, int)| #[trigger] old.contains_key(j) ==> new.contains_key(j) && new[j] == old[j]
    &&& forall|j: (int, int)| #[trigger] new.contains_key(j) && !old.contains_key(j) ==> new[j] == Cell::Empty
        && j.1 == k.1 && (0 <= j.0 <= k.0 || k.0 <= j.0 < 0)
    &&& old.contains_key(k) ==> new == old
}

/// `a` comes before `b` in row-major order.
pub open spec fn row_major_before(a: (int, int), b: (int, int)) -> bool {
    a.1 < b.1 || (a.1 == b.1 && a.0 < b.0)
}

/// A store of cells keyed by signed coordinates.
pub trait BoardInternal: Sized {
    /// The allocated slots and what they hold.
    spec fn slots(&self) -> Map<(int, int), Cell>;

    spec fn well_formed(&self) -> bool;

    /// The store holds a slot only for a position it was asked to hold,
    /// and frees a slot when it is emptied (the hashed store). Otherwise
    /// slots come in whole runs of a row, are never freed, and are listed
    /// in row-major order (the dense store).
    spec fn touched_only(&self) -> bool;

    /// A store holds finitely many slots, each at a pair of `isize` values.
    proof fn lemma_slots_finite(&self)
        requires
            self.well_formed(),
        ensures
            self.slots().dom().finite(),
            forall|k: (int, int)| #[trigger] self.slots().contains_key(k) ==> in_isize(k),
    ;

    /// The content of a slot, or `None` where none is allocated.
    fn get_cell(&self, col: isize, row: isize) -> (r: Option<Cell>)
        requires
            self.well_formed(),
        ensures
            r == (if self.slots().contains_key((col as int, row as int)) {
                Some(self.slots()[(col as int, row as int)])
            } else {
                None
            }),
    ;

    /// Writes an allocated slot.
    fn set_cell(&mut self, col: isize, row: isize, val: Cell)
        requires
            old(self).well_formed(),
            old(self).slots().contains_key((col as int, row as int)),
        ensures
            final(self).well_formed(),
            final(self).touched_only() == old(self).touched_only(),
            final(self).slots() == old(self).slots().insert((col as int, row as int), val),
    ;

    /// Makes sure a slot exists, leaving every slot already there as it was.
    fn ensure_cell(&mut self, col: isize, row: isize)
        requires
            old(self).well_formed(),
            isize::MIN < col < isize::MAX,
            isize::MIN < row < isize::MAX,
        ensures
            final(self).well_formed(),
            final(self).touched_only() == old(self).touched_only(),
            grown_to_hold(old(self).slots(), final(self).slots(), (col as int, row as int)),
            old(self).touched_only() ==> final(self).slots() == (if old(self).slots().contains_key(
                (col as int, row as int),
            ) {
                old(self).slots()
            } else {
                old(self).slots().insert((col as int, row as int), Cell::Empty)
            }),
    ;

    /// Empties a slot: the hashed store frees it, the dense store keeps it
    /// and sets it to `Empty`.
    fn rm_cell(&mut self, col: isize, row: isize)
        requires
            old(self).well_formed(),
        ensures
            final(self).well_formed(),
            final(self).touched_only() == old(self).touched_only(),
            old(self).touched_only() ==> !final(self).slots().contains_key((col as int, row as int)),
            !old(self).touched_only() ==> final(self).slots().contains_key((col as int, row as int))
                == old(self).slots().contains_key((col as int, row as int)),
            final(self).slots().remove((col as int, row as int)) == old(self).slots().remove(
                (col as int, row as int),
            ),
            final(self).slots().contains_key((col as int, row as int)) ==> final(self).slots()[(
            col as int,
            row as int,
            )] == Cell::Empty,
    ;

    /// Every allocated slot, once each.
    fn get_iter(&self) -> (r: Vec<CellIterType>)
        requires
            self.well_formed(),
        ensures
            lists_slots(r@, self.slots()),
            !self.touched_only() ==> forall|a: int, b: int|
                0 <= a < b < r@.len() ==> row_major_before(key_of(#[trigger] r@[a]), key_of(#[trigger] r@[b])),
    ;
}

} // verus!
