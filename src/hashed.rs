//! The hashed cell store: a hash index from packed coordinates to
//! positions in a vector of slots. Lookups, writes and removals take
//! constant expected time, and listing the slots is a plain scan.
use vstd::prelude::*;
use std::collections::HashMap;
use vstd::arithmetic::div_mod::lemma_fundamental_div_mod_converse;
use crate::cells::{BoardInternal, Cell, CellIterType, in_isize, key_of};

verus! {

broadcast use vstd::std_specs::hash::group_hash_axioms;

pub open spec fn coord_offset() -> int {
    0x8000_0000_0000_0000
}

pub open spec fn coord_base() -> int {
    0x1_0000_0000_0000_0000
}

/// The hash key of a coordinate pair: both shifted to be non-negative,
/// the column in the high 64 bits and the row in the low 64 bits.
pub open spec fn pack(k: (int, int)) -> int {
    (k.0 + coord_offset()) * coord_base() + (k.1 + coord_offset())
}

pub open spec fn pack_entry(e: CellIterType) -> u128 {
    pack(key_of(e)) as u128
}

proof fn lemma_pack_range(k: (int, int))
    requires
        in_isize(k),
    ensures
        0 <= pack(k) <= u128::MAX,
{
    let a = k.0 + coord_offset();
    let b = k.1 + coord_offset();
    assert(0 <= a < coord_base() && 0 <= b < coord_base());
    assert(0 <= a * coord_base() <= (coord_base() - 1) * coord_base()) by (nonlinear_arith)
        requires 0 <= a < coord_base(), coord_base() == 0x1_0000_0000_0000_0000int;
}

proof fn lemma_pack_injective(k1: (int, int), k2: (int, int))
    requires
        in_isize(k1),
        in_isize(k2),
        pack(k1) == pack(k2),
    ensures
        k1 == k2,
{
    let p = pack(k1);
    lemma_fundamental_div_mod_converse(p, coord_base(), k1.0 + coord_offset(), k1.1 + coord_offset());
    lemma_fundamental_div_mod_converse(p, coord_base(), k2.0 + coord_offset(), k2.1 + coord_offset());
}

fn pack_key(col: isize, row: isize) -> (r: u128)
    ensures
        r == pack((col as int, row as int)),
{
    proof {
        lemma_pack_range((col as int, row as int));
    }
    let a: u128 = (col as i128 + 0x8000_0000_0000_0000i128) as u128;
    let b: u128 = (row as i128 + 0x8000_0000_0000_0000i128) as u128;
    assert(a * 0x1_0000_0000_0000_0000u128 <= 0xffff_ffff_ffff_ffff_0000_0000_0000_0000u128)
        by (nonlinear_arith)
        requires a <= 0xffff_ffff_ffff_ffffu128;
    a * 0x1_0000_0000_0000_0000u128 + b
}

/// Hashed store: only touched slots exist.
pub struct HashBased {
    index: HashMap<u128, usize>,
    entries: Vec<CellIterType>,
}

impl HashBased {
    pub fn new() -> (r: HashBased)
        ensures
            r.well_formed(),
            r.slots() == Map::<(int, int), Cell>::empty(),
    {
        let r = HashBased { index: HashMap::new(), entries: Vec::new() };
        assert(r.slots() =~= Map::<(int, int), Cell>::empty());
        r
    }

    proof fn lemma_slot_entry(&self, k: (int, int))
        requires
            self.well_formed(),
            self.slots().contains_key(k),
        ensures
            0 <= self.index@[pack(k) as u128] < self.entries@.len(),
            key_of(self.entries@[self.index@[pack(k) as u128] as int]) == k,
    {
        let i = self.index@[pack(k) as u128] as int;
        let e = self.entries@[i];
        lemma_pack_range(k);
        lemma_pack_range(key_of(e));
        lemma_pack_injective(k, key_of(e));
    }

    proof fn lemma_entry_slot(&self, i: int)
        requires
            self.well_formed(),
            0 <= i < self.entries@.len(),
        ensures
            self.slots().contains_key(key_of(self.entries@[i])),
            self.index@[pack(key_of(self.entries@[i])) as u128] == i,
    {
        assert(self.index@.contains_key(pack_entry(self.entries@[i])));
    }
}

impl BoardInternal for HashBased {
    closed spec fn slots(&self) -> Map<(int, int), Cell> {
        Map::new(
            |k: (int, int)| in_isize(k) && self.index@.contains_key(pack(k) as u128),
            |k: (int, int)| self.entries@[self.index@[pack(k) as u128] as int].2,
        )
    }

    open spec fn touched_only(&self) -> bool {
        true
    }

    closed spec fn well_formed(&self) -> bool {
        &&& forall|key: u128| #[trigger]
            self.index@.contains_key(key) ==> (self.index@[key] as int) < self.entries@.len()
                && pack_entry(self.entries@[self.index@[key] as int]) == key
        &&& forall|i: int|
            0 <= i < self.entries@.len() ==> self.index@.contains_key(
                pack_entry(#[trigger] self.entries@[i]),
            ) && self.index@[pack_entry(self.entries@[i])] == i
        &&& self.slots().dom().finite()
    }

    proof fn lemma_slots_finite(&self) {
    }

    fn get_cell(&self, col: isize, row: isize) -> (r: Option<Cell>) {
        let k = pack_key(col, row);
        match self.index.get(&k) {
            Some(i) => Some(self.entries[*i].2),
            None => None,
        }
    }

    fn set_cell(&mut self, col: isize, row: isize, val: Cell) {
        let ghost k = (col as int, row as int);
        let ghost old_self = *self;
        let key = pack_key(col, row);
        let i = *self.index.get(&key).unwrap();
        proof {
            old_self.lemma_slot_entry(k);
        }
        self.entries.set(i, (col, row, val));
        assert forall|j: int| 0 <= j < self.entries@.len() implies key_of(self.entries@[j]) == key_of(
            old_self.entries@[j],
        ) by {}
        assert(self.well_formed()) by {
            assert(self.slots() =~= old_self.slots().insert(k, val)) by {
                assert forall|k2: (int, int)| #[trigger] self.slots().contains_key(k2) && k2 != k
                    implies self.slots()[k2] == old_self.slots()[k2] by {
                    old_self.lemma_slot_entry(k2);
                }
            }
        }
        assert(self.slots() =~= old_self.slots().insert(k, val)) by {
            assert forall|k2: (int, int)| #[trigger] self.slots().contains_key(k2) && k2 != k
                implies self.slots()[k2] == old_self.slots()[k2] by {
                old_self.lemma_slot_entry(k2);
            }
        }
    }

    fn ensure_cell(&mut self, col: isize, row: isize) {
        let ghost k = (col as int, row as int);
        let ghost old_self = *self;
        let key = pack_key(col, row);
        if !self.index.contains_key(&key) {
            let n = self.entries.len();
            self.entries.push((col, row, Cell::Empty));
            self.index.insert(key, n);
            proof {
                lemma_pack_range(k);
                assert forall|key2: u128| #[trigger] self.index@.contains_key(key2) implies (
                self.index@[key2] as int) < self.entries@.len() && pack_entry(
                    self.entries@[self.index@[key2] as int],
                ) == key2 by {
                    if key2 != key {
                        assert(old_self.index@.contains_key(key2));
                    }
                }
                assert forall|i: int| 0 <= i < self.entries@.len() implies self.index@.contains_key(
                    pack_entry(#[trigger] self.entries@[i]),
                ) && self.index@[pack_entry(self.entries@[i])] == i by {
                    if i < n {
                        assert(old_self.entries@[i] == self.entries@[i]);
                        assert(old_self.index@.contains_key(pack_entry(old_self.entries@[i])));
                    }
                }
                assert(self.slots() =~= old_self.slots().insert(k, Cell::Empty)) by {
                    assert forall|k2: (int, int)| #[trigger] self.slots().contains_key(k2) && k2 != k
                        implies old_self.slots().contains_key(k2) && self.slots()[k2] == old_self.slots()[k2] by {
                        lemma_pack_range(k2);
                        if pack(k2) == pack(k) {
                            lemma_pack_injective(k, k2);
                        }
                        old_self.lemma_slot_entry(k2);
                    }
                }
            }
        } else {
            proof {
                lemma_pack_range(k);
            }
        }
    }

    fn rm_cell(&mut self, col: isize, row: isize) {
        let ghost k = (col as int, row as int);
        let ghost old_self = *self;
        let key = pack_key(col, row);
        proof {
            lemma_pack_range(k);
        }
        match self.index.get(&key) {
            None => {
                assert(self.slots().remove(k) =~= old_self.slots().remove(k));
            },
            Some(i_ref) => {
                let i = *i_ref;
                let last = self.entries.len() - 1;
                let moved = self.entries[last];
                proof {
                    old_self.lemma_slot_entry(k);
                    old_self.lemma_entry_slot(last as int);
                }
                self.entries.swap_remove(i);
                if i != last {
                    let mkey = pack_key(moved.0, moved.1);
                    self.index.insert(mkey, i);
                }
                self.index.remove(&key);
                proof {
                    assert forall|key2: u128| #[trigger] self.index@.contains_key(key2) implies (
                    self.index@[key2] as int) < self.entries@.len() && pack_entry(
                        self.entries@[self.index@[key2] as int],
                    ) == key2 by {
                        assert(old_self.index@.contains_key(key2));
                        if key2 != pack_entry(moved) {
                            let j = old_self.index@[key2] as int;
                            if j == last as int {
                                assert(pack_entry(old_self.entries@[j]) == key2);
                            }
                        }
                    }
                    assert forall|j: int| 0 <= j < self.entries@.len() implies self.index@.contains_key(
                        pack_entry(#[trigger] self.entries@[j]),
                    ) && self.index@[pack_entry(self.entries@[j])] == j by {
                        if j == i as int {
                            assert(self.entries@[j] == moved);
                        } else {
                            assert(self.entries@[j] == old_self.entries@[j]);
                            assert(old_self.index@.contains_key(pack_entry(old_self.entries@[j])));
                        }
                    }
                    assert(self.slots() =~= old_self.slots().remove(k)) by {
                        assert forall|k2: (int, int)| #[trigger] old_self.slots().contains_key(k2) && k2 != k
                            implies self.slots().contains_key(k2) && self.slots()[k2] == old_self.slots()[k2] by {
                            old_self.lemma_slot_entry(k2);
                            lemma_pack_range(k2);
                            if pack(k2) == pack(k) {
                                lemma_pack_injective(k, k2);
                            }
                        }
                        assert forall|k2: (int, int)| #[trigger] self.slots().contains_key(k2)
                            implies old_self.slots().contains_key(k2) && k2 != k by {
                            lemma_pack_range(k2);
                        }
                    }
                }
            },
        }
    }

    fn get_iter(&self) -> (r: Vec<CellIterType>) {
        let mut r: Vec<CellIterType> = Vec::new();
        let mut i: usize = 0;
        while i < self.entries.len()
            invariant
                i <= self.entries@.len(),
                r@ == self.entries@.subrange(0, i as int),
            decreases self.entries@.len() - i,
        {
            r.push(self.entries[i]);
            i = i + 1;
            assert(r@ =~= self.entries@.subrange(0, i as int));
        }
        assert(r@ =~= self.entries@);
        proof {
            assert forall|k: (int, int)| #[trigger] self.slots().contains_key(k) implies exists|j: int|
                0 <= j < r@.len() && #[trigger] key_of(r@[j]) == k by {
                self.lemma_slot_entry(k);
                let j = self.index@[pack(k) as u128] as int;
                assert(key_of(r@[j]) == k);
            }
            assert forall|a: int, b: int|
                0 <= a < r@.len() && 0 <= b < r@.len() && a != b implies key_of(#[trigger] r@[a]) != key_of(
                #[trigger] r@[b],
            ) by {
                self.lemma_entry_slot(a);
                self.lemma_entry_slot(b);
            }
            assert forall|a: int| 0 <= a < r@.len() implies #[trigger] self.slots().contains_key(key_of(r@[a]))
                && self.slots()[key_of(r@[a])] == r@[a].2 by {
                self.lemma_entry_slot(a);
            }
        }
        r
    }
}

/// An empty hashed store, ready for a board.
pub fn new() -> (r: crate::board::Store)
    ensures
        r.well_formed(),
        r.slots() == Map::<(int, int), Cell>::empty(),
        r.kind() == crate::board::BoardType::Hashed,
{
    crate::board::Store::Hashed(HashBased::new())
}

} // verus!
