//! A vector indexed by signed integers: the non-negative half and the
//! negative half grow independently at their outer ends.
use vstd::prelude::*;

verus! {

/// Index `-1` is `vec_neg[0]`, `-2` is `vec_neg[1]`, and so on;
/// index `i >= 0` is `vec_pos[i]`.
pub struct SymVec<T> {
    pub vec_neg: Vec<T>,
    pub vec_pos: Vec<T>,
}

/// Position in the negative half of a negative index.
pub open spec fn neg_slot(idx: int) -> int {
    -(1 + idx)
}

impl<T> SymVec<T> {
    /// Indices that hold an element: `[-len_neg, len_pos)`.
    pub open spec fn has_index(&self, idx: int) -> bool {
        -(self.vec_neg@.len() as int) <= idx < self.vec_pos@.len()
    }

    /// The element at a signed index.
    pub open spec fn at(&self, idx: int) -> T {
        if idx >= 0 {
            self.vec_pos@[idx]
        } else {
            self.vec_neg@[neg_slot(idx)]
        }
    }

    pub fn new() -> (r: Self)
        ensures
            r.vec_neg@.len() == 0,
            r.vec_pos@.len() == 0,
    {
        SymVec { vec_neg: Vec::new(), vec_pos: Vec::new() }
    }

    /// Appends at the positive end: the new element gets index `len_pos`.
    pub fn push_front(&mut self, e: T)
        ensures
            final(self).vec_pos@ == old(self).vec_pos@.push(e),
            final(self).vec_neg@ == old(self).vec_neg@,
    {
        self.vec_pos.push(e);
    }

    /// Appends at the negative end: the new element gets index `-(1 + len_neg)`.
    pub fn push_back(&mut self, e: T)
        ensures
            final(self).vec_neg@ == old(self).vec_neg@.push(e),
            final(self).vec_pos@ == old(self).vec_pos@,
    {
        self.vec_neg.push(e);
    }

    pub fn len_pos(&self) -> (r: usize)
        ensures
            r == self.vec_pos@.len(),
    {
        self.vec_pos.len()
    }

    pub fn len_neg(&self) -> (r: usize)
        ensures
            r == self.vec_neg@.len(),
    {
        self.vec_neg.len()
    }

    /// Number of elements in both halves.
    pub fn len(&self) -> (r: usize)
        requires
            self.vec_pos@.len() + self.vec_neg@.len() <= usize::MAX,
        ensures
            r == self.vec_pos@.len() + self.vec_neg@.len(),
    {
        self.len_pos() + self.len_neg()
    }

    /// Whether a non-negative index lies beyond the positive half.
    pub fn need_extend_pos(&self, idx: isize) -> (r: bool)
        ensures
            r == (idx >= self.vec_pos@.len()),
    {
        let n = self.vec_pos.len();
        idx >= 0 && (idx as usize) >= n
    }

    /// Whether a negative index lies beyond the negative half.
    pub fn need_extend_neg(&self, idx: isize) -> (r: bool)
        ensures
            r == (neg_slot(idx as int) >= self.vec_neg@.len()),
    {
        if idx >= 0 {
            false
        } else {
            let slot = (-(1 + idx)) as usize;
            slot >= self.vec_neg.len()
        }
    }

    /// Whether the index holds an element.
    pub fn is_available(&self, idx: isize) -> (r: bool)
        ensures
            r == self.has_index(idx as int),
    {
        if idx >= 0 {
            !self.need_extend_pos(idx)
        } else {
            !self.need_extend_neg(idx)
        }
    }

    /// The element at a signed index.
    pub fn get(&self, idx: isize) -> (r: &T)
        requires
            self.has_index(idx as int),
        ensures
            *r == self.at(idx as int),
    {
        if idx >= 0 {
            &self.vec_pos[idx as usize]
        } else {
            &self.vec_neg[(-(1 + idx)) as usize]
        }
    }

    /// Puts `e` at a signed index and hands back what was there.
    pub fn replace(&mut self, idx: isize, e: T) -> (r: T)
        requires
            old(self).has_index(idx as int),
        ensures
            r == old(self).at(idx as int),
            final(self).vec_pos@.len() == old(self).vec_pos@.len(),
            final(self).vec_neg@.len() == old(self).vec_neg@.len(),
            forall|i: int| old(self).has_index(i) ==> #[trigger] final(self).at(i) == if i == idx as int { e } else { old(self).at(i) },
    {
        let mut e = e;
        if idx >= 0 {
            std::mem::swap(&mut self.vec_pos[idx as usize], &mut e);
        } else {
            std::mem::swap(&mut self.vec_neg[(-(1 + idx)) as usize], &mut e);
        }
        e
    }

    /// Replaces the element at a signed index.
    pub fn set(&mut self, idx: isize, e: T)
        requires
            old(self).has_index(idx as int),
        ensures
            final(self).vec_pos@.len() == old(self).vec_pos@.len(),
            final(self).vec_neg@.len() == old(self).vec_neg@.len(),
            forall|i: int| old(self).has_index(i) ==> #[trigger] final(self).at(i) == if i == idx as int { e } else { old(self).at(i) },
    {
        if idx >= 0 {
            self.vec_pos.set(idx as usize, e);
        } else {
            self.vec_neg.set((-(1 + idx)) as usize, e);
        }
    }

    /// The elements from the lowest index to the highest.
    pub fn to_vec(&self) -> (r: Vec<T>)
        where
            T: Copy,
        ensures
            r@.len() == self.vec_neg@.len() + self.vec_pos@.len(),
            forall|i: int| 0 <= i < r@.len() ==> #[trigger] r@[i] == self.at(i - self.vec_neg@.len()),
    {
        let mut r: Vec<T> = Vec::new();
        let n = self.vec_neg.len();
        let mut i: usize = 0;
        while i < n
            invariant
                n == self.vec_neg@.len(),
                i <= n,
                r@.len() == i,
                forall|j: int| 0 <= j < i ==> #[trigger] r@[j] == self.at(j - n),
            decreases n - i,
        {
            r.push(self.vec_neg[n - 1 - i]);
            i = i + 1;
        }
        let mut k: usize = 0;
        while k < self.vec_pos.len()
            invariant
                n == self.vec_neg@.len(),
                k <= self.vec_pos@.len(),
                r@.len() == n + k,
                forall|j: int| 0 <= j < n + k ==> #[trigger] r@[j] == self.at(j - n),
            decreases self.vec_pos@.len() - k,
        {
            r.push(self.vec_pos[k]);
            k = k + 1;
        }
        r
    }
}

} // verus!
