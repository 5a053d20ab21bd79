//! The cell memories an interpreter can run on.

use vstd::prelude::*;

verus! {

/// A memory of byte cells, addressed from zero.
pub trait Memory: Sized {
    /// The cells as they stand.
    spec fn cells(&self) -> Seq<u8>;

    /// The cells after making room for `index`, or `None` when this memory cannot address it.
    spec fn room(cells: Seq<u8>, index: int) -> Option<Seq<u8>>;

    /// Making room keeps the cells there were, adds zero cells, and makes `index` addressable.
    proof fn lemma_room(cells: Seq<u8>, index: int)
        requires
            0 <= index,
        ensures
            Self::room(cells, index) matches Some(c) ==> {
                &&& index < c.len()
                &&& cells.len() <= c.len()
                &&& c.take(cells.len() as int) == cells
                &&& forall|i: int| cells.len() <= i < c.len() ==> c[i] == 0
            },
    ;

    fn make_room(&mut self, index: usize) -> (ok: bool)
        ensures
            match Self::room(old(self).cells(), index as int) {
                Some(c) => ok && final(self).cells() == c,
                None => !ok && final(self).cells() == old(self).cells(),
            },
    ;

    fn load(&self, index: usize) -> (v: u8)
        requires
            index < self.cells().len(),
        ensures
            v == self.cells()[index as int],
    ;

    fn store(&mut self, index: usize, value: u8)
        requires
            index < old(self).cells().len(),
        ensures
            final(self).cells() == old(self).cells().update(index as int, value),
    ;

    fn inner(&self) -> (r: &[u8])
        ensures
            r@ == self.cells(),
    ;
}

/// A vector is a memory of fixed size: it cannot address a cell past its end.
impl Memory for Vec<u8> {
    open spec fn cells(&self) -> Seq<u8> {
        self@
    }

    open spec fn room(cells: Seq<u8>, index: int) -> Option<Seq<u8>> {
        if index < cells.len() {
            Some(cells)
        } else {
            None
        }
    }

    proof fn lemma_room(cells: Seq<u8>, index: int) {
        assert(cells.take(cells.len() as int) =~= cells);
    }

    fn make_room(&mut self, index: usize) -> (ok: bool) {
        index < self.len()
    }

    fn load(&self, index: usize) -> (v: u8) {
        self[index]
    }

    fn store(&mut self, index: usize, value: u8) {
        self.set(index, value);
    }

    fn inner(&self) -> (r: &[u8]) {
        self.as_slice()
    }
}

/// The size a growing memory takes when `index` is addressed: when `index` reaches its
/// last cell or beyond, twice its length plus `index + 1`.
pub open spec fn grown_len(len: int, index: int) -> int {
    if len <= index + 1 {
        len * 2 + index + 1
    } else {
        len
    }
}

/// The cells of a growing memory after `index` is addressed, or `None` when the grown length
/// would not fit in `usize`.
pub open spec fn grown_cells(cells: Seq<u8>, index: int) -> Option<Seq<u8>> {
    if index >= usize::MAX || grown_len(cells.len() as int, index) > usize::MAX {
        None
    } else if cells.len() <= index + 1 {
        Some(cells + Seq::new((cells.len() + index + 1) as nat, |_i: int| 0u8))
    } else {
        Some(cells)
    }
}

/// A memory that grows, with zero cells, whenever a cell near or past its end is addressed.
pub struct AutoExtendMemory {
    inner: Vec<u8>,
}

impl AutoExtendMemory {
    pub closed spec fn view_cells(&self) -> Seq<u8> {
        self.inner@
    }

    pub fn new(inner: Vec<u8>) -> (r: Self)
        ensures
            r.cells() == inner@,
    {
        AutoExtendMemory { inner }
    }

    /// Grows the memory so that `index` is not its last cell; reports whether it could.
    pub fn extend(&mut self, index: usize) -> (ok: bool)
        ensures
            match <Self as Memory>::room(old(self).cells(), index as int) {
                Some(c) => ok && final(self).cells() == c,
                None => !ok && final(self).cells() == old(self).cells(),
            },
    {
        let len = self.inner.len();
        if index < usize::MAX && len <= index + 1 {
            if len <= (usize::MAX - index - 1) / 2 {
                let new_len = len * 2 + index + 1;
                self.inner.resize(new_len, 0u8);
                proof {
                    assert forall|i: int| len <= i < new_len implies self.inner@[i] == 0 by {
                        assert(cloned::<u8>(0u8, self.inner@[i]));
                    }
                    assert(self.inner@ =~= old(self).inner@ + Seq::new((len + index + 1) as nat, |_i: int| 0u8));
                }
                true
            } else {
                false
            }
        } else if index < usize::MAX {
            true
        } else {
            false
        }
    }

    /// The cell at `index`, after growing the memory so that it exists; zero if it cannot grow.
    pub fn get(&mut self, index: usize) -> (v: u8)
        ensures
            match <Self as Memory>::room(old(self).cells(), index as int) {
                Some(c) => final(self).cells() == c && v == c[index as int],
                None => final(self).cells() == old(self).cells() && v == 0,
            },
    {
        if self.extend(index) {
            proof {
                <Self as Memory>::lemma_room(old(self).cells(), index as int);
            }
            self.inner[index]
        } else {
            0
        }
    }

    pub fn inner(&self) -> (r: &Vec<u8>)
        ensures
            r@ == self.cells(),
    {
        &self.inner
    }
}

impl Memory for AutoExtendMemory {
    open spec fn cells(&self) -> Seq<u8> {
        self.view_cells()
    }

    open spec fn room(cells: Seq<u8>, index: int) -> Option<Seq<u8>> {
        grown_cells(cells, index)
    }

    proof fn lemma_room(cells: Seq<u8>, index: int) {
        assert(cells.take(cells.len() as int) =~= cells);
        if let Some(c) = Self::room(cells, index) {
            assert(c.take(cells.len() as int) =~= cells);
        }
    }

    fn make_room(&mut self, index: usize) -> (ok: bool) {
        self.extend(index)
    }

    fn load(&self, index: usize) -> (v: u8) {
        self.inner[index]
    }

    fn store(&mut self, index: usize, value: u8) {
        self.inner.set(index, value);
    }

    fn inner(&self) -> (r: &[u8]) {
        self.inner.as_slice()
    }
}

} // verus!
