//! A fixed-size rectangular table with checked row/column access.

use vstd::prelude::*;
use vstd::pervasive::VecAdditionalExecFns;

verus! {

/// An `R` by `C` table of copyable values.
#[derive(Clone)]
pub struct Field<const R: usize, const C: usize, T> {
    pub data: Vec<Vec<T>>,
}

impl<const R: usize, const C: usize, T: Copy> Field<R, C, T> {
    pub open spec fn wf(self) -> bool {
        &&& self.data@.len() == R
        &&& forall|r: int| 0 <= r < R ==> (#[trigger] self.data@[r])@.len() == C
    }

    /// The value stored at row `r`, column `c`.
    pub open spec fn at(self, r: int, c: int) -> T {
        self.data@[r]@[c]
    }

    /// A field with every cell holding `value`.
    pub fn filled(value: T) -> (f: Self)
        ensures
            f.wf(),
            forall|r: int, c: int| 0 <= r < R && 0 <= c < C ==> #[trigger] f.at(r, c) == value,
    {
        let mut data: Vec<Vec<T>> = Vec::new();
        for r in 0..R
            invariant
                data@.len() == r,
                forall|i: int| 0 <= i < r ==> (#[trigger] data@[i])@.len() == C,
                forall|i: int, j: int|
                    0 <= i < r && 0 <= j < C ==> (#[trigger] data@[i]@[j]) == value,
        {
            let mut row: Vec<T> = Vec::new();
            for j in 0..C
                invariant
                    row@.len() == j,
                    forall|k: int| 0 <= k < j ==> row@[k] == value,
            {
                row.push(value);
            }
            let ghost rv = row@;
            data.push(row);
            proof {
                assert(data@[r as int]@ == rv);
                assert forall|j: int| 0 <= j < C implies (#[trigger] data@[r as int]@[j])
                    == value by {
                    assert(rv[j] == value);
                }
            }
        }
        Field { data }
    }

    /// Stores `value` at row `row`, column `col`.
    pub fn set(&mut self, row: i32, col: i32, value: T)
        requires
            old(self).wf(),
            0 <= row < R,
            0 <= col < C,
        ensures
            final(self).wf(),
            final(self).at(row as int, col as int) == value,
            forall|r: int, c: int|
                0 <= r < R && 0 <= c < C && (r != row || c != col) ==> final(self).at(r, c) == old(
                    self,
                ).at(r, c),
    {
        let r = row as usize;
        let c = col as usize;
        let mut rowv: Vec<T> = Vec::new();
        self.data.set_and_swap(r, &mut rowv);
        rowv.set(c, value);
        self.data.set_and_swap(r, &mut rowv);
        proof {
            assert(self.data@ =~= old(self).data@.update(r as int, self.data@[r as int]));
        }
    }

    /// The value at row `row`, column `col`.
    pub fn get(&self, row: i32, col: i32) -> (r: T)
        requires
            self.wf(),
            0 <= row < R,
            0 <= col < C,
        ensures
            r == self.at(row as int, col as int),
    {
        self.data[row as usize][col as usize]
    }
}

impl<const R: usize, const C: usize> Field<R, C, bool> {
    /// A field of cleared flags.
    pub fn new() -> (f: Self)
        ensures
            f.wf(),
            forall|r: int, c: int| 0 <= r < R && 0 <= c < C ==> #[trigger] f.at(r, c) == false,
    {
        Self::filled(false)
    }
}

impl<const R: usize, const C: usize> Field<R, C, u32> {
    /// A field of zeroes.
    pub fn new() -> (f: Self)
        ensures
            f.wf(),
            forall|r: int, c: int| 0 <= r < R && 0 <= c < C ==> #[trigger] f.at(r, c) == 0u32,
    {
        Self::filled(0)
    }
}

impl<const R: usize, const C: usize> Field<R, C, Option<u32>> {
    /// A field of empty cells.
    pub fn new() -> (f: Self)
        ensures
            f.wf(),
            forall|r: int, c: int|
                0 <= r < R && 0 <= c < C ==> #[trigger] f.at(r, c) == Option::<u32>::None,
    {
        Self::filled(None)
    }
}

impl<const R: usize, const C: usize> Field<R, C, Option<usize>> {
    /// A field of empty cells.
    pub fn new() -> (f: Self)
        ensures
            f.wf(),
            forall|r: int, c: int|
                0 <= r < R && 0 <= c < C ==> #[trigger] f.at(r, c) == Option::<usize>::None,
    {
        Self::filled(None)
    }
}

} // verus!
