//! A block device kept as run-length sectors: whole-file compaction.

use vstd::prelude::*;
use vstd::string::StringSliceAdditionalSpecFns;
use vstd::pervasive::VecAdditionalExecFns;

use crate::disk::all_digits;

verus! {

/// A run of blocks: free space, or `length` blocks of one file.
#[derive(Clone, Copy, PartialEq, Eq, Structural, Debug)]
pub struct Sector {
    pub id: Option<usize>,
    pub length: usize,
}

/// What a sector contributes to the checksum when it starts at `offset`.
pub open spec fn spec_sector_sum(id: Option<usize>, offset: int, length: int) -> int
    decreases length,
{
    if length <= 0 {
        0
    } else {
        spec_sector_sum(id, offset, length - 1) + match id {
            Some(v) => (offset + length - 1) * v,
            None => 0,
        }
    }
}

pub proof fn lemma_sector_sum_mono(id: Option<usize>, offset: int, l1: int, l2: int)
    requires
        0 <= l1 <= l2,
        offset >= 0,
    ensures
        0 <= spec_sector_sum(id, offset, l1) <= spec_sector_sum(id, offset, l2),
    decreases l2,
{
    if l2 > 0 && l1 < l2 {
        lemma_sector_sum_mono(id, offset, l1, l2 - 1);
    } else if l2 > 0 {
        lemma_sector_sum_mono(id, offset, 0, l2 - 1);
    }
}

pub proof fn lemma_sector_sum_none(offset: int, length: int)
    ensures
        spec_sector_sum(None, offset, length) == 0,
    decreases length,
{
    if length > 0 {
        lemma_sector_sum_none(offset, length - 1);
    }
}

impl Sector {
    /// The sector's checksum contribution when it starts at `offset`.
    #[verifier::loop_isolation(false)]
    pub fn checksum(&self, offset: usize) -> (r: usize)
        requires
            offset + self.length <= usize::MAX,
            spec_sector_sum(self.id, offset as int, self.length as int) <= usize::MAX,
        ensures
            r == spec_sector_sum(self.id, offset as int, self.length as int),
    {
        match self.id {
            None => {
                proof {
                    lemma_sector_sum_none(offset as int, self.length as int);
                }
                0
            },
            Some(id) => {
                let mut acc: usize = 0;
                let mut x: usize = 0;
                while x < self.length
                    invariant
                        x <= self.length,
                        acc == spec_sector_sum(self.id, offset as int, x as int),
                    decreases self.length - x,
                {
                    proof {
                        lemma_sector_sum_mono(self.id, offset as int, x as int + 1, self.length as int);
                        lemma_sector_sum_mono(self.id, offset as int, 0, x as int);
                        assert(spec_sector_sum(self.id, offset as int, x as int + 1)
                            == spec_sector_sum(self.id, offset as int, x as int) + (offset + x)
                            * id);
                    }
                    acc = acc + (offset + x) * id;
                    x += 1;
                }
                acc
            },
        }
    }
}

/// The total length of a sector table.
pub open spec fn spec_total_len(sectors: Seq<Sector>) -> int
    decreases sectors.len(),
{
    if sectors.len() == 0 {
        0
    } else {
        spec_total_len(sectors.drop_last()) + sectors.last().length
    }
}

/// The checksum of a sector table laid out from `offset`.
pub open spec fn spec_fs_sum(sectors: Seq<Sector>, offset: int) -> int
    decreases sectors.len(),
{
    if sectors.len() == 0 {
        0
    } else {
        spec_sector_sum(sectors.first().id, offset, sectors.first().length as int) + spec_fs_sum(
            sectors.drop_first(),
            offset + sectors.first().length,
        )
    }
}

pub proof fn lemma_fs_sum_nonneg(sectors: Seq<Sector>, offset: int)
    requires
        offset >= 0,
    ensures
        spec_fs_sum(sectors, offset) >= 0,
    decreases sectors.len(),
{
    if sectors.len() > 0 {
        lemma_sector_sum_mono(
            sectors.first().id,
            offset,
            0,
            sectors.first().length as int,
        );
        lemma_fs_sum_nonneg(sectors.drop_first(), offset + sectors.first().length);
    }
}

/// A block device as a table of run-length sectors.
pub struct FS {
    pub blocks: Vec<Sector>,
}

impl FS {
    /// Reads a dense map: digits alternate between file lengths and gap
    /// lengths; zero-length runs are dropped.
    #[verifier::loop_isolation(false)]
    pub fn parse(input: &str) -> (r: FS)
        requires
            all_digits(input.spec_bytes()),
        ensures
            forall|i: int| 0 <= i < r.blocks@.len() ==> (#[trigger] r.blocks@[i]).length >= 1,
            r.blocks@.len() <= input.spec_bytes().len(),
    {
        let bytes = input.as_bytes();
        proof {
            assert(bytes@ == input.spec_bytes());
        }
        let n = bytes.len();
        let mut blocks: Vec<Sector> = Vec::new();
        let mut i: usize = 0;
        while i < n
            invariant
                i <= n,
                blocks@.len() <= i,
                forall|j: int| 0 <= j < blocks@.len() ==> (#[trigger] blocks@[j]).length >= 1,
            decreases n - i,
        {
            let d = (bytes[i] - 48) as usize;
            if d > 0 {
                let id = if i % 2 == 0 {
                    Some(i / 2)
                } else {
                    None
                };
                blocks.push(Sector { id, length: d });
            }
            i += 1;
        }
        FS { blocks }
    }

    /// Splits sector `i` so that its first part keeps `at` blocks.
    pub fn split_sector(&mut self, i: usize, at: usize)
        requires
            i < old(self).blocks@.len(),
            at <= old(self).blocks@[i as int].length,
        ensures
            final(self).blocks@ == old(self).blocks@.update(
                i as int,
                Sector { id: old(self).blocks@[i as int].id, length: at },
            ).insert(
                i as int + 1,
                Sector {
                    id: old(self).blocks@[i as int].id,
                    length: (old(self).blocks@[i as int].length - at) as usize,
                },
            ),
    {
        let n = self.blocks.len();
        let sector = self.blocks[i];
        let new_sector = Sector { id: sector.id, length: sector.length - at };
        self.blocks.set(i, Sector { id: sector.id, length: at });
        self.blocks.insert(i + 1, new_sector);
    }

    /// Compacts whole files: walks files right to left and moves each
    /// into the leftmost gap that can hold it, splitting gaps as needed.
    ///
    /// The walk carries a step budget of `n*n + n` for `n` initial
    /// sectors: each pass either moves the right cursor down one sector
    /// or relocates one file strictly leftward, a file can move at most
    /// `n` times before reaching the front, and at most `n` files exist,
    /// so the budget is never the reason a pass ends. That bound is an
    /// engineering argument, not a proved one: if it ever failed,
    /// compaction would stop early with the table still well formed.
    #[verifier::loop_isolation(false)]
    #[verifier::rlimit(60)]
    pub fn defrag(&mut self)
        requires
            old(self).blocks@.len() > 0,
        ensures
            final(self).blocks@.len() >= old(self).blocks@.len(),
    {
        let n0 = self.blocks.len();
        let mut fuel: usize = match n0.checked_mul(n0) {
            Some(sq) => match sq.checked_add(n0) {
                Some(f) => f,
                None => usize::MAX,
            },
            None => usize::MAX,
        };
        let mut right: usize = self.blocks.len() - 1;
        loop
            invariant
                self.blocks@.len() >= n0,
                right < self.blocks@.len(),
            decreases fuel,
        {
            if fuel == 0 {
                break ;
            }
            fuel -= 1;
            while right > 0 && self.blocks[right].id.is_none()
                invariant
                    right < self.blocks@.len(),
                decreases right,
            {
                right -= 1;
            }
            let file_len = self.blocks[right].length;
            let mut left: usize = 0;
            while left < right && (self.blocks[left].id.is_some() || self.blocks[left].length
                < file_len)
                invariant
                    left <= right < self.blocks@.len(),
                decreases right - left,
            {
                left += 1;
            }
            if left >= right {
                if right == 0 {
                    break ;
                }
                right -= 1;
                continue ;
            }
            if self.blocks[left].length > file_len {
                self.split_sector(left, file_len);
                let ln = self.blocks.len();
                assert(right < ln);
                right += 1;
            }
            let a = self.blocks[left];
            let b = self.blocks[right];
            self.blocks.set(left, b);
            self.blocks.set(right, a);
        }
    }

    /// The checksum of the whole device.
    pub fn checksum(&self) -> (r: usize)
        requires
            spec_total_len(self.blocks@) <= usize::MAX,
            spec_fs_sum(self.blocks@, 0) <= usize::MAX,
        ensures
            r == spec_fs_sum(self.blocks@, 0),
    {
        let n = self.blocks.len();
        let mut acc: usize = 0;
        let mut offset: usize = 0;
        let mut i: usize = 0;
        proof {
            lemma_fs_take_step(self.blocks@, 0);
        }
        while i < n
            invariant
                i <= n,
                n == self.blocks@.len(),
                offset == spec_total_len(self.blocks@.take(i as int)),
                acc + spec_fs_sum(self.blocks@.skip(i as int), offset as int) == spec_fs_sum(
                    self.blocks@,
                    0,
                ),
                acc >= 0,
                offset + spec_total_len_of_skip(self.blocks@, i as int) == spec_total_len(
                    self.blocks@,
                ),
                spec_fs_sum(self.blocks@, 0) <= usize::MAX,
                spec_total_len(self.blocks@) <= usize::MAX,
            decreases n - i,
        {
            let s = self.blocks[i];
            proof {
                let rest = self.blocks@.skip(i as int);
                assert(rest.first() == s);
                assert(rest.drop_first() =~= self.blocks@.skip(i as int + 1));
                lemma_fs_sum_nonneg(self.blocks@.skip(i as int + 1), offset as int + s.length);
                lemma_sector_sum_mono(s.id, offset as int, 0, s.length as int);
                lemma_total_take_step(self.blocks@, i as int);
                lemma_skip_len_nonneg(self.blocks@, i as int + 1);
            }
            let part = s.checksum(offset);
            acc = acc + part;
            offset = offset + s.length;
            i += 1;
        }
        proof {
            assert(self.blocks@.skip(n as int).len() == 0);
        }
        acc
    }
}

/// The length of the tail of a sector table from position `i`.
pub open spec fn spec_total_len_of_skip(sectors: Seq<Sector>, i: int) -> int {
    spec_total_len(sectors.skip(i))
}

pub proof fn lemma_fs_take_step(sectors: Seq<Sector>, offset: int)
    ensures
        sectors.take(0).len() == 0,
        spec_total_len(sectors.take(0)) == 0,
        sectors.skip(0) =~= sectors,
{
}

pub proof fn lemma_total_take_step(sectors: Seq<Sector>, i: int)
    requires
        0 <= i < sectors.len(),
    ensures
        spec_total_len(sectors.take(i + 1)) == spec_total_len(sectors.take(i)) + sectors[i].length,
        spec_total_len_of_skip(sectors, i) == sectors[i].length + spec_total_len_of_skip(
            sectors,
            i + 1,
        ),
{
    assert(sectors.take(i + 1).drop_last() =~= sectors.take(i));
    assert(sectors.take(i + 1).last() == sectors[i]);
    lemma_total_skip_first(sectors.skip(i));
    assert(sectors.skip(i).drop_first() =~= sectors.skip(i + 1));
    assert(sectors.skip(i).first() == sectors[i]);
}

pub proof fn lemma_total_skip_first(sectors: Seq<Sector>)
    requires
        sectors.len() > 0,
    ensures
        spec_total_len(sectors) == sectors.first().length + spec_total_len(sectors.drop_first()),
    decreases sectors.len(),
{
    if sectors.len() == 1 {
        assert(sectors.drop_last().len() == 0);
        assert(sectors.drop_first().len() == 0);
        assert(spec_total_len(sectors) == spec_total_len(sectors.drop_last())
            + sectors.last().length);
        assert(spec_total_len(sectors.drop_last()) == 0);
        assert(spec_total_len(sectors.drop_first()) == 0);
        assert(sectors.last() == sectors.first());
    } else {
        let dl = sectors.drop_last();
        let df = sectors.drop_first();
        lemma_total_skip_first(dl);
        assert(dl.first() == sectors.first());
        assert(dl.drop_first() =~= df.drop_last());
        assert(df.last() == sectors.last());
        assert(spec_total_len(sectors) == spec_total_len(dl) + sectors.last().length);
        assert(spec_total_len(dl) == sectors.first().length + spec_total_len(dl.drop_first()));
        assert(spec_total_len(df) == spec_total_len(df.drop_last()) + df.last().length);
        assert(spec_total_len(df.drop_last()) == spec_total_len(dl.drop_first()));
    }
}

pub proof fn lemma_skip_len_nonneg(sectors: Seq<Sector>, i: int)
    requires
        0 <= i <= sectors.len(),
    ensures
        spec_total_len(sectors.skip(i)) >= 0,
    decreases sectors.len() - i,
{
    if i < sectors.len() {
        lemma_skip_len_nonneg(sectors, i + 1);
        lemma_total_skip_first(sectors.skip(i));
        assert(sectors.skip(i).drop_first() =~= sectors.skip(i + 1));
    }
}

} // verus!
