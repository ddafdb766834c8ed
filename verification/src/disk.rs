//! A block device image: parsing a dense map, compacting, checksumming.

use vstd::prelude::*;
use vstd::string::StringSliceAdditionalSpecFns;
use vstd::pervasive::VecAdditionalExecFns;

verus! {

/// Whether every byte is an ASCII digit.
pub open spec fn all_digits(s: Seq<u8>) -> bool {
    forall|i: int| 0 <= i < s.len() ==> 48 <= #[trigger] s[i] <= 57
}

/// The sum of a digit string's values.
pub open spec fn digit_sum(s: Seq<u8>) -> int
    decreases s.len(),
{
    if s.len() == 0 {
        0
    } else {
        digit_sum(s.drop_last()) + (s.last() - 48)
    }
}

pub proof fn lemma_digit_sum_take(s: Seq<u8>, i: int)
    requires
        all_digits(s),
        0 <= i <= s.len(),
    ensures
        digit_sum(s.take(i)) <= digit_sum(s),
        digit_sum(s.take(i)) >= 0,
    decreases s.len() - i,
{
    if i == s.len() {
        assert(s.take(i) =~= s);
        lemma_digit_sum_nonneg(s);
    } else {
        lemma_digit_sum_take(s, i + 1);
        assert(s.take(i + 1).drop_last() =~= s.take(i));
        assert(digit_sum(s.take(i + 1)) == digit_sum(s.take(i)) + (s[i] - 48));
        lemma_digit_sum_nonneg(s.take(i));
    }
}

pub proof fn lemma_digit_sum_nonneg(s: Seq<u8>)
    requires
        all_digits(s),
    ensures
        digit_sum(s) >= 0,
    decreases s.len(),
{
    if s.len() > 0 {
        assert(all_digits(s.drop_last()));
        lemma_digit_sum_nonneg(s.drop_last());
    }
}

/// The checksum of a block table: each occupied block contributes its
/// position times its file id.
pub open spec fn spec_checksum(blocks: Seq<Option<usize>>) -> int
    decreases blocks.len(),
{
    if blocks.len() == 0 {
        0
    } else {
        spec_checksum(blocks.drop_last()) + match blocks.last() {
            Some(id) => (blocks.len() - 1) * id,
            None => 0,
        }
    }
}

pub proof fn lemma_checksum_take(blocks: Seq<Option<usize>>, i: int)
    requires
        0 <= i <= blocks.len(),
    ensures
        spec_checksum(blocks.take(i)) <= spec_checksum(blocks),
        spec_checksum(blocks.take(i)) >= 0,
    decreases blocks.len() - i,
{
    if i == blocks.len() {
        assert(blocks.take(i) =~= blocks);
        lemma_checksum_nonneg(blocks);
    } else {
        lemma_checksum_take(blocks, i + 1);
        assert(blocks.take(i + 1).drop_last() =~= blocks.take(i));
        lemma_checksum_nonneg(blocks.take(i));
    }
}

pub proof fn lemma_checksum_nonneg(blocks: Seq<Option<usize>>)
    ensures
        spec_checksum(blocks) >= 0,
    decreases blocks.len(),
{
    if blocks.len() > 0 {
        lemma_checksum_nonneg(blocks.drop_last());
    }
}

/// Overwriting one slot exchanges its old entry for the new one in the
/// sequence's multiset.
pub proof fn lemma_multiset_update(s: Seq<Option<usize>>, i: int, v: Option<usize>)
    requires
        0 <= i < s.len(),
    ensures
        s.update(i, v).to_multiset() =~= s.to_multiset().remove(s[i]).insert(v),
{
    let u = s.update(i, v);
    s.to_multiset_ensures();
    u.to_multiset_ensures();
    assert(u.remove(i) =~= s.remove(i));
    assert(u.remove(i).to_multiset() =~= u.to_multiset().remove(u[i]));
    assert(s.remove(i).to_multiset() =~= s.to_multiset().remove(s[i]));
    assert(u.contains(v)) by {
        assert(u[i] == v);
    }
    assert(u.to_multiset().count(v) > 0);
    assert(u.to_multiset().remove(v) =~= s.to_multiset().remove(s[i]));
    assert(u.to_multiset() =~= u.to_multiset().remove(v).insert(v));
}

/// Swapping two slots leaves the sequence's multiset unchanged.
pub proof fn lemma_multiset_swap(s: Seq<Option<usize>>, i: int, j: int)
    requires
        0 <= i < s.len(),
        0 <= j < s.len(),
        i != j,
    ensures
        s.update(i, s[j]).update(j, s[i]).to_multiset() =~= s.to_multiset(),
{
    let a = s[i];
    let b = s[j];
    let s1 = s.update(i, b);
    lemma_multiset_update(s, i, b);
    assert(s1[j] == b);
    lemma_multiset_update(s1, j, a);
    assert(s1.update(j, a).to_multiset() =~= s.to_multiset().remove(a).insert(b).remove(b).insert(a));
    s.to_multiset_ensures();
    assert(s.to_multiset().count(a) > 0);
}

/// A block device: each block free, or holding one block of a file.
pub struct FS {
    pub blocks: Vec<Option<usize>>,
}

impl FS {
    /// Reads a dense map: digits alternate between file lengths and gap
    /// lengths; the i-th file gets id `i`.
    #[verifier::loop_isolation(false)]
    #[verifier::rlimit(60)]
    pub fn parse(input: &str) -> (r: FS)
        requires
            all_digits(input.spec_bytes()),
            digit_sum(input.spec_bytes()) <= usize::MAX,
        ensures
            r.blocks@.len() == digit_sum(input.spec_bytes()),
    {
        let bytes = input.as_bytes();
        proof {
            assert(bytes@ == input.spec_bytes());
        }
        let n = bytes.len();
        // total size
        let mut size: usize = 0;
        let mut i: usize = 0;
        while i < n
            invariant
                i <= n,
                size == digit_sum(bytes@.take(i as int)),
            decreases n - i,
        {
            proof {
                lemma_digit_sum_take(bytes@, i as int + 1);
                assert(bytes@.take(i as int + 1).drop_last() =~= bytes@.take(i as int));
            }
            size = size + ((bytes[i] - 48) as usize);
            i += 1;
        }
        proof {
            assert(bytes@.take(n as int) =~= bytes@);
        }
        let mut blocks: Vec<Option<usize>> = vec![None; size];
        let mut offset: usize = 0;
        let mut i: usize = 0;
        while i < n
            invariant
                i <= n,
                blocks@.len() == size,
                offset == digit_sum(bytes@.take(i as int)),
            decreases n - i,
        {
            proof {
                lemma_digit_sum_take(bytes@, i as int + 1);
                assert(bytes@.take(i as int + 1).drop_last() =~= bytes@.take(i as int));
                lemma_digit_sum_take(bytes@, i as int);
            }
            let d = (bytes[i] - 48) as usize;
            if i % 2 == 0 {
                // a file of length d, id i / 2
                let id = i / 2;
                let mut k: usize = 0;
                while k < d
                    invariant
                        k <= d,
                        blocks@.len() == size,
                        offset + d <= size,
                    decreases d - k,
                {
                    blocks.set(offset + k, Some(id));
                    k += 1;
                }
            }
            offset = offset + d;
            i += 1;
        }
        FS { blocks }
    }

    /// Compacts the device: repeatedly moves the last occupied block into
    /// the first free slot, until no free slot lies left of an occupied
    /// block.
    #[verifier::loop_isolation(false)]
    pub fn defrag(&mut self)
        requires
            old(self).blocks@.len() > 0,
        ensures
            final(self).blocks@.len() == old(self).blocks@.len(),
    {
        let n = self.blocks.len();
        let mut left: usize = 0;
        let mut right: usize = n - 1;
        loop
            invariant
                left <= right,
                left < n,
                right < n,
                self.blocks@.len() == n,
            decreases right - left,
        {
            let ghost l0 = left;
            let ghost r0 = right;
            while left < right && self.blocks[left].is_some()
                invariant
                    l0 <= left,
                    left <= right < n,
                    self.blocks@.len() == n,
                decreases right - left,
            {
                left += 1;
            }
            while left < right && self.blocks[right].is_none()
                invariant
                    l0 <= left,
                    right <= r0,
                    left <= right < n,
                    self.blocks@.len() == n,
                decreases right - left,
            {
                right -= 1;
            }
            if left >= right {
                break ;
            }
            let a = self.blocks[left];
            let b = self.blocks[right];
            self.blocks.set(left, b);
            self.blocks.set(right, a);
            // the swapped slots are settled; move both pointers inward
            left += 1;
            if right == 0 {
                break ;
            }
            right -= 1;
            if left >= right {
                break ;
            }
        }
    }

    /// The checksum: each occupied block contributes its position times
    /// its file id.
    pub fn checksum(&self) -> (r: usize)
        requires
            spec_checksum(self.blocks@) <= usize::MAX,
        ensures
            r == spec_checksum(self.blocks@),
    {
        let n = self.blocks.len();
        let mut acc: usize = 0;
        let mut i: usize = 0;
        while i < n
            invariant
                i <= n,
                n == self.blocks@.len(),
                spec_checksum(self.blocks@) <= usize::MAX,
                acc == spec_checksum(self.blocks@.take(i as int)),
            decreases n - i,
        {
            proof {
                lemma_checksum_take(self.blocks@, i as int + 1);
                assert(self.blocks@.take(i as int + 1).drop_last() =~= self.blocks@.take(i as int));
            }
            match self.blocks[i] {
                Some(id) => {
                    acc = acc + i * id;
                },
                None => {},
            }
            i += 1;
        }
        proof {
            assert(self.blocks@.take(n as int) =~= self.blocks@);
        }
        acc
    }
}

} // verus!
