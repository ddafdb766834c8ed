//! Calibration equations: can a target be built from operands read right
//! to left with addition and multiplication.

use vstd::prelude::*;

verus! {

/// Whether `target` can be produced from `nums` by inserting `+` and `*`
/// between the operands, evaluated left to right. Read backward: the last
/// operand was either multiplied in (the target must divide evenly) or
/// added (the target must cover it).
pub open spec fn spec_solvable(target: int, nums: Seq<u64>) -> bool
    decreases nums.len(),
{
    if nums.len() == 0 {
        false
    } else if nums.len() == 1 {
        nums[0] == target
    } else {
        let last = nums.last() as int;
        ||| (last != 0 && target % last == 0 && spec_solvable(target / last, nums.drop_last()))
        ||| (target >= last && spec_solvable(target - last, nums.drop_last()))
    }
}

/// Decides whether the equation `target = nums[0] op nums[1] op ...` has
/// a solution over `+` and `*`.
pub fn test(target: u64, numbers: &[u64]) -> (r: bool)
    requires
        forall|i: int| 0 <= i < numbers@.len() ==> #[trigger] numbers@[i] != 0,
    ensures
        r == spec_solvable(target as int, numbers@),
    decreases numbers@.len(),
{
    if numbers.len() == 0 {
        return false;
    }
    let last = numbers[numbers.len() - 1];
    if numbers.len() == 1 {
        return last == target;
    }
    let rest = &numbers[0..numbers.len() - 1];
    proof {
        assert(rest@ =~= numbers@.drop_last());
    }
    if target % last == 0 && test(target / last, rest) {
        return true;
    }
    if target >= last && test(target - last, rest) {
        return true;
    }
    false
}

/// Sums the targets of the solvable equations.
#[verifier::loop_isolation(false)]
pub fn total_calibration(equations: &Vec<(u64, Vec<u64>)>) -> (r: Option<u64>)
    requires
        forall|e: int, i: int|
            0 <= e < equations@.len() && 0 <= i < equations@[e].1@.len()
                ==> #[trigger] equations@[e].1@[i] != 0,
    ensures
        match r {
            Some(total) => total == spec_total(equations@),
            None => spec_total(equations@) > u64::MAX,
        },
{
    let mut acc: u64 = 0;
    let mut e: usize = 0;
    proof {
        assert(equations@.take(0) =~= Seq::<(u64, Vec<u64>)>::empty());
    }
    while e < equations.len()
        invariant
            e <= equations@.len(),
            acc == spec_total(equations@.take(e as int)),
        decreases equations@.len() - e,
    {
        let (target, nums) = &equations[e];
        proof {
            assert(equations@.take(e as int + 1).drop_last() =~= equations@.take(e as int));
            lemma_total_mono(equations@, e as int + 1);
            lemma_total_mono(equations@, e as int);
        }
        if test(*target, nums.as_slice()) {
            match acc.checked_add(*target) {
                Some(next) => {
                    acc = next;
                },
                None => {
                    return None;
                },
            }
        }
        e += 1;
    }
    proof {
        assert(equations@.take(equations@.len() as int) =~= equations@);
    }
    Some(acc)
}

/// The summed targets of the solvable equations.
pub open spec fn spec_total(equations: Seq<(u64, Vec<u64>)>) -> int
    decreases equations.len(),
{
    if equations.len() == 0 {
        0
    } else {
        spec_total(equations.drop_last()) + if spec_solvable(
            equations.last().0 as int,
            equations.last().1@,
        ) {
            equations.last().0 as int
        } else {
            0
        }
    }
}

/// A partial sum never exceeds the whole.
proof fn lemma_total_mono(equations: Seq<(u64, Vec<u64>)>, e: int)
    requires
        0 <= e <= equations.len(),
    ensures
        0 <= spec_total(equations.take(e)) <= spec_total(equations),
    decreases equations.len() - e,
{
    if e == equations.len() {
        assert(equations.take(e) =~= equations);
        lemma_total_nonneg(equations);
    } else {
        lemma_total_mono(equations, e + 1);
        assert(equations.take(e + 1).drop_last() =~= equations.take(e));
        lemma_total_nonneg(equations.take(e));
    }
}

proof fn lemma_total_nonneg(equations: Seq<(u64, Vec<u64>)>)
    ensures
        spec_total(equations) >= 0,
    decreases equations.len(),
{
    if equations.len() > 0 {
        lemma_total_nonneg(equations.drop_last());
    }
}

} // verus!
