//! Counting helpers used as termination measures by worklist loops.

use vstd::prelude::*;

verus! {

/// Number of `true` entries in `s`.
pub open spec fn count_true(s: Seq<bool>) -> int
    decreases s.len(),
{
    if s.len() == 0 {
        0
    } else {
        count_true(s.drop_last()) + if s.last() {
            1int
        } else {
            0int
        }
    }
}

pub proof fn lemma_count_true_bounds(s: Seq<bool>)
    ensures
        0 <= count_true(s) <= s.len(),
    decreases s.len(),
{
    if s.len() > 0 {
        lemma_count_true_bounds(s.drop_last());
    }
}

/// Overwriting one entry changes the count by the difference of the two
/// entries' contributions.
pub proof fn lemma_count_true_update(s: Seq<bool>, i: int, v: bool)
    requires
        0 <= i < s.len(),
    ensures
        count_true(s.update(i, v)) == count_true(s) - (if s[i] {
            1int
        } else {
            0int
        }) + (if v {
            1int
        } else {
            0int
        }),
    decreases s.len(),
{
    let t = s.update(i, v);
    if i == s.len() - 1 {
        assert(t.drop_last() =~= s.drop_last());
    } else {
        assert(t.drop_last() =~= s.drop_last().update(i, v));
        lemma_count_true_update(s.drop_last(), i, v);
    }
}

/// The weight an optional cost contributes to the engine's termination
/// measure: an unknown cost weighs more than any recorded one can.
pub open spec fn pot(c: Option<u64>, cap: int) -> int {
    match c {
        None => cap + 1,
        Some(v) => v as int,
    }
}

/// Total measure of a table of optional costs.
pub open spec fn sum_pot(s: Seq<Option<u64>>, cap: int) -> int
    decreases s.len(),
{
    if s.len() == 0 {
        0
    } else {
        sum_pot(s.drop_last(), cap) + pot(s.last(), cap)
    }
}

pub proof fn lemma_sum_pot_bounds(s: Seq<Option<u64>>, cap: int)
    requires
        cap >= 0,
    ensures
        0 <= sum_pot(s, cap),
    decreases s.len(),
{
    if s.len() > 0 {
        lemma_sum_pot_bounds(s.drop_last(), cap);
    }
}

/// Overwriting one entry changes the measure by the difference of the two
/// entries' weights.
pub proof fn lemma_sum_pot_update(s: Seq<Option<u64>>, i: int, v: Option<u64>, cap: int)
    requires
        0 <= i < s.len(),
    ensures
        sum_pot(s.update(i, v), cap) == sum_pot(s, cap) - pot(s[i], cap) + pot(v, cap),
    decreases s.len(),
{
    let t = s.update(i, v);
    if i == s.len() - 1 {
        assert(t.drop_last() =~= s.drop_last());
    } else {
        assert(t.drop_last() =~= s.drop_last().update(i, v));
        lemma_sum_pot_update(s.drop_last(), i, v, cap);
    }
}

} // verus!
