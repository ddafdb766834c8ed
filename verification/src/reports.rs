//! Level reports: which read as steadily, gently sloped sequences.

use vstd::prelude::*;

verus! {

/// Every step climbs by one to three.
pub open spec fn all_increasing(s: Seq<i32>) -> bool {
    forall|i: int| 0 <= i < s.len() - 1 ==> 1 <= (#[trigger] s[i + 1]) - s[i] <= 3
}

/// Every step falls by one to three.
pub open spec fn all_decreasing(s: Seq<i32>) -> bool {
    forall|i: int| 0 <= i < s.len() - 1 ==> -3 <= (#[trigger] s[i + 1]) - s[i] <= -1
}

/// A report is safe when its levels change steadily: strictly monotone,
/// each step of magnitude one to three.
pub open spec fn spec_safe(s: Seq<i32>) -> bool {
    all_increasing(s) || all_decreasing(s)
}

/// Whether `report` is safe.
#[verifier::loop_isolation(false)]
pub fn is_safe(report: &Vec<i32>) -> (r: bool)
    ensures
        r == spec_safe(report@),
{
    let n = report.len();
    let mut inc = true;
    let mut dec = true;
    let mut i: usize = 0;
    while i + 1 < n
        invariant
            i <= n,
            n > 0 ==> i < n,
            inc == forall|j: int| 0 <= j < i ==> 1 <= (#[trigger] report@[j + 1]) - report@[j] <= 3,
            dec == forall|j: int|
                0 <= j < i ==> -3 <= (#[trigger] report@[j + 1]) - report@[j] <= -1,
        decreases n - i,
    {
        let d = (report[i + 1] as i64) - (report[i] as i64);
        let step_inc = 1 <= d && d <= 3;
        let step_dec = -3 <= d && d <= -1;
        inc = inc && step_inc;
        dec = dec && step_dec;
        i += 1;
    }
    inc || dec
}

/// A report one removal away from safe.
pub open spec fn spec_fixable(s: Seq<i32>) -> bool {
    exists|i: int| 0 <= i < s.len() && spec_safe(#[trigger] s.remove(i))
}

/// Whether removing a single level can make `report` safe.
#[verifier::loop_isolation(false)]
pub fn is_fixable(report: &Vec<i32>) -> (r: bool)
    ensures
        r == spec_fixable(report@),
{
    let n = report.len();
    let mut i: usize = 0;
    while i < n
        invariant
            i <= n,
            forall|j: int| 0 <= j < i ==> !spec_safe(#[trigger] report@.remove(j)),
        decreases n - i,
    {
        let mut shorter: Vec<i32> = Vec::new();
        let mut k: usize = 0;
        while k < n
            invariant
                k <= n,
                i < n,
                shorter@ == if k <= i {
                    report@.take(k as int)
                } else {
                    report@.remove(i as int).take(k as int - 1)
                },
            decreases n - k,
        {
            if k != i {
                shorter.push(report[k]);
                proof {
                    if k > i {
                        assert(report@.remove(i as int)[k as int - 1] == report@[k as int]);
                        assert(report@.remove(i as int).take(k as int) =~= report@.remove(
                            i as int,
                        ).take(k as int - 1).push(report@[k as int]));
                    } else {
                        assert(report@.take(k as int + 1) =~= report@.take(k as int).push(
                            report@[k as int],
                        ));
                    }
                }
            } else {
                proof {
                    assert(report@.remove(i as int).take(k as int) =~= report@.take(k as int));
                }
            }
            k += 1;
        }
        proof {
            assert(shorter@ =~= report@.remove(i as int));
        }
        if is_safe(&shorter) {
            return true;
        }
        i += 1;
    }
    false
}

/// How many of the reports are safe as given.
#[verifier::loop_isolation(false)]
pub fn count_safe(reports: &Vec<Vec<i32>>) -> (r: usize)
    ensures
        r <= reports@.len(),
{
    let mut count: usize = 0;
    let mut i: usize = 0;
    while i < reports.len()
        invariant
            i <= reports@.len(),
            count <= i,
        decreases reports@.len() - i,
    {
        if is_safe(&reports[i]) {
            count += 1;
        }
        i += 1;
    }
    count
}

/// How many unsafe reports a single removal can mend.
#[verifier::loop_isolation(false)]
pub fn count_fixable(reports: &Vec<Vec<i32>>) -> (r: usize)
    ensures
        r <= reports@.len(),
{
    let mut count: usize = 0;
    let mut i: usize = 0;
    while i < reports.len()
        invariant
            i <= reports@.len(),
            count <= i,
        decreases reports@.len() - i,
    {
        if !is_safe(&reports[i]) && is_fixable(&reports[i]) {
            count += 1;
        }
        i += 1;
    }
    count
}

} // verus!
