//! Report safety checks.
//!
//! A report is safe when its adjacent differences are all within 1..=3 in one
//! consistent direction; a dampened check also accepts reports that become
//! safe after removing one element.

use vstd::prelude::*;

verus! {

/// Every adjacent step climbs by 1 to 3.
pub open spec fn all_ascending(r: Seq<i32>) -> bool {
    forall|k: int| 0 <= k < r.len() - 1 ==> 1 <= (#[trigger] r[k + 1]) - r[k] <= 3
}

/// Every adjacent step falls by 1 to 3.
pub open spec fn all_descending(r: Seq<i32>) -> bool {
    forall|k: int| 0 <= k < r.len() - 1 ==> -3 <= (#[trigger] r[k + 1]) - r[k] <= -1
}

/// A safe report: consistently ascending or consistently descending, with
/// every step between 1 and 3.
pub open spec fn report_safe(r: Seq<i32>) -> bool {
    all_ascending(r) || all_descending(r)
}

/// A dampened-safe report: safe as given, or safe after removing one element.
pub open spec fn report_safe_damped(r: Seq<i32>) -> bool {
    report_safe(r) || exists|i: int| 0 <= i < r.len() && report_safe(#[trigger] r.remove(i))
}

/// Decides whether a report is safe.
pub fn is_report_safe(report: &[i32]) -> (r: bool)
    ensures
        r == report_safe(report@),
{
    if report.len() == 0 {
        return true;
    }
    let mut up = true;
    let mut down = true;
    let mut k: usize = 0;
    while k < report.len() - 1
        invariant
            report@.len() > 0,
            0 <= k < report@.len(),
            up == (forall|j: int| 0 <= j < k ==> 1 <= (#[trigger] report@[j + 1]) - report@[j]
                <= 3),
            down == (forall|j: int| 0 <= j < k ==> -3 <= (#[trigger] report@[j + 1]) - report@[j]
                <= -1),
        decreases report@.len() - k,
    {
        let d: i64 = report[k + 1] as i64 - report[k] as i64;
        up = up && 1 <= d && d <= 3;
        down = down && -3 <= d && d <= -1;
        k += 1;
    }
    up || down
}

/// Decides whether a report is safe, allowing one element to be dropped.
pub fn is_report_safe_damped(report: &[i32]) -> (r: bool)
    ensures
        r == report_safe_damped(report@),
{
    if is_report_safe(report) {
        return true;
    }
    let mut i: usize = 0;
    while i < report.len()
        invariant
            0 <= i <= report@.len(),
            forall|j: int| 0 <= j < i ==> !report_safe(#[trigger] report@.remove(j)),
        decreases report@.len() - i,
    {
        let mut shortened: Vec<i32> = Vec::new();
        let mut j: usize = 0;
        while j < report.len()
            invariant
                0 <= i < report@.len(),
                0 <= j <= report@.len(),
                shortened@ == if j <= i {
                    report@.take(j as int)
                } else {
                    report@.take(i as int) + report@.subrange(i + 1 as int, j as int)
                },
            decreases report@.len() - j,
        {
            if j != i {
                shortened.push(report[j]);
                proof {
                    if j < i {
                        assert(shortened@ =~= report@.take(j + 1 as int));
                    } else {
                        assert(shortened@ =~= report@.take(i as int) + report@.subrange(
                            i + 1 as int,
                            j + 1 as int,
                        ));
                    }
                }
            } else {
                proof {
                    assert(shortened@ =~= report@.take(i as int) + report@.subrange(
                        i + 1 as int,
                        j + 1 as int,
                    ));
                }
            }
            j += 1;
        }
        proof {
            assert(shortened@ =~= report@.remove(i as int));
        }
        if is_report_safe(shortened.as_slice()) {
            return true;
        }
        i += 1;
    }
    false
}

/// Number of safe reports among the first `i`.
pub open spec fn safe_count(rs: Seq<Seq<i32>>, i: int) -> nat
    decreases i,
{
    if i <= 0 {
        0
    } else {
        safe_count(rs, i - 1) + if report_safe(rs[i - 1]) {
            1nat
        } else {
            0nat
        }
    }
}

/// Number of dampened-safe reports among the first `i`.
pub open spec fn damped_count(rs: Seq<Seq<i32>>, i: int) -> nat
    decreases i,
{
    if i <= 0 {
        0
    } else {
        damped_count(rs, i - 1) + if report_safe_damped(rs[i - 1]) {
            1nat
        } else {
            0nat
        }
    }
}

/// Counts the safe and the dampened-safe reports of a batch.
pub fn count_safe_reports(reports: &Vec<Vec<i32>>) -> (r: (u64, u64))
    ensures
        r.0 == safe_count(reports.deep_view(), reports.deep_view().len() as int),
        r.1 == damped_count(reports.deep_view(), reports.deep_view().len() as int),
{
    let ghost rs = reports.deep_view();
    let mut safe: u64 = 0;
    let mut damp: u64 = 0;
    let mut i: usize = 0;
    while i < reports.len()
        invariant
            rs == reports.deep_view(),
            reports@.len() == rs.len(),
            0 <= i <= rs.len(),
            safe <= i,
            damp <= i,
            safe == safe_count(rs, i as int),
            damp == damped_count(rs, i as int),
        decreases rs.len() - i,
    {
        proof {
            assert(rs[i as int] == reports@[i as int]@);
        }
        if is_report_safe(reports[i].as_slice()) {
            safe += 1;
            damp += 1;
        } else if is_report_safe_damped(reports[i].as_slice()) {
            damp += 1;
        }
        i += 1;
    }
    (safe, damp)
}

} // verus!
