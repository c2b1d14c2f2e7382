//! Paired-list distance and similarity scoring.
//!
//! Two columns of values are each sorted, then compared position by
//! position; a second score weighs each left value by how often it occurs on
//! the right.

use vstd::prelude::*;

verus! {

broadcast use vstd::seq_lib::group_to_multiset_ensures;

/// Nondecreasing order.
pub open spec fn sorted(s: Seq<i32>) -> bool {
    forall|i: int, j: int| 0 <= i < j < s.len() ==> s[i] <= s[j]
}

/// Sorts the values; the result holds exactly the input values.
pub fn sort_values(input: &Vec<i32>) -> (r: Vec<i32>)
    ensures
        sorted(r@),
        r@.to_multiset() == input@.to_multiset(),
        r@.len() == input@.len(),
{
    let mut r: Vec<i32> = Vec::new();
    let mut i: usize = 0;
    while i < input.len()
        invariant
            0 <= i <= input@.len(),
            sorted(r@),
            r@.len() == i,
            r@.to_multiset() == input@.take(i as int).to_multiset(),
        decreases input@.len() - i,
    {
        let x = input[i];
        let mut pos: usize = 0;
        while pos < r.len() && r[pos] <= x
            invariant
                0 <= pos <= r@.len(),
                forall|j: int| 0 <= j < pos ==> r@[j] <= x,
            decreases r@.len() - pos,
        {
            pos += 1;
        }
        let ghost before = r@;
        r.insert(pos, x);
        proof {
            assert(forall|j: int| 0 <= j < pos ==> (#[trigger] r@[j]) == before[j]);
            assert(r@[pos as int] == x);
            assert(forall|j: int| pos < j < r@.len() ==> (#[trigger] r@[j]) == before[j - 1]);
            assert forall|j: int| pos < j < r@.len() implies x <= r@[j] by {
                assert(before[pos as int] <= before[j - 1]);
                assert(x < before[pos as int]);
            }
            assert forall|a: int, b: int| 0 <= a < b < r@.len() implies r@[a] <= r@[b] by {
                if b < pos {
                } else if b == pos {
                    assert(r@[a] == before[a] && before[a] <= x);
                } else if a == pos {
                } else if a < pos {
                    assert(r@[a] == before[a] && before[a] <= x && x <= r@[b]);
                } else {
                    assert(r@[a] == before[a - 1] && r@[b] == before[b - 1]);
                }
            }
            broadcast use vstd::seq_lib::to_multiset_insert;

            assert(input@.take(i + 1 as int).drop_last() =~= input@.take(i as int));
            assert(input@.take(i + 1 as int) =~= input@.take(i as int).push(x));
        }
        i += 1;
    }
    proof {
        assert(input@.take(input@.len() as int) =~= input@);
    }
    r
}

/// Distance of one pair.
pub open spec fn abs_diff(a: int, b: int) -> nat {
    if a >= b {
        (a - b) as nat
    } else {
        (b - a) as nat
    }
}

/// Total distance of the first `i` pairs.
pub open spec fn dist_sum(l: Seq<i32>, r: Seq<i32>, i: int) -> nat
    decreases i,
{
    if i <= 0 {
        0
    } else {
        dist_sum(l, r, i - 1) + abs_diff(l[i - 1] as int, r[i - 1] as int)
    }
}

/// Sums the pairwise distances of two equally long columns.
pub fn total_distance(lhs: &Vec<i32>, rhs: &Vec<i32>) -> (r: u64)
    requires
        lhs@.len() == rhs@.len(),
        lhs@.len() <= 0x7fff_ffff,
    ensures
        r == dist_sum(lhs@, rhs@, lhs@.len() as int),
{
    let mut total: u64 = 0;
    let mut i: usize = 0;
    while i < lhs.len()
        invariant
            lhs@.len() == rhs@.len(),
            lhs@.len() <= 0x7fff_ffff,
            0 <= i <= lhs@.len(),
            total == dist_sum(lhs@, rhs@, i as int),
            total <= i * 0x1_0000_0000,
        decreases lhs@.len() - i,
    {
        let a = lhs[i] as i64;
        let b = rhs[i] as i64;
        let d: u64 = if a >= b {
            (a - b) as u64
        } else {
            (b - a) as u64
        };
        proof {
            assert((i + 1) * 0x1_0000_0000 == i * 0x1_0000_0000 + 0x1_0000_0000)
                by (nonlinear_arith);
            assert(i * 0x1_0000_0000 <= 0x7fff_ffff * 0x1_0000_0000int) by (nonlinear_arith)
                requires
                    0 <= i <= 0x7fff_ffff,
            ;
        }
        total = total + d;
        i += 1;
    }
    total
}

/// Occurrences of `v` in `s`.
pub open spec fn count_eq(s: Seq<i32>, v: i32) -> nat
    decreases s.len(),
{
    if s.len() == 0 {
        0
    } else {
        count_eq(s.drop_last(), v) + if s.last() == v {
            1nat
        } else {
            0nat
        }
    }
}

/// Similarity total of the first `i` left values: each weighted by its
/// number of occurrences on the right.
pub open spec fn sim_sum(l: Seq<i32>, r: Seq<i32>, i: int) -> int
    decreases i,
{
    if i <= 0 {
        0
    } else {
        sim_sum(l, r, i - 1) + l[i - 1] * count_eq(r, l[i - 1])
    }
}

proof fn lemma_count_eq_le(s: Seq<i32>, v: i32)
    ensures
        count_eq(s, v) <= s.len(),
    decreases s.len(),
{
    if s.len() > 0 {
        lemma_count_eq_le(s.drop_last(), v);
    }
}

/// Number of times `v` occurs in `s`.
pub fn count_occurrences(s: &Vec<i32>, v: i32) -> (n: usize)
    ensures
        n == count_eq(s@, v),
{
    let mut n: usize = 0;
    let mut k: usize = 0;
    while k < s.len()
        invariant
            0 <= k <= s@.len(),
            n == count_eq(s@.take(k as int), v),
            n <= k,
        decreases s@.len() - k,
    {
        proof {
            assert(s@.take(k + 1 as int).drop_last() =~= s@.take(k as int));
            assert(s@.take(k + 1 as int).last() == s@[k as int]);
        }
        if s[k] == v {
            n += 1;
        }
        k += 1;
    }
    proof {
        assert(s@.take(s@.len() as int) =~= s@);
    }
    n
}

/// Sums each left value weighted by its occurrences on the right.
pub fn similarity_score(lhs: &Vec<i32>, rhs: &Vec<i32>) -> (r: i128)
    requires
        lhs@.len() <= 0x7fff_ffff,
        rhs@.len() <= 0x7fff_ffff,
    ensures
        r == sim_sum(lhs@, rhs@, lhs@.len() as int),
{
    let mut total: i128 = 0;
    let mut i: usize = 0;
    while i < lhs.len()
        invariant
            lhs@.len() <= 0x7fff_ffff,
            rhs@.len() <= 0x7fff_ffff,
            0 <= i <= lhs@.len(),
            total == sim_sum(lhs@, rhs@, i as int),
            -(i * 0x4000_0000_0000_0000int) <= total <= i * 0x4000_0000_0000_0000int,
        decreases lhs@.len() - i,
    {
        let v = lhs[i];
        let count = count_occurrences(rhs, v);
        proof {
            lemma_count_eq_le(rhs@, v);
            assert(-0x4000_0000_0000_0000 <= v as int * count as int <= 0x4000_0000_0000_0000)
                by (nonlinear_arith)
                requires
                    -0x8000_0000 <= v as int <= 0x7fff_ffff,
                    0 <= count as int <= 0x7fff_ffff,
            ;
            assert((i + 1) * 0x4000_0000_0000_0000int == i * 0x4000_0000_0000_0000int
                + 0x4000_0000_0000_0000int) by (nonlinear_arith);
            assert(i * 0x4000_0000_0000_0000int <= 0x7fff_ffff * 0x4000_0000_0000_0000int)
                by (nonlinear_arith)
                requires
                    0 <= i <= 0x7fff_ffff,
            ;
        }
        let term: i128 = (v as i128) * (count as i128);
        total = total + term;
        i += 1;
    }
    total
}

} // verus!
