//! Scheduler: static round-robin partitioning of signature sets over a
//! bounded worker pool.

use vstd::prelude::*;
use vstd::arithmetic::div_mod::lemma_fundamental_div_mod;
use vstd::arithmetic::div_mod::lemma_fundamental_div_mod_converse_div;
use vstd::arithmetic::div_mod::lemma_fundamental_div_mod_converse_mod;
use crate::set::Pattern;

verus! {

/// How many workers serve `n` sets under a configured maximum: one per set,
/// but never more than the maximum.
pub open spec fn worker_count(n: int, max_workers: int) -> int {
    if n < max_workers {
        n
    } else {
        max_workers
    }
}

/// The sets among the first `n` that round-robin assigns to worker `k` of
/// `w`: those whose load index is congruent to `k` modulo `w`, in order.
pub open spec fn assigned(sets: Seq<Pattern>, n: int, k: int, w: int) -> Seq<Pattern>
    decreases n,
{
    if n <= 0 {
        Seq::empty()
    } else if (n - 1) % w == k {
        assigned(sets, n - 1, k, w).push(sets[n - 1])
    } else {
        assigned(sets, n - 1, k, w)
    }
}

/// How many of the first `n` load indices are congruent to `k` modulo `w`.
pub open spec fn assigned_count(n: int, k: int, w: int) -> int {
    if n <= k {
        0
    } else {
        (n - 1 - k) / w + 1
    }
}

/// Distribute the sets over `min(max_workers, sets.len())` workers by
/// round-robin on their load order: set `i` goes to worker `i mod w`.
pub fn partition(sets: Vec<Pattern>, max_workers: usize) -> (r: Vec<Vec<Pattern>>)
    requires
        max_workers >= 1,
    ensures
        r@.len() == worker_count(sets@.len() as int, max_workers as int),
        forall|k: int|
            0 <= k < r@.len() ==> (#[trigger] r@[k])@ == assigned(
                sets@,
                sets@.len() as int,
                k,
                r@.len() as int,
            ),
{
    let ghost all = sets@;
    let n = sets.len();
    let w = if n < max_workers {
        n
    } else {
        max_workers
    };
    let mut buckets: Vec<Vec<Pattern>> = Vec::new();
    while buckets.len() < w
        invariant
            buckets@.len() <= w,
            forall|k: int| 0 <= k < buckets@.len() ==> (#[trigger] buckets@[k])@ == Seq::<
                Pattern,
            >::empty(),
        decreases w - buckets@.len(),
    {
        buckets.push(Vec::new());
    }
    if w == 0 {
        return buckets;
    }
    let mut rem = sets;
    let mut i: usize = 0;
    proof {
        assert(rem@ =~= all.skip(0));
        assert(all.len() <= usize::MAX);
    }
    while rem.len() > 0
        invariant
            1 <= w,
            w == worker_count(all.len() as int, max_workers as int),
            all.len() <= usize::MAX,
            i + rem@.len() == all.len(),
            rem@ == all.skip(i as int),
            buckets@.len() == w,
            forall|k: int|
                0 <= k < w ==> (#[trigger] buckets@[k])@ == assigned(all, i as int, k, w as int),
        decreases rem@.len(),
    {
        let ghost old_buckets = buckets@;
        let p = rem.remove(0);
        proof {
            assert(all.skip(i as int)[0] == all[i as int]);
            assert(all.skip(i as int).remove(0) =~= all.skip(i + 1));
        }
        let k = i % w;
        let mut b = buckets.remove(k);
        b.push(p);
        buckets.insert(k, b);
        proof {
            assert((i as int) % (w as int) == k as int);
            assert forall|j: int| 0 <= j < w implies (#[trigger] buckets@[j])@ == assigned(
                all,
                i + 1,
                j,
                w as int,
            ) by {
                if j == k {
                    assert(buckets@[j] == b);
                    assert(b@ == old_buckets[j]@.push(all[i as int]));
                } else {
                    if j < k {
                        assert(buckets@[j] == old_buckets.remove(k as int).insert(k as int, b)[j]);
                        assert(buckets@[j] == old_buckets[j]);
                    } else {
                        assert(buckets@[j] == old_buckets.remove(k as int).insert(k as int, b)[j]);
                        assert(old_buckets.remove(k as int)[j - 1] == old_buckets[j]);
                        assert(buckets@[j] == old_buckets[j]);
                    }
                    assert(assigned(all, i + 1, j, w as int) == assigned(all, i as int, j, w as int));
                }
            }
        }
        i = i + 1;
    }
    proof {
        assert(i == all.len());
    }
    buckets
}

/// One exact quotient and remainder pin down division and modulus.
proof fn lemma_div_mod_eq(x: int, d: int, q: int, r: int)
    requires
        d > 0,
        0 <= r < d,
        x == q * d + r,
    ensures
        x / d == q,
        x % d == r,
{
    lemma_fundamental_div_mod_converse_div(x, d, q, r);
    lemma_fundamental_div_mod_converse_mod(x, d, q, r);
}

/// One load step extends exactly the worker of index `n - 1`, and that
/// worker's partition has `(n - 1) / w` earlier members.
proof fn lemma_count_step(n: int, k: int, w: int)
    requires
        0 <= k < w,
        n >= 1,
    ensures
        assigned_count(n, k, w) == assigned_count(n - 1, k, w) + if (n - 1) % w == k {
            1int
        } else {
            0int
        },
        (n - 1) % w == k ==> assigned_count(n - 1, k, w) == (n - 1) / w,
{
    lemma_fundamental_div_mod(n - 1, w);
    let q = (n - 1) / w;
    let r = (n - 1) % w;
    assert(n - 1 == w * q + r);
    assert(0 <= r < w);
    assert(q >= 0) by {
        if q < 0 {
            assert(w * q <= -w) by (nonlinear_arith)
                requires
                    w > 0,
                    q <= -1,
            ;
        }
    }
    if r == k {
        assert(assigned_count(n - 1, k, w) == q) by {
            if n - 1 <= k {
                assert(w * q == n - 1 - k);
                assert(q == 0) by {
                    if q >= 1 {
                        assert(w * q >= w) by (nonlinear_arith)
                            requires
                                w > 0,
                                q >= 1,
                        ;
                    }
                }
            } else {
                let d = n - 1 - k;
                assert(d == w * q);
                assert(q >= 1) by {
                    if q == 0 {
                        assert(w * 0 == 0) by (nonlinear_arith);
                    }
                }
                assert(d - 1 == (q - 1) * w + (w - 1)) by (nonlinear_arith)
                    requires
                        d == w * q,
                ;
                lemma_div_mod_eq(d - 1, w, q - 1, w - 1);
            }
        }
        assert(assigned_count(n, k, w) == q + 1) by {
            assert(n > k);
            assert(n - 1 - k == q * w + 0) by (nonlinear_arith)
                requires
                    n - 1 == w * q + k,
            ;
            lemma_div_mod_eq(n - 1 - k, w, q, 0);
        }
    } else {
        assert(assigned_count(n, k, w) == assigned_count(n - 1, k, w)) by {
            if n - 1 < k {
                // both counts are zero
            } else if n - 1 == k {
                assert(k == 0 * w + k) by (nonlinear_arith);
                lemma_div_mod_eq(k, w, 0, k);
                assert(false);
            } else {
                let d = n - 1 - k;
                assert(d >= 1);
                assert(d % w != 0) by {
                    if r > k {
                        assert(d == q * w + (r - k)) by (nonlinear_arith)
                            requires
                                d == w * q + r - k,
                        ;
                        lemma_div_mod_eq(d, w, q, r - k);
                    } else {
                        assert(r < k);
                        assert(d == (q - 1) * w + (w + r - k)) by (nonlinear_arith)
                            requires
                                d == w * q + r - k,
                        ;
                        lemma_div_mod_eq(d, w, q - 1, w + r - k);
                    }
                }
                lemma_fundamental_div_mod(d, w);
                let s = d / w;
                let t = d % w;
                assert(s >= 0) by {
                    if s < 0 {
                        assert(w * s <= -w) by (nonlinear_arith)
                            requires
                                w > 0,
                                s <= -1,
                        ;
                    }
                }
                assert(d - 1 == s * w + (t - 1)) by (nonlinear_arith)
                    requires
                        d == w * s + t,
                ;
                lemma_div_mod_eq(d - 1, w, s, t - 1);
                assert((n - 1 - 1 - k) / w == (n - 1 - k) / w);
            }
        }
    }
}

/// A worker's partition holds exactly one set per congruent load index.
proof fn lemma_assigned_len(sets: Seq<Pattern>, n: int, k: int, w: int)
    requires
        0 <= k < w,
    ensures
        assigned(sets, n, k, w).len() == assigned_count(n, k, w),
    decreases n,
{
    if n <= 0 {
    } else {
        lemma_assigned_len(sets, n - 1, k, w);
        lemma_count_step(n, k, w);
    }
}

/// The `m`-th set of worker `k`'s partition is the set at load index
/// `k + m * w`.
proof fn lemma_assigned_at(sets: Seq<Pattern>, n: int, k: int, w: int, m: int)
    requires
        0 <= k < w,
        0 <= m < assigned_count(n, k, w),
    ensures
        k + m * w < n,
        assigned(sets, n, k, w)[m] == sets[k + m * w],
    decreases n,
{
    assert(n >= 1);
    lemma_count_step(n, k, w);
    lemma_assigned_len(sets, n - 1, k, w);
    if (n - 1) % w == k {
        if m < assigned_count(n - 1, k, w) {
            lemma_assigned_at(sets, n - 1, k, w, m);
        } else {
            assert(m == assigned_count(n - 1, k, w));
            assert(m == (n - 1) / w);
            lemma_fundamental_div_mod(n - 1, w);
            assert(k + m * w == n - 1) by (nonlinear_arith)
                requires
                    n - 1 == w * m + k,
            ;
            assert(assigned(sets, n, k, w)[m] == sets[n - 1]);
        }
    } else {
        lemma_assigned_at(sets, n - 1, k, w, m);
    }
}

/// The set at load index `idx` stands at position `idx / w` of worker
/// `idx % w`'s partition.
proof fn lemma_assigned_find(sets: Seq<Pattern>, n: int, k: int, w: int, idx: int)
    requires
        0 <= k < w,
        0 <= idx < n,
        idx % w == k,
    ensures
        idx / w < assigned_count(n, k, w),
        assigned(sets, n, k, w)[idx / w] == sets[idx],
    decreases n,
{
    lemma_count_step(n, k, w);
    lemma_assigned_len(sets, n - 1, k, w);
    if idx == n - 1 {
        assert(idx / w == assigned_count(n - 1, k, w));
        assert(assigned(sets, n, k, w)[idx / w] == sets[n - 1]);
    } else {
        lemma_assigned_find(sets, n - 1, k, w, idx);
    }
}

/// Round-robin assignment, size: worker `k` of `w` receives exactly the
/// sets at load indices congruent to `k` modulo `w`, counted by
/// `assigned_count`.
pub proof fn lemma_round_robin_count(sets: Seq<Pattern>, k: int, w: int)
    requires
        0 <= k < w,
    ensures
        assigned(sets, sets.len() as int, k, w).len() == assigned_count(sets.len() as int, k, w),
{
    lemma_assigned_len(sets, sets.len() as int, k, w);
}

/// Round-robin assignment, soundness: the `m`-th set of worker `k`'s
/// partition is the set at load index `k + m * w`, so each worker holds
/// exactly the sets at indices `k, k + w, k + 2w, ...` in load order.
pub proof fn lemma_round_robin_member(sets: Seq<Pattern>, k: int, w: int, m: int)
    requires
        0 <= k < w,
        0 <= m < assigned(sets, sets.len() as int, k, w).len(),
    ensures
        k + m * w < sets.len(),
        assigned(sets, sets.len() as int, k, w)[m] == sets[k + m * w],
{
    lemma_assigned_len(sets, sets.len() as int, k, w);
    lemma_assigned_at(sets, sets.len() as int, k, w, m);
}

/// Round-robin assignment, completeness: every set appears, without
/// duplication — the set at load index `idx` stands at position `idx / w`
/// of worker `idx % w`'s partition and nowhere else.
pub proof fn lemma_round_robin_complete(sets: Seq<Pattern>, k: int, w: int, idx: int)
    requires
        0 <= k < w,
        0 <= idx < sets.len(),
        idx % w == k,
    ensures
        idx / w < assigned(sets, sets.len() as int, k, w).len(),
        assigned(sets, sets.len() as int, k, w)[idx / w] == sets[idx],
{
    lemma_assigned_len(sets, sets.len() as int, k, w);
    lemma_assigned_find(sets, sets.len() as int, k, w, idx);
}

/// The summed sizes of the first `j` workers' partitions.
pub open spec fn total_assigned(sets: Seq<Pattern>, j: int, w: int) -> int
    decreases j,
{
    if j <= 0 {
        0
    } else {
        total_assigned(sets, j - 1, w) + assigned(sets, sets.len() as int, j - 1, w).len()
    }
}

/// The summed counts of the first `j` workers over the first `n` indices.
spec fn count_sum(n: int, j: int, w: int) -> int
    decreases j,
{
    if j <= 0 {
        0
    } else {
        count_sum(n, j - 1, w) + assigned_count(n, j - 1, w)
    }
}

proof fn lemma_count_sum_zero(j: int, w: int)
    requires
        w >= 1,
    ensures
        count_sum(0, j, w) == 0,
    decreases j,
{
    if j > 0 {
        lemma_count_sum_zero(j - 1, w);
    }
}

proof fn lemma_count_sum_step(n: int, j: int, w: int)
    requires
        w >= 1,
        n >= 1,
        j <= w,
    ensures
        count_sum(n, j, w) == count_sum(n - 1, j, w) + if (n - 1) % w < j {
            1int
        } else {
            0int
        },
    decreases j,
{
    if j > 0 {
        lemma_count_sum_step(n, j - 1, w);
        lemma_count_step(n, j - 1, w);
    }
}

proof fn lemma_count_sum_total(n: int, w: int)
    requires
        w >= 1,
        n >= 0,
    ensures
        count_sum(n, w, w) == n,
    decreases n,
{
    if n == 0 {
        lemma_count_sum_zero(w, w);
    } else {
        lemma_count_sum_total(n - 1, w);
        lemma_count_sum_step(n, w, w);
        assert(0 <= (n - 1) % w < w);
    }
}

proof fn lemma_total_eq_count_sum(sets: Seq<Pattern>, j: int, w: int)
    requires
        w >= 1,
        j <= w,
    ensures
        total_assigned(sets, j, w) == count_sum(sets.len() as int, j, w),
    decreases j,
{
    if j > 0 {
        lemma_total_eq_count_sum(sets, j - 1, w);
        lemma_assigned_len(sets, sets.len() as int, j - 1, w);
    }
}

/// Round-robin assignment, totality: the `w` workers' partition sizes sum
/// to the number of sets.
pub proof fn lemma_round_robin_total(sets: Seq<Pattern>, w: int)
    requires
        w >= 1,
    ensures
        total_assigned(sets, w, w) == sets.len(),
{
    lemma_total_eq_count_sum(sets, w, w);
    lemma_count_sum_total(sets.len() as int, w);
}

} // verus!
