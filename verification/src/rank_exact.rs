//! The exact-arithmetic reading of one propagation step.
//!
//! [`crate::rank`] computes in fixed-point arithmetic, where floor
//! division can shave mass off. To state what the update rule itself does
//! to the total — before any rounding — this module reads a score vector
//! as integer numerators over one common positive denominator `den`, and
//! lets a step grow the denominator instead of dividing: the denominator
//! after a step is `den * p * dden * n`, where `p` is the product of the
//! nonzero out-degrees, `dden` the damping denominator and `n` the node
//! count, so every division a step needs is exact.
//!
//! The two laws at the bottom say what the update rule conserves: with no
//! dangling node a full unit of mass comes out of a step exactly; a
//! dangling node holding positive mass drops the total strictly below a
//! unit.

use vstd::prelude::*;
use vstd::arithmetic::div_mod::{lemma_fundamental_div_mod, lemma_mod_multiples_basic};
use crate::rank::valid_graph;

verus! {

/// Sum of the first `u` numerators.
pub open spec fn nums_sum(nums: Seq<int>, u: int) -> int
    decreases u,
{
    if u <= 0 {
        0
    } else {
        nums_sum(nums, u - 1) + nums[u - 1]
    }
}

/// Occurrences of node `v` among the first `j` edge targets.
pub open spec fn count_edges(targets: Seq<usize>, v: int, j: int) -> int
    decreases j,
{
    if j <= 0 {
        0
    } else {
        count_edges(targets, v, j - 1) + if targets[j - 1] as int == v {
            1int
        } else {
            0int
        }
    }
}

/// Product of the nonzero out-degrees of the first `u` nodes.
pub open spec fn degree_product(g: Seq<Seq<usize>>, u: int) -> int
    decreases u,
{
    if u <= 0 {
        1
    } else {
        degree_product(g, u - 1) * (if g[u - 1].len() == 0 {
            1int
        } else {
            g[u - 1].len() as int
        })
    }
}

/// What the first `u` nodes send to node `v`, in units of `1 / (den * p)`:
/// a node of degree `deg > 0` sends `nums[node] * (p / deg)` along each of
/// its edges, and `p / deg` is exact because `deg` divides `p`.
pub open spec fn exact_raw(nums: Seq<int>, g: Seq<Seq<usize>>, p: int, v: int, u: int) -> int
    decreases u,
{
    if u <= 0 {
        0
    } else {
        exact_raw(nums, g, p, v, u - 1) + (if g[u - 1].len() == 0 {
            0int
        } else {
            nums[u - 1] * (p / g[u - 1].len() as int) * count_edges(
                g[u - 1],
                v,
                g[u - 1].len() as int,
            )
        })
    }
}

/// Node `v`'s numerator after one exact step, over the denominator
/// `den * p * dden * n`.
pub open spec fn exact_step_num(
    nums: Seq<int>,
    g: Seq<Seq<usize>>,
    den: int,
    dnum: int,
    dden: int,
    v: int,
) -> int {
    let n = g.len() as int;
    let p = degree_product(g, n);
    dnum * n * exact_raw(nums, g, p, v, n) + (dden - dnum) * den * p
}

/// The common denominator after one exact step.
pub open spec fn exact_step_den(g: Seq<Seq<usize>>, den: int, dden: int) -> int {
    den * degree_product(g, g.len() as int) * dden * g.len()
}

/// Sum of the after-step numerators of the nodes below `w`.
pub open spec fn exact_step_sum(
    nums: Seq<int>,
    g: Seq<Seq<usize>>,
    den: int,
    dnum: int,
    dden: int,
    w: int,
) -> int
    decreases w,
{
    if w <= 0 {
        0
    } else {
        exact_step_sum(nums, g, den, dnum, dden, w - 1) + exact_step_num(
            nums,
            g,
            den,
            dnum,
            dden,
            w - 1,
        )
    }
}

/// Sum over the nodes below `w` of what the first `u` nodes send them.
spec fn raw_sum(nums: Seq<int>, g: Seq<Seq<usize>>, p: int, w: int, u: int) -> int
    decreases w,
{
    if w <= 0 {
        0
    } else {
        raw_sum(nums, g, p, w - 1, u) + exact_raw(nums, g, p, w - 1, u)
    }
}

/// Sum over the nodes below `w` of how often each occurs in `targets`.
spec fn count_sum(targets: Seq<usize>, w: int, j: int) -> int
    decreases w,
{
    if w <= 0 {
        0
    } else {
        count_sum(targets, w - 1, j) + count_edges(targets, w - 1, j)
    }
}

/// The sum of the numerators a node keeps if dangling nodes are skipped.
spec fn live_sum(nums: Seq<int>, g: Seq<Seq<usize>>, u: int) -> int
    decreases u,
{
    if u <= 0 {
        0
    } else {
        live_sum(nums, g, u - 1) + (if g[u - 1].len() == 0 {
            0int
        } else {
            nums[u - 1]
        })
    }
}

/// Taking one more target into account raises the occurrence total by one
/// exactly when that target lies below `w`.
proof fn lemma_count_sum_step(targets: Seq<usize>, w: int, j: int)
    requires
        j >= 1,
    ensures
        count_sum(targets, w, j) == count_sum(targets, w, j - 1) + (if 0 <= (targets[j - 1] as int)
            < w {
            1int
        } else {
            0int
        }),
    decreases w,
{
    if w > 0 {
        lemma_count_sum_step(targets, w - 1, j);
    }
}

/// When every one of the first `j` targets lies below `w`, the occurrence
/// totals add up to `j`: every edge lands somewhere below `w`.
proof fn lemma_count_sum_total(targets: Seq<usize>, w: int, j: int)
    requires
        0 <= j,
        forall|i: int| 0 <= i < j ==> (#[trigger] targets[i] as int) < w,
    ensures
        count_sum(targets, w, j) == j,
    decreases j,
{
    if j > 0 {
        lemma_count_sum_total(targets, w, j - 1);
        lemma_count_sum_step(targets, w, j);
    } else {
        lemma_count_sum_zero(targets, w);
    }
}

/// No targets, no occurrences.
proof fn lemma_count_sum_zero(targets: Seq<usize>, w: int)
    ensures
        count_sum(targets, w, 0) == 0,
    decreases w,
{
    if w > 0 {
        lemma_count_sum_zero(targets, w - 1);
    }
}

/// Taking one more sending node into account raises the raw totals by
/// that node's whole contribution.
proof fn lemma_raw_sum_step(nums: Seq<int>, g: Seq<Seq<usize>>, p: int, w: int, u: int)
    requires
        u >= 1,
    ensures
        raw_sum(nums, g, p, w, u) == raw_sum(nums, g, p, w, u - 1) + (if g[u - 1].len() == 0 {
            0int
        } else {
            nums[u - 1] * (p / g[u - 1].len() as int) * count_sum(g[u - 1], w, g[u - 1].len()
                as int)
        }),
    decreases w,
{
    if w > 0 {
        lemma_raw_sum_step(nums, g, p, w - 1, u);
        if g[u - 1].len() > 0 {
            let c = nums[u - 1] * (p / g[u - 1].len() as int);
            let deg = g[u - 1].len() as int;
            assert(c * count_sum(g[u - 1], w, deg) == c * count_sum(g[u - 1], w - 1, deg) + c
                * count_edges(g[u - 1], w - 1, deg)) by (nonlinear_arith)
                requires
                    count_sum(g[u - 1], w, deg) == count_sum(g[u - 1], w - 1, deg) + count_edges(
                        g[u - 1],
                        w - 1,
                        deg,
                    ),
            ;
            assert(nums[u - 1] * (p / deg) * count_sum(g[u - 1], w, deg) == c * count_sum(
                g[u - 1],
                w,
                deg,
            )) by (nonlinear_arith)
                requires
                    c == nums[u - 1] * (p / deg),
            ;
            assert(nums[u - 1] * (p / deg) * count_sum(g[u - 1], w - 1, deg) == c * count_sum(
                g[u - 1],
                w - 1,
                deg,
            )) by (nonlinear_arith)
                requires
                    c == nums[u - 1] * (p / deg),
            ;
            assert(nums[u - 1] * (p / deg) * count_edges(g[u - 1], w - 1, deg) == c * count_edges(
                g[u - 1],
                w - 1,
                deg,
            )) by (nonlinear_arith)
                requires
                    c == nums[u - 1] * (p / deg),
            ;
        }
    }
}

/// The nonzero out-degree of any already-counted node divides the degree
/// product.
proof fn lemma_degree_divides_product(g: Seq<Seq<usize>>, i: int, u: int)
    requires
        0 <= i < u,
        g[i].len() > 0,
    ensures
        degree_product(g, u) % (g[i].len() as int) == 0,
    decreases u,
{
    let deg = g[i].len() as int;
    let prev = degree_product(g, u - 1);
    if i == u - 1 {
        assert(degree_product(g, u) == prev * deg);
        lemma_mod_multiples_basic(prev, deg);
        assert(prev * deg == deg * prev) by (nonlinear_arith);
    } else {
        lemma_degree_divides_product(g, i, u - 1);
        let last = if g[u - 1].len() == 0 {
            1int
        } else {
            g[u - 1].len() as int
        };
        lemma_fundamental_div_mod(prev, deg);
        let q = prev / deg;
        assert(prev == deg * q);
        assert(prev * last == deg * (q * last)) by (nonlinear_arith)
            requires
                prev == deg * q,
        ;
        lemma_mod_multiples_basic(q * last, deg);
        assert(deg * (q * last) == (q * last) * deg) by (nonlinear_arith);
    }
}

/// The degree product is positive.
proof fn lemma_degree_product_pos(g: Seq<Seq<usize>>, u: int)
    ensures
        degree_product(g, u) >= 1,
    decreases u,
{
    if u > 0 {
        lemma_degree_product_pos(g, u - 1);
        let last = if g[u - 1].len() == 0 {
            1int
        } else {
            g[u - 1].len() as int
        };
        assert(degree_product(g, u - 1) * last >= 1) by (nonlinear_arith)
            requires
                degree_product(g, u - 1) >= 1,
                last >= 1,
        ;
    }
}

/// Summed over all nodes of a valid graph, the raw contributions of the
/// first `u` senders come to exactly `p` times the mass those senders
/// hold — nothing is created, and only dangling nodes drop out.
proof fn lemma_raw_sum_total(nums: Seq<int>, g: Seq<Seq<usize>>, p: int, u: int)
    requires
        valid_graph(g),
        p == degree_product(g, g.len() as int),
        0 <= u <= g.len(),
    ensures
        raw_sum(nums, g, p, g.len() as int, u) == p * live_sum(nums, g, u),
    decreases u,
{
    let n = g.len() as int;
    if u == 0 {
        lemma_raw_sum_zero(nums, g, p, n);
        assert(p * 0 == 0) by (nonlinear_arith);
    } else {
        lemma_raw_sum_total(nums, g, p, u - 1);
        lemma_raw_sum_step(nums, g, p, n, u);
        if g[u - 1].len() == 0 {
            assert(live_sum(nums, g, u) == live_sum(nums, g, u - 1));
        } else {
            let deg = g[u - 1].len() as int;
            lemma_count_sum_total(g[u - 1], n, deg);
            lemma_degree_divides_product(g, u - 1, n);
            lemma_fundamental_div_mod(p, deg);
            assert(p == deg * (p / deg));
            assert(nums[u - 1] * (p / deg) * deg == nums[u - 1] * p) by (nonlinear_arith)
                requires
                    p == deg * (p / deg),
            ;
        }
        assert(p * live_sum(nums, g, u) == p * live_sum(nums, g, u - 1) + p * (if g[u - 1].len()
            == 0 {
            0int
        } else {
            nums[u - 1]
        })) by (nonlinear_arith)
            requires
                live_sum(nums, g, u) == live_sum(nums, g, u - 1) + (if g[u - 1].len() == 0 {
                    0int
                } else {
                    nums[u - 1]
                }),
        ;
        assert(nums[u - 1] * p == p * nums[u - 1]) by (nonlinear_arith);
    }
}

/// Nobody sends anything before the first sender is counted.
proof fn lemma_raw_sum_zero(nums: Seq<int>, g: Seq<Seq<usize>>, p: int, w: int)
    ensures
        raw_sum(nums, g, p, w, 0) == 0,
    decreases w,
{
    if w > 0 {
        lemma_raw_sum_zero(nums, g, p, w - 1);
    }
}

/// The after-step total over the nodes below `w`, written out.
proof fn lemma_exact_step_sum_shape(
    nums: Seq<int>,
    g: Seq<Seq<usize>>,
    den: int,
    dnum: int,
    dden: int,
    w: int,
)
    requires
        0 <= w,
    ensures
        exact_step_sum(nums, g, den, dnum, dden, w) == dnum * g.len() * raw_sum(
            nums,
            g,
            degree_product(g, g.len() as int),
            w,
            g.len() as int,
        ) + w * ((dden - dnum) * den * degree_product(g, g.len() as int)),
    decreases w,
{
    let n = g.len() as int;
    let p = degree_product(g, n);
    let floor_term = (dden - dnum) * den * p;
    if w == 0 {
        assert(dnum * n * 0 == 0) by (nonlinear_arith);
        assert(0 * floor_term == 0) by (nonlinear_arith);
    } else {
        lemma_exact_step_sum_shape(nums, g, den, dnum, dden, w - 1);
        assert(dnum * n * raw_sum(nums, g, p, w, n) == dnum * n * raw_sum(nums, g, p, w - 1, n)
            + dnum * n * exact_raw(nums, g, p, w - 1, n)) by (nonlinear_arith)
            requires
                raw_sum(nums, g, p, w, n) == raw_sum(nums, g, p, w - 1, n) + exact_raw(
                    nums,
                    g,
                    p,
                    w - 1,
                    n,
                ),
        ;
        assert(w * floor_term == (w - 1) * floor_term + floor_term) by (nonlinear_arith);
    }
}

/// With no dangling node the whole mass stays live.
proof fn lemma_live_sum_full(nums: Seq<int>, g: Seq<Seq<usize>>, u: int)
    requires
        forall|i: int| 0 <= i < u ==> (#[trigger] g[i]).len() > 0,
    ensures
        live_sum(nums, g, u) == nums_sum(nums, u),
    decreases u,
{
    if u > 0 {
        lemma_live_sum_full(nums, g, u - 1);
    }
}

/// A dangling node's mass is simply missing from the live total.
proof fn lemma_live_sum_dangling(nums: Seq<int>, g: Seq<Seq<usize>>, d: int, u: int)
    requires
        forall|i: int| 0 <= i < u ==> nums[i] >= 0,
        0 <= d < u,
        g[d].len() == 0,
    ensures
        live_sum(nums, g, u) <= nums_sum(nums, u) - nums[d],
    decreases u,
{
    if d == u - 1 {
        lemma_live_sum_le(nums, g, u - 1);
    } else {
        lemma_live_sum_dangling(nums, g, d, u - 1);
    }
}

/// The live total never exceeds the whole total.
proof fn lemma_live_sum_le(nums: Seq<int>, g: Seq<Seq<usize>>, u: int)
    requires
        forall|i: int| 0 <= i < u ==> nums[i] >= 0,
    ensures
        live_sum(nums, g, u) <= nums_sum(nums, u),
    decreases u,
{
    if u > 0 {
        lemma_live_sum_le(nums, g, u - 1);
    }
}

/// Law: with no dangling node, one exact step conserves the unit of mass.
/// If the incoming numerators total the incoming denominator — the scores
/// sum to exactly 1 — the outgoing numerators total the outgoing
/// denominator: the new scores sum to exactly 1 as well.
pub proof fn lemma_exact_step_conserves_mass(
    nums: Seq<int>,
    g: Seq<Seq<usize>>,
    den: int,
    dnum: int,
    dden: int,
)
    requires
        valid_graph(g),
        g.len() > 0,
        nums.len() == g.len(),
        den > 0,
        0 < dnum < dden,
        nums_sum(nums, g.len() as int) == den,
        forall|u: int| 0 <= u < g.len() ==> (#[trigger] g[u]).len() > 0,
    ensures
        exact_step_sum(nums, g, den, dnum, dden, g.len() as int) == exact_step_den(g, den, dden),
{
    let n = g.len() as int;
    let p = degree_product(g, n);
    lemma_exact_step_sum_shape(nums, g, den, dnum, dden, n);
    lemma_raw_sum_total(nums, g, p, n);
    lemma_live_sum_full(nums, g, n);
    assert(dnum * n * (p * den) + n * ((dden - dnum) * den * p) == den * p * dden * n)
        by (nonlinear_arith);
}

/// Law: at most one unit of mass ever comes out of an exact step. If the
/// incoming numerators total at most the denominator, so do the outgoing
/// ones.
pub proof fn lemma_exact_step_bounded(
    nums: Seq<int>,
    g: Seq<Seq<usize>>,
    den: int,
    dnum: int,
    dden: int,
)
    requires
        valid_graph(g),
        g.len() > 0,
        nums.len() == g.len(),
        den > 0,
        0 < dnum < dden,
        nums_sum(nums, g.len() as int) <= den,
        forall|i: int| 0 <= i < g.len() ==> (#[trigger] nums[i]) >= 0,
    ensures
        exact_step_sum(nums, g, den, dnum, dden, g.len() as int) <= exact_step_den(g, den, dden),
{
    let n = g.len() as int;
    let p = degree_product(g, n);
    lemma_exact_step_sum_shape(nums, g, den, dnum, dden, n);
    lemma_raw_sum_total(nums, g, p, n);
    lemma_live_sum_le(nums, g, n);
    lemma_degree_product_pos(g, n);
    let live = live_sum(nums, g, n);
    assert(live <= den);
    assert(dnum * n * (p * live) + n * ((dden - dnum) * den * p) <= den * p * dden * n)
        by (nonlinear_arith)
        requires
            live <= den,
            dnum > 0,
            dden > dnum,
            n > 0,
            p >= 1,
            den > 0,
    ;
}

/// Law: a dangling node holding positive mass loses it. If some node has
/// no outgoing edge and a positive score, the outgoing numerators total
/// strictly less than the outgoing denominator: the new scores sum to
/// strictly less than 1.
pub proof fn lemma_exact_step_dangling_loses_mass(
    nums: Seq<int>,
    g: Seq<Seq<usize>>,
    den: int,
    dnum: int,
    dden: int,
    d: int,
)
    requires
        valid_graph(g),
        g.len() > 0,
        nums.len() == g.len(),
        den > 0,
        0 < dnum < dden,
        nums_sum(nums, g.len() as int) <= den,
        forall|i: int| 0 <= i < g.len() ==> (#[trigger] nums[i]) >= 0,
        0 <= d < g.len(),
        g[d].len() == 0,
        nums[d] > 0,
    ensures
        exact_step_sum(nums, g, den, dnum, dden, g.len() as int) < exact_step_den(g, den, dden),
{
    let n = g.len() as int;
    let p = degree_product(g, n);
    lemma_exact_step_sum_shape(nums, g, den, dnum, dden, n);
    lemma_raw_sum_total(nums, g, p, n);
    lemma_live_sum_dangling(nums, g, d, n);
    lemma_degree_product_pos(g, n);
    let live = live_sum(nums, g, n);
    assert(live < den);
    assert(dnum * n * (p * live) + n * ((dden - dnum) * den * p) < den * p * dden * n)
        by (nonlinear_arith)
        requires
            live < den,
            dnum > 0,
            dden > dnum,
            n > 0,
            p >= 1,
            den > 0,
    ;
}

/// The numerators after `k` exact steps from the uniform start: every
/// node begins at `1 / n`, so with numerator 1 over denominator `n`.
pub open spec fn exact_nums_after(g: Seq<Seq<usize>>, dnum: int, dden: int, k: int) -> Seq<int>
    decreases k,
{
    if k <= 0 {
        Seq::new(g.len(), |v: int| 1int)
    } else {
        let prev = exact_nums_after(g, dnum, dden, k - 1);
        let prev_den = exact_den_after(g, dden, k - 1);
        Seq::new(g.len(), |v: int| exact_step_num(prev, g, prev_den, dnum, dden, v))
    }
}

/// The common denominator after `k` exact steps.
pub open spec fn exact_den_after(g: Seq<Seq<usize>>, dden: int, k: int) -> int
    decreases k,
{
    if k <= 0 {
        g.len() as int
    } else {
        exact_step_den(g, exact_den_after(g, dden, k - 1), dden)
    }
}

/// The uniform start sums to exactly one: `n` numerators of 1 over `n`.
proof fn lemma_const_one_sum(g: Seq<Seq<usize>>, u: int)
    requires
        0 <= u <= g.len(),
    ensures
        nums_sum(Seq::new(g.len(), |v: int| 1int), u) == u,
    decreases u,
{
    if u > 0 {
        lemma_const_one_sum(g, u - 1);
    }
}

/// Summing the after-step vector entry by entry is the after-step total.
proof fn lemma_step_nums_sum(
    nums: Seq<int>,
    g: Seq<Seq<usize>>,
    den: int,
    dnum: int,
    dden: int,
    u: int,
)
    requires
        0 <= u <= g.len(),
    ensures
        nums_sum(Seq::new(g.len(), |v: int| exact_step_num(nums, g, den, dnum, dden, v)), u)
            == exact_step_sum(nums, g, den, dnum, dden, u),
    decreases u,
{
    if u > 0 {
        lemma_step_nums_sum(nums, g, den, dnum, dden, u - 1);
    }
}

/// An occurrence count is never negative.
proof fn lemma_count_edges_nonneg(targets: Seq<usize>, v: int, j: int)
    ensures
        count_edges(targets, v, j) >= 0,
    decreases j,
{
    if j > 0 {
        lemma_count_edges_nonneg(targets, v, j - 1);
    }
}

/// Nonnegative scores send nonnegative contributions.
proof fn lemma_exact_raw_nonneg(nums: Seq<int>, g: Seq<Seq<usize>>, p: int, v: int, u: int)
    requires
        p >= 1,
        forall|i: int| 0 <= i < u ==> (#[trigger] nums[i]) >= 0,
    ensures
        exact_raw(nums, g, p, v, u) >= 0,
    decreases u,
{
    if u > 0 {
        lemma_exact_raw_nonneg(nums, g, p, v, u - 1);
        if g[u - 1].len() > 0 {
            let deg = g[u - 1].len() as int;
            lemma_count_edges_nonneg(g[u - 1], v, deg);
            vstd::arithmetic::div_mod::lemma_div_pos_is_pos(p, deg);
            assert(nums[u - 1] * (p / deg) * count_edges(g[u - 1], v, deg) >= 0)
                by (nonlinear_arith)
                requires
                    nums[u - 1] >= 0,
                    p / deg >= 0,
                    count_edges(g[u - 1], v, deg) >= 0,
            ;
        }
    }
}

/// After any number of exact steps the denominator is positive and every
/// node's numerator at least 1: damping hands every node a share of the
/// uniform floor, so no score ever reaches 0.
pub proof fn lemma_exact_ranks_positive(g: Seq<Seq<usize>>, dnum: int, dden: int, k: int)
    requires
        valid_graph(g),
        g.len() > 0,
        0 < dnum < dden,
        k >= 0,
    ensures
        exact_den_after(g, dden, k) >= 1,
        forall|v: int|
            0 <= v < g.len() ==> (#[trigger] exact_nums_after(g, dnum, dden, k)[v]) >= 1,
    decreases k,
{
    let n = g.len() as int;
    let p = degree_product(g, n);
    lemma_degree_product_pos(g, n);
    if k > 0 {
        lemma_exact_ranks_positive(g, dnum, dden, k - 1);
        let prev = exact_nums_after(g, dnum, dden, k - 1);
        let prev_den = exact_den_after(g, dden, k - 1);
        assert forall|v: int|
            0 <= v < n implies (#[trigger] exact_nums_after(g, dnum, dden, k)[v]) >= 1 by {
            lemma_exact_raw_nonneg(prev, g, p, v, n);
            assert(dnum * n * exact_raw(prev, g, p, v, n) >= 0 && (dden - dnum) * prev_den * p
                >= 1) by (nonlinear_arith)
                requires
                    dnum > 0,
                    n > 0,
                    exact_raw(prev, g, p, v, n) >= 0,
                    dden - dnum >= 1,
                    prev_den >= 1,
                    p >= 1,
            ;
        }
        assert(prev_den * p * dden * n >= 1) by (nonlinear_arith)
            requires
                prev_den >= 1,
                p >= 1,
                dden >= 1,
                n >= 1,
        ;
    }
}

/// After any number of exact steps the total sits at or below one unit.
pub proof fn lemma_exact_ranks_sum_bounded(g: Seq<Seq<usize>>, dnum: int, dden: int, k: int)
    requires
        valid_graph(g),
        g.len() > 0,
        0 < dnum < dden,
        k >= 0,
    ensures
        nums_sum(exact_nums_after(g, dnum, dden, k), g.len() as int) <= exact_den_after(
            g,
            dden,
            k,
        ),
    decreases k,
{
    let n = g.len() as int;
    if k == 0 {
        lemma_const_one_sum(g, n);
    } else {
        lemma_exact_ranks_sum_bounded(g, dnum, dden, k - 1);
        lemma_exact_ranks_positive(g, dnum, dden, k - 1);
        let prev = exact_nums_after(g, dnum, dden, k - 1);
        let prev_den = exact_den_after(g, dden, k - 1);
        lemma_exact_step_bounded(prev, g, prev_den, dnum, dden);
        lemma_step_nums_sum(prev, g, prev_den, dnum, dden, n);
    }
}

/// Law: over every iteration, a graph with no dangling node conserves the
/// unit of mass exactly — the scores after any number of exact steps sum
/// to exactly one.
pub proof fn lemma_exact_ranks_sum_one(g: Seq<Seq<usize>>, dnum: int, dden: int, k: int)
    requires
        valid_graph(g),
        g.len() > 0,
        0 < dnum < dden,
        k >= 0,
        forall|u: int| 0 <= u < g.len() ==> (#[trigger] g[u]).len() > 0,
    ensures
        nums_sum(exact_nums_after(g, dnum, dden, k), g.len() as int) == exact_den_after(
            g,
            dden,
            k,
        ),
    decreases k,
{
    let n = g.len() as int;
    if k == 0 {
        lemma_const_one_sum(g, n);
    } else {
        lemma_exact_ranks_sum_one(g, dnum, dden, k - 1);
        lemma_exact_ranks_positive(g, dnum, dden, k - 1);
        let prev = exact_nums_after(g, dnum, dden, k - 1);
        let prev_den = exact_den_after(g, dden, k - 1);
        lemma_exact_step_conserves_mass(prev, g, prev_den, dnum, dden);
        lemma_step_nums_sum(prev, g, prev_den, dnum, dden, n);
    }
}

/// Law: a dangling node drives the total strictly below one from the
/// first iteration on — its floor share is positive and dropped whole.
pub proof fn lemma_exact_ranks_sum_below_one(
    g: Seq<Seq<usize>>,
    dnum: int,
    dden: int,
    k: int,
    d: int,
)
    requires
        valid_graph(g),
        g.len() > 0,
        0 < dnum < dden,
        k >= 1,
        0 <= d < g.len(),
        g[d].len() == 0,
    ensures
        nums_sum(exact_nums_after(g, dnum, dden, k), g.len() as int) < exact_den_after(
            g,
            dden,
            k,
        ),
{
    let n = g.len() as int;
    lemma_exact_ranks_sum_bounded(g, dnum, dden, k - 1);
    lemma_exact_ranks_positive(g, dnum, dden, k - 1);
    let prev = exact_nums_after(g, dnum, dden, k - 1);
    let prev_den = exact_den_after(g, dden, k - 1);
    lemma_exact_step_dangling_loses_mass(prev, g, prev_den, dnum, dden, d);
    lemma_step_nums_sum(prev, g, prev_den, dnum, dden, n);
}

} // verus!
