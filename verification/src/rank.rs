//! Iterative rank propagation over a directed graph.
//!
//! A graph is an adjacency list: node `u`'s entry lists the targets of its
//! outgoing edges. Scores are exact fractions with the fixed denominator
//! [`SCALE`]: a stored value `s` stands for the fraction `s / SCALE`, so
//! `SCALE` itself stands for a full unit of rank mass. The damping factor is
//! a rational `damping_num / damping_den`. Every arithmetic step is integer
//! arithmetic, so a run is deterministic and reproducible bit for bit.
//!
//! A node with no outgoing edges drops its rank mass rather than
//! redistributing it — a deliberate simplification of the update rule;
//! the laws below say exactly what that does to the total.

use vstd::prelude::*;
use vstd::arithmetic::div_mod::{
    lemma_fundamental_div_mod, lemma_div_is_ordered, lemma_div_pos_is_pos,
    lemma_mod_division_less_than_divisor, lemma_div_multiples_vanish,
};
use vstd::arithmetic::mul::lemma_mul_is_commutative;

verus! {

/// Fixed denominator of all scores: a score of `SCALE` stands for 1,
/// a score of `SCALE / n` for `1/n`.
pub const SCALE: u64 = 1_000_000_000;

/// Largest damping denominator the propagator accepts; keeps every
/// intermediate product comfortably inside 128 bits.
pub const MAX_DAMPING_DEN: u64 = 1_000_000;

/// The one way a ranking run can fail: an edge points at a node index
/// at or beyond the node count.
#[derive(Debug)]
pub enum GraphError {
    InvalidGraph,
}

/// Every edge target of every node lies below the node count.
pub open spec fn valid_graph(g: Seq<Seq<usize>>) -> bool {
    forall|u: int, j: int|
        0 <= u < g.len() && 0 <= j < g[u].len() ==> (#[trigger] g[u][j]) < g.len()
}

/// Sum of the first `u` entries of a score vector.
pub open spec fn prefix_sum(s: Seq<u64>, u: int) -> int
    decreases u,
{
    if u <= 0 {
        0
    } else {
        prefix_sum(s, u - 1) + s[u - 1]
    }
}

/// Total of a score vector.
pub open spec fn sum_scores(s: Seq<u64>) -> int {
    prefix_sum(s, s.len() as int)
}

/// A vector of `n` zero scores.
pub open spec fn zero_scores(n: int) -> Seq<u64> {
    Seq::new(n as nat, |i: int| 0u64)
}

/// The uniform starting vector: every one of `n` nodes holds `SCALE / n`.
pub open spec fn uniform_scores(n: int) -> Seq<u64> {
    Seq::new(n as nat, |i: int| (SCALE as int / n) as u64)
}

/// Add `c` to the entry of `next` named by each of the first `j` targets,
/// one edge at a time, in edge order.
pub open spec fn spread(next: Seq<u64>, targets: Seq<usize>, c: u64, j: int) -> Seq<u64>
    decreases j,
{
    if j <= 0 {
        next
    } else {
        let prev = spread(next, targets, c, j - 1);
        let v = targets[j - 1] as int;
        prev.update(v, (prev[v] + c) as u64)
    }
}

/// Distribute the scores of the first `u` nodes into `next`: a node with
/// out-degree `d > 0` sends `scores[node] / d` along each of its edges;
/// a node without outgoing edges sends nothing, so its mass is dropped.
pub open spec fn accumulate(next: Seq<u64>, scores: Seq<u64>, g: Seq<Seq<usize>>, u: int) -> Seq<u64>
    decreases u,
{
    if u <= 0 {
        next
    } else {
        let prev = accumulate(next, scores, g, u - 1);
        let deg = g[u - 1].len() as int;
        if deg == 0 {
            prev
        } else {
            spread(prev, g[u - 1], (scores[u - 1] as int / deg) as u64, deg)
        }
    }
}

/// The damping rule applied to one accumulated value, over `n` nodes:
/// keep `damping_num / damping_den` of it and add the uniform floor
/// `(1 - damping) / n`, all in floor division.
pub open spec fn damp_one(x: u64, dnum: u64, dden: u64, n: int) -> u64 {
    ((dnum * x) / (dden as int) + ((dden - dnum) * SCALE) / (dden * n)) as u64
}

/// The damping rule applied to a whole accumulated vector.
pub open spec fn damp_all(next: Seq<u64>, dnum: u64, dden: u64) -> Seq<u64> {
    Seq::new(next.len(), |i: int| damp_one(next[i], dnum, dden, next.len() as int))
}

/// One full propagation step: accumulate every node's contributions into a
/// fresh zero vector, then damp every entry.
pub open spec fn step(scores: Seq<u64>, g: Seq<Seq<usize>>, dnum: u64, dden: u64) -> Seq<u64> {
    damp_all(accumulate(zero_scores(g.len() as int), scores, g, g.len() as int), dnum, dden)
}

/// The score vector after `k` whole steps from the uniform start.
pub open spec fn ranks_after(g: Seq<Seq<usize>>, dnum: u64, dden: u64, k: int) -> Seq<u64>
    decreases k,
{
    if k <= 0 {
        uniform_scores(g.len() as int)
    } else {
        step(ranks_after(g, dnum, dden, k - 1), g, dnum, dden)
    }
}

// --- arithmetic facts about floor division ---

/// Floor division undershoots: `(a / d) * d` never exceeds `a`.
proof fn lemma_div_mul_le(a: int, d: int)
    requires
        a >= 0,
        d > 0,
    ensures
        0 <= a / d,
        (a / d) * d <= a,
{
    lemma_div_pos_is_pos(a, d);
    lemma_fundamental_div_mod(a, d);
    lemma_mod_division_less_than_divisor(a, d);
    lemma_mul_is_commutative(a / d, d);
}

/// Floor division is superadditive: dividing parts loses at least as much
/// as dividing the whole.
proof fn lemma_div_sum_le(a: int, b: int, d: int)
    requires
        a >= 0,
        b >= 0,
        d > 0,
    ensures
        a / d + b / d <= (a + b) / d,
{
    let qa = a / d;
    let qb = b / d;
    lemma_fundamental_div_mod(a, d);
    lemma_fundamental_div_mod(b, d);
    lemma_mod_division_less_than_divisor(a, d);
    lemma_mod_division_less_than_divisor(b, d);
    assert(a + b >= d * (qa + qb)) by (nonlinear_arith)
        requires
            a == d * qa + a % d,
            b == d * qb + b % d,
            a % d >= 0,
            b % d >= 0,
    ;
    lemma_div_multiples_vanish(qa + qb, d);
    lemma_div_is_ordered(d * (qa + qb), a + b, d);
}

/// Splitting one division of `a` by `d * n` across `n` summands loses mass:
/// `n * (a / (d * n)) <= a / d`.
proof fn lemma_mul_div_le(a: int, d: int, n: int)
    requires
        a >= 0,
        d > 0,
        n > 0,
    ensures
        0 <= n * (a / (d * n)),
        n * (a / (d * n)) <= a / d,
{
    let q = a / (d * n);
    assert(d * n > 0) by (nonlinear_arith)
        requires
            d > 0,
            n > 0,
    ;
    lemma_div_mul_le(a, d * n);
    // q * (d * n) <= a, so (n * q) * d <= a, hence n * q <= a / d.
    assert((n * q) * d <= a && n * q >= 0) by (nonlinear_arith)
        requires
            q * (d * n) <= a,
            q >= 0,
            n > 0,
            d > 0,
    ;
    lemma_div_multiples_vanish(n * q, d);
    lemma_div_is_ordered(d * (n * q), a, d);
    assert(d * (n * q) == (n * q) * d) by (nonlinear_arith);
}

// --- facts about score sums ---

/// Prefix sums are never negative.
proof fn lemma_prefix_sum_nonneg(s: Seq<u64>, u: int)
    ensures
        prefix_sum(s, u) >= 0,
    decreases u,
{
    if u > 0 {
        lemma_prefix_sum_nonneg(s, u - 1);
    }
}

/// Prefix sums grow with the prefix.
proof fn lemma_prefix_sum_monotone(s: Seq<u64>, u1: int, u2: int)
    requires
        u1 <= u2,
    ensures
        prefix_sum(s, u1) <= prefix_sum(s, u2),
    decreases u2 - u1,
{
    if u1 < u2 {
        lemma_prefix_sum_monotone(s, u1, u2 - 1);
    }
}

/// Every entry of a prefix is bounded by the prefix sum.
proof fn lemma_element_le_prefix_sum(s: Seq<u64>, i: int, u: int)
    requires
        0 <= i < u,
    ensures
        s[i] <= prefix_sum(s, u),
    decreases u,
{
    if i == u - 1 {
        lemma_prefix_sum_nonneg(s, u - 1);
    } else {
        lemma_element_le_prefix_sum(s, i, u - 1);
    }
}

/// How an update at `v` shows up in a prefix sum.
proof fn lemma_prefix_sum_update(s: Seq<u64>, v: int, x: u64, u: int)
    requires
        0 <= v < s.len(),
        u <= s.len(),
    ensures
        prefix_sum(s.update(v, x), u) == prefix_sum(s, u) + (if v < u {
            x - s[v]
        } else {
            0
        }),
    decreases u,
{
    if u > 0 {
        lemma_prefix_sum_update(s, v, x, u - 1);
    }
}

/// Two sequences equal on a prefix have the same prefix sum there.
proof fn lemma_prefix_sum_congruence(s1: Seq<u64>, s2: Seq<u64>, u: int)
    requires
        forall|i: int| 0 <= i < u ==> s1[i] == s2[i],
    ensures
        prefix_sum(s1, u) == prefix_sum(s2, u),
    decreases u,
{
    if u > 0 {
        lemma_prefix_sum_congruence(s1, s2, u - 1);
    }
}

/// The sum of `n` zero scores is zero.
proof fn lemma_zero_scores_sum(n: int, u: int)
    requires
        0 <= u <= n,
    ensures
        zero_scores(n).len() == n,
        prefix_sum(zero_scores(n), u) == 0,
    decreases u,
{
    if u > 0 {
        lemma_zero_scores_sum(n, u - 1);
    }
}

/// The uniform start sums to at most `SCALE`: `n` entries of `SCALE / n`.
proof fn lemma_uniform_sum(n: int, u: int)
    requires
        0 < n,
        0 <= u <= n,
    ensures
        uniform_scores(n).len() == n,
        prefix_sum(uniform_scores(n), u) == u * (SCALE as int / n),
    decreases u,
{
    if u > 0 {
        lemma_uniform_sum(n, u - 1);
        assert(u * (SCALE as int / n) == (u - 1) * (SCALE as int / n) + SCALE as int / n)
            by (nonlinear_arith);
    } else {
        assert(u * (SCALE as int / n) == 0) by (nonlinear_arith)
            requires
                u == 0,
        ;
    }
}

/// The whole uniform start carries at most one unit of mass.
pub proof fn lemma_uniform_mass_bounded(n: int)
    requires
        0 < n,
    ensures
        uniform_scores(n).len() == n,
        sum_scores(uniform_scores(n)) <= SCALE,
{
    lemma_uniform_sum(n, n);
    lemma_div_mul_le(SCALE as int, n);
    assert(n * (SCALE as int / n) == (SCALE as int / n) * n) by (nonlinear_arith);
}

// --- facts about one propagation step ---

/// Spreading `c` along `j` edges preserves length and adds exactly `c * j`
/// to the total, provided the running total stays below the `u64` limit.
proof fn lemma_spread_props(next: Seq<u64>, targets: Seq<usize>, c: u64, j: int)
    requires
        0 <= j <= targets.len(),
        forall|i: int| 0 <= i < j ==> (#[trigger] targets[i]) < next.len(),
        sum_scores(next) + c * j < 0x1_0000_0000_0000_0000,
    ensures
        spread(next, targets, c, j).len() == next.len(),
        sum_scores(spread(next, targets, c, j)) == sum_scores(next) + c * j,
    decreases j,
{
    if j > 0 {
        assert(c * j == c * (j - 1) + c) by (nonlinear_arith);
        assert(c * (j - 1) >= 0) by (nonlinear_arith)
            requires
                j >= 1,
                c >= 0,
        ;
        lemma_spread_props(next, targets, c, j - 1);
        let prev = spread(next, targets, c, j - 1);
        let v = targets[j - 1] as int;
        lemma_element_le_prefix_sum(prev, v, prev.len() as int);
        lemma_prefix_sum_nonneg(prev, prev.len() as int);
        // prev[v] + c fits in u64, so the update adds exactly c.
        let x_new = (prev[v] + c) as u64;
        assert(prev[v] + c < 0x1_0000_0000_0000_0000);
        assert(x_new == prev[v] + c);
        lemma_prefix_sum_update(prev, v, x_new, prev.len() as int);
        assert(spread(next, targets, c, j) == prev.update(v, x_new));
        assert(prev.update(v, x_new).len() == prev.len());
        assert(sum_scores(prev.update(v, x_new)) == prefix_sum(prev.update(v, x_new), prev.len() as int));
        assert(sum_scores(prev.update(v, x_new)) == sum_scores(prev) + c);
    } else {
        assert(j == 0);
        assert(c * j == 0) by (nonlinear_arith)
            requires
                j == 0,
        ;
        assert(spread(next, targets, c, j) == next);
    }
}

/// Accumulating the first `u` nodes preserves length and adds at most the
/// mass those nodes held.
proof fn lemma_accumulate_props(next: Seq<u64>, scores: Seq<u64>, g: Seq<Seq<usize>>, u: int)
    requires
        valid_graph(g),
        next.len() == g.len(),
        scores.len() == g.len(),
        0 <= u <= g.len(),
        sum_scores(next) + sum_scores(scores) <= SCALE,
    ensures
        accumulate(next, scores, g, u).len() == g.len(),
        sum_scores(accumulate(next, scores, g, u)) <= sum_scores(next) + prefix_sum(scores, u),
        sum_scores(accumulate(next, scores, g, u)) >= 0,
    decreases u,
{
    lemma_prefix_sum_nonneg(scores, u);
    lemma_prefix_sum_nonneg(next, next.len() as int);
    if u > 0 {
        lemma_accumulate_props(next, scores, g, u - 1);
        let prev = accumulate(next, scores, g, u - 1);
        let deg = g[u - 1].len() as int;
        lemma_prefix_sum_monotone(scores, u - 1, scores.len() as int);
        lemma_prefix_sum_monotone(scores, u, scores.len() as int);
        lemma_element_le_prefix_sum(scores, u - 1, scores.len() as int);
        if deg > 0 {
            let c = (scores[u - 1] as int / deg) as u64;
            lemma_div_mul_le(scores[u - 1] as int, deg);
            lemma_div_is_ordered(scores[u - 1] as int, SCALE as int, deg);
            // c * deg <= scores[u - 1], so the spread stays within bounds.
            assert(c * deg <= scores[u - 1]) by (nonlinear_arith)
                requires
                    c == scores[u - 1] as int / deg,
                    (scores[u - 1] as int / deg) * deg <= scores[u - 1] as int,
            ;
            lemma_spread_props(prev, g[u - 1], c, deg);
        }
    }
}

/// Exact shape of one damped entry, with its bounds: the cast in
/// `damp_one` never truncates for an input that carries at most one unit.
proof fn lemma_damp_one_bound(x: u64, dnum: u64, dden: u64, n: int)
    requires
        0 < dnum < dden,
        n > 0,
        x <= SCALE,
    ensures
        damp_one(x, dnum, dden, n) == (dnum * x) / (dden as int) + ((dden - dnum) * SCALE) / (
        dden * n),
        (dnum * x) / (dden as int) <= x,
        0 <= ((dden - dnum) * SCALE) / (dden * n) <= SCALE as int / n,
{
    let a = (dnum * x) as int / (dden as int);
    assert(dnum * x >= 0 && dnum * x <= dden * x) by (nonlinear_arith)
        requires
            0 < dnum < dden,
            x >= 0,
    ;
    lemma_div_is_ordered(dnum * x as int, dden * x as int, dden as int);
    lemma_div_multiples_vanish(x as int, dden as int);
    assert(dden * x == (dden as int) * (x as int)) by (nonlinear_arith);
    lemma_div_pos_is_pos(dnum * x as int, dden as int);
    let b = ((dden - dnum) * SCALE) as int / (dden * n) as int;
    assert(dden * n > 0) by (nonlinear_arith)
        requires
            dden > 0,
            n > 0,
    ;
    assert((dden - dnum) * SCALE >= 0 && (dden - dnum) * SCALE <= dden * SCALE)
        by (nonlinear_arith)
        requires
            0 < dnum < dden,
    ;
    lemma_div_pos_is_pos(((dden - dnum) * SCALE) as int, (dden * n) as int);
    // n * b stays under what one whole unit divided by dden allows
    assert(n * b <= ((dden - dnum) * SCALE) as int / (dden as int)) by {
        lemma_mul_div_le(((dden - dnum) * SCALE) as int, dden as int, n);
    };
    assert(((dden - dnum) * SCALE) as int / (dden as int) <= SCALE) by {
        lemma_div_is_ordered(((dden - dnum) * SCALE) as int, (dden * SCALE) as int, dden as int);
        lemma_div_multiples_vanish(SCALE as int, dden as int);
        assert(dden * SCALE == (dden as int) * (SCALE as int)) by (nonlinear_arith);
    };
    assert(b <= SCALE as int / n) by {
        lemma_mul_div_le(((dden - dnum) * SCALE) as int, dden as int, n);
        lemma_div_mul_le(((dden - dnum) * SCALE) as int, (dden * n) as int);
        // n * b <= S / dden-part; separately b * (dden * n) <= (dden-dnum)*SCALE <= dden*SCALE
        assert(b * n * dden <= dden * SCALE ==> b * n <= SCALE) by (nonlinear_arith)
            requires
                dden > 0,
        ;
        assert(b * (dden * n) == b * n * dden) by (nonlinear_arith);
        assert(b * n <= SCALE ==> b <= SCALE as int / n) by {
            if b * n <= SCALE {
                lemma_div_is_ordered(b * n, SCALE as int, n);
                lemma_div_multiples_vanish(b, n);
                assert(n * b == b * n) by (nonlinear_arith);
            }
        };
    };
    lemma_div_mul_le(SCALE as int, n);
    // a + b fits in u64: a <= x <= SCALE and b <= SCALE.
}

/// Damping a vector that carries at most one unit of mass keeps the prefix
/// sums under control.
proof fn lemma_damp_prefix_sum(next: Seq<u64>, dnum: u64, dden: u64, u: int)
    requires
        0 < dnum < dden,
        next.len() > 0,
        0 <= u <= next.len(),
        sum_scores(next) <= SCALE,
    ensures
        damp_all(next, dnum, dden).len() == next.len(),
        prefix_sum(damp_all(next, dnum, dden), u) <= (dnum * prefix_sum(next, u)) / (dden as int)
            + u * (((dden - dnum) * SCALE) / (dden * next.len() as int)),
    decreases u,
{
    let n = next.len() as int;
    let floor_term = ((dden - dnum) * SCALE) / (dden * n);
    if u > 0 {
        lemma_damp_prefix_sum(next, dnum, dden, u - 1);
        let x = next[u - 1];
        lemma_element_le_prefix_sum(next, u - 1, n);
        lemma_prefix_sum_monotone(next, u, n);
        lemma_prefix_sum_monotone(next, u - 1, u);
        lemma_prefix_sum_nonneg(next, u - 1);
        lemma_damp_one_bound(x, dnum, dden, n);
        // the two floor divisions combine superadditively
        assert(dnum * prefix_sum(next, u) == dnum * prefix_sum(next, u - 1) + dnum * x)
            by (nonlinear_arith)
            requires
                prefix_sum(next, u) == prefix_sum(next, u - 1) + x,
        ;
        assert(dnum * prefix_sum(next, u - 1) >= 0 && dnum * x >= 0) by (nonlinear_arith)
            requires
                dnum > 0,
                prefix_sum(next, u - 1) >= 0,
                x >= 0,
        ;
        lemma_div_sum_le(dnum * prefix_sum(next, u - 1), dnum * x as int, dden as int);
        assert(u * floor_term == (u - 1) * floor_term + floor_term) by (nonlinear_arith);
    } else {
        lemma_prefix_sum_nonneg(next, 0);
        assert(u * floor_term == 0) by (nonlinear_arith)
            requires
                u == 0,
        ;
        lemma_div_pos_is_pos(dnum * prefix_sum(next, u), dden as int);
        assert(dnum * prefix_sum(next, u) == 0) by (nonlinear_arith)
            requires
                u == 0,
                prefix_sum(next, u) == 0,
        ;
    }
}

/// Damping keeps the total at or below one unit of mass.
proof fn lemma_damp_sum_le(next: Seq<u64>, dnum: u64, dden: u64)
    requires
        0 < dnum < dden,
        next.len() > 0,
        sum_scores(next) <= SCALE,
    ensures
        damp_all(next, dnum, dden).len() == next.len(),
        sum_scores(damp_all(next, dnum, dden)) <= SCALE,
{
    let n = next.len() as int;
    let s = sum_scores(next);
    lemma_damp_prefix_sum(next, dnum, dden, n);
    lemma_prefix_sum_nonneg(next, n);
    // (dnum * s) / dden  <=  (dnum * SCALE) / dden
    assert(dnum * s >= 0 && dnum * s <= dnum * SCALE) by (nonlinear_arith)
        requires
            dnum > 0,
            0 <= s <= SCALE,
    ;
    lemma_div_is_ordered(dnum * s, dnum * SCALE as int, dden as int);
    // n * floor(((dden - dnum) * SCALE) / (dden * n))  <=  ((dden - dnum) * SCALE) / dden
    assert((dden - dnum) * SCALE >= 0) by (nonlinear_arith)
        requires
            dnum < dden,
    ;
    lemma_mul_div_le(((dden - dnum) * SCALE) as int, dden as int, n);
    // the two shares together stay below SCALE
    lemma_div_sum_le(dnum * SCALE as int, ((dden - dnum) * SCALE) as int, dden as int);
    assert(dnum * SCALE + (dden - dnum) * SCALE == dden * SCALE) by (nonlinear_arith);
    lemma_div_multiples_vanish(SCALE as int, dden as int);
    assert(dden * SCALE == (dden as int) * (SCALE as int)) by (nonlinear_arith);
}

/// Law: one propagation step keeps the node count and never creates mass.
/// The total of the scores a step returns stays at or below one unit
/// (`SCALE`), whatever the graph; dangling nodes only lose mass.
pub proof fn lemma_step_mass_bounded(scores: Seq<u64>, g: Seq<Seq<usize>>, dnum: u64, dden: u64)
    requires
        valid_graph(g),
        scores.len() == g.len(),
        g.len() > 0,
        0 < dnum < dden,
        sum_scores(scores) <= SCALE,
    ensures
        step(scores, g, dnum, dden).len() == g.len(),
        sum_scores(step(scores, g, dnum, dden)) <= SCALE,
{
    let n = g.len() as int;
    lemma_zero_scores_sum(n, n);
    lemma_prefix_sum_nonneg(scores, n);
    lemma_accumulate_props(zero_scores(n), scores, g, n);
    let acc = accumulate(zero_scores(n), scores, g, n);
    lemma_damp_sum_le(acc, dnum, dden);
}

/// Law: damping guarantees every node the uniform floor. Whatever arrives
/// along edges, no score a step returns sits below
/// `(1 - damping) / n` — [`damping_floor`] in fixed-point units — so even
/// a node nothing points at keeps that much.
pub proof fn lemma_step_keeps_floor(scores: Seq<u64>, g: Seq<Seq<usize>>, dnum: u64, dden: u64)
    requires
        valid_graph(g),
        scores.len() == g.len(),
        g.len() > 0,
        0 < dnum < dden,
        sum_scores(scores) <= SCALE,
    ensures
        forall|i: int|
            0 <= i < g.len() ==> #[trigger] step(scores, g, dnum, dden)[i] >= damping_floor(
                dnum,
                dden,
                g.len() as int,
            ),
{
    let n = g.len() as int;
    lemma_zero_scores_sum(n, n);
    lemma_prefix_sum_nonneg(scores, n);
    lemma_accumulate_props(zero_scores(n), scores, g, n);
    let acc = accumulate(zero_scores(n), scores, g, n);
    assert forall|i: int| 0 <= i < n implies #[trigger] step(scores, g, dnum, dden)[i]
        >= damping_floor(dnum, dden, n) by {
        lemma_element_le_prefix_sum(acc, i, n);
        lemma_damp_one_bound(acc[i], dnum, dden, n);
    }
}

/// Law: the score vector after any number of steps has one entry per node
/// and carries at most one unit of mass.
pub proof fn lemma_ranks_after_bounded(g: Seq<Seq<usize>>, dnum: u64, dden: u64, k: int)
    requires
        valid_graph(g),
        g.len() > 0,
        0 < dnum < dden,
    ensures
        ranks_after(g, dnum, dden, k).len() == g.len(),
        sum_scores(ranks_after(g, dnum, dden, k)) <= SCALE,
    decreases k,
{
    if k <= 0 {
        lemma_uniform_mass_bounded(g.len() as int);
    } else {
        lemma_ranks_after_bounded(g, dnum, dden, k - 1);
        lemma_step_mass_bounded(ranks_after(g, dnum, dden, k - 1), g, dnum, dden);
    }
}

/// Holds configuration: damping factor `damping_num / damping_den` and the
/// number of whole propagation steps to run.
pub struct RankPropagator {
    pub damping_num: u64,
    pub damping_den: u64,
    pub iterations: usize,
}

impl RankPropagator {
    /// A well-formed configuration: the damping factor lies strictly
    /// between 0 and 1 and its denominator is bounded.
    pub open spec fn wf(self) -> bool {
        0 < self.damping_num < self.damping_den <= MAX_DAMPING_DEN
    }

    /// Build a propagator from a damping fraction and an iteration count.
    pub fn new(damping_num: u64, damping_den: u64, iterations: usize) -> (p: Self)
        requires
            0 < damping_num < damping_den <= MAX_DAMPING_DEN,
        ensures
            p.wf(),
            p.damping_num == damping_num,
            p.damping_den == damping_den,
            p.iterations == iterations,
    {
        RankPropagator { damping_num, damping_den, iterations }
    }

    /// Score every node of `graph`. An edge aimed at or beyond the node
    /// count is the one rejected input; every other graph — cycles,
    /// self-loops, isolated nodes — yields `Ok` with exactly the vector the
    /// model [`ranks_after`] describes: one score per node, `iterations`
    /// whole propagation steps from the uniform start `SCALE / n`.
    pub fn rank(&self, graph: &Vec<Vec<usize>>) -> (r: Result<Vec<u64>, GraphError>)
        requires
            self.wf(),
        ensures
            match r {
                Ok(scores) => valid_graph(graph.deep_view()) && scores@.len() == graph@.len()
                    && scores@ == ranks_after(
                    graph.deep_view(),
                    self.damping_num,
                    self.damping_den,
                    self.iterations as int,
                ) && sum_scores(scores@) <= SCALE,
                Err(e) => !valid_graph(graph.deep_view()) && (e matches GraphError::InvalidGraph),
            },
    {
        let ghost gv = graph.deep_view();
        let n = graph.len();
        proof {
            assert(gv.len() == n);
            assert forall|a: int| 0 <= a < n implies gv[a] == graph@[a]@ by {
                assert(gv[a] == graph@[a].deep_view());
                assert(graph@[a].deep_view() =~= graph@[a]@);
            }
        }

        // Reject any edge that points outside the graph.
        let mut u: usize = 0;
        while u < n
            invariant
                u <= n,
                n == graph@.len(),
                gv == graph.deep_view(),
                gv.len() == n,
                forall|a: int| 0 <= a < n ==> gv[a] == graph@[a]@,
                forall|a: int, b: int|
                    0 <= a < u && 0 <= b < gv[a].len() ==> (#[trigger] gv[a][b]) < n,
            decreases n - u,
        {
            let row = &graph[u];
            let mut j: usize = 0;
            while j < row.len()
                invariant
                    u < n,
                    j <= row@.len(),
                    n == graph@.len(),
                    gv == graph.deep_view(),
                    gv.len() == n,
                    row@ == graph@[u as int]@,
                    forall|a: int| 0 <= a < n ==> gv[a] == graph@[a]@,
                    forall|b: int| 0 <= b < j ==> (#[trigger] gv[u as int][b]) < n,
                decreases row@.len() - j,
            {
                if row[j] >= n {
                    proof {
                        assert(gv[u as int][j as int] >= n);
                        assert(!valid_graph(gv));
                    }
                    return Err(GraphError::InvalidGraph);
                }
                j += 1;
            }
            u += 1;
        }
        proof {
            assert(valid_graph(gv));
        }

        if n == 0 {
            let empty: Vec<u64> = Vec::new();
            proof {
                lemma_ranks_after_empty(gv, self.damping_num, self.damping_den,
                    self.iterations as int);
                assert(empty@ =~= ranks_after(gv, self.damping_num, self.damping_den,
                    self.iterations as int));
            }
            return Ok(empty);
        }

        // The uniform start: every node holds SCALE / n.
        let init: u64 = SCALE / (n as u64);
        let mut scores: Vec<u64> = Vec::new();
        let mut i: usize = 0;
        while i < n
            invariant
                i <= n,
                n > 0,
                scores@.len() == i,
                init == SCALE as int / n as int,
                forall|t: int| 0 <= t < i ==> scores@[t] == init,
            decreases n - i,
        {
            scores.push(init);
            i += 1;
        }
        proof {
            assert(scores@ =~= uniform_scores(n as int));
            lemma_uniform_mass_bounded(n as int);
        }

        let mut it: usize = 0;
        while it < self.iterations
            invariant
                self.wf(),
                it <= self.iterations,
                n > 0,
                n == graph@.len(),
                gv == graph.deep_view(),
                gv.len() == n,
                valid_graph(gv),
                forall|a: int| 0 <= a < n ==> gv[a] == graph@[a]@,
                scores@.len() == n,
                scores@ == ranks_after(gv, self.damping_num, self.damping_den, it as int),
                sum_scores(scores@) <= SCALE,
            decreases self.iterations - it,
        {
            let ghost zeros = zero_scores(n as int);
            let mut next: Vec<u64> = Vec::new();
            let mut i: usize = 0;
            while i < n
                invariant
                    i <= n,
                    next@.len() == i,
                    forall|t: int| 0 <= t < i ==> next@[t] == 0u64,
                decreases n - i,
            {
                next.push(0);
                i += 1;
            }
            proof {
                assert(next@ =~= zeros);
                lemma_zero_scores_sum(n as int, n as int);
                lemma_prefix_sum_nonneg(scores@, n as int);
            }

            // Accumulate every node's contributions, edge by edge.
            let mut u: usize = 0;
            while u < n
                invariant
                    u <= n,
                    n > 0,
                    n == graph@.len(),
                    gv.len() == n,
                    valid_graph(gv),
                    forall|a: int| 0 <= a < n ==> gv[a] == graph@[a]@,
                    scores@.len() == n,
                    sum_scores(scores@) <= SCALE,
                    zeros == zero_scores(n as int),
                    next@ == accumulate(zeros, scores@, gv, u as int),
                    next@.len() == n,
                decreases n - u,
            {
                let deg = graph[u].len();
                if deg > 0 {
                    let c = scores[u] / (deg as u64);
                    let ghost prev = next@;
                    proof {
                        lemma_zero_scores_sum(n as int, n as int);
                        lemma_accumulate_props(zeros, scores@, gv, u as int);
                        lemma_prefix_sum_monotone(scores@, u as int, n as int);
                        lemma_element_le_prefix_sum(scores@, u as int, n as int);
                        lemma_div_mul_le(scores@[u as int] as int, deg as int);
                        lemma_div_is_ordered(scores@[u as int] as int, SCALE as int, deg as int);
                    }
                    let mut j: usize = 0;
                    while j < deg
                        invariant
                            j <= deg,
                            u < n,
                            n > 0,
                            gv.len() == n,
                            valid_graph(gv),
                            n == graph@.len(),
                            forall|a: int| 0 <= a < n ==> gv[a] == graph@[a]@,
                            deg == gv[u as int].len(),
                            c == (scores@[u as int] as int / deg as int) as u64,
                            c <= SCALE,
                            (c as int) * (deg as int) <= scores@[u as int] as int,
                            scores@.len() == n,
                            sum_scores(scores@) <= SCALE,
                            zeros == zero_scores(n as int),
                            prev == accumulate(zeros, scores@, gv, u as int),
                            sum_scores(prev) <= SCALE,
                            prev.len() == n,
                            next@ == spread(prev, gv[u as int], c, j as int),
                            next@.len() == n,
                        decreases deg - j,
                    {
                        let v = graph[u][j];
                        proof {
                            assert(gv[u as int][j as int] < n);
                            lemma_element_le_prefix_sum(scores@, u as int, n as int);
                            assert((c as int) * (j as int) <= (c as int) * (deg as int))
                                by (nonlinear_arith)
                                requires
                                    0 <= j <= deg,
                                    c >= 0,
                            ;
                            assert(sum_scores(prev) + (c as int) * (j as int) <= 2 * SCALE);
                            lemma_spread_props(prev, gv[u as int], c, j as int);
                            lemma_element_le_prefix_sum(next@, v as int, n as int);
                            assert(next@[v as int] + c <= 3 * SCALE);
                        }
                        let cur = next[v];
                        next[v] = cur + c;
                        proof {
                            assert(next@ == spread(prev, gv[u as int], c, j as int + 1));
                        }
                        j += 1;
                    }
                    proof {
                        assert(next@ == accumulate(zeros, scores@, gv, u as int + 1));
                    }
                } else {
                    proof {
                        assert(next@ == accumulate(zeros, scores@, gv, u as int + 1));
                    }
                }
                u += 1;
            }

            // Damp every accumulated entry in place.
            let ghost acc = next@;
            proof {
                lemma_zero_scores_sum(n as int, n as int);
                lemma_accumulate_props(zeros, scores@, gv, n as int);
                assert(sum_scores(acc) <= SCALE);
            }
            let mut i: usize = 0;
            while i < n
                invariant
                    i <= n,
                    n > 0,
                    self.wf(),
                    next@.len() == n,
                    acc.len() == n,
                    sum_scores(acc) <= SCALE,
                    forall|t: int|
                        0 <= t < i ==> next@[t] == damp_one(
                            acc[t],
                            self.damping_num,
                            self.damping_den,
                            n as int,
                        ),
                    forall|t: int| i <= t < n ==> next@[t] == acc[t],
                decreases n - i,
            {
                let x = next[i];
                proof {
                    lemma_element_le_prefix_sum(acc, i as int, n as int);
                    assert(x <= SCALE);
                    lemma_damp_one_bound(x, self.damping_num, self.damping_den, n as int);
                    assert((self.damping_num as int) * (x as int) < 0x1000000000000000000000000)
                        by (nonlinear_arith)
                        requires
                            self.damping_num <= 0xf4240,
                            x <= 0xffffffffffffffffu64,
                    ;
                    assert(0 < (self.damping_den as int) * (n as int)
                        < 0x1000000000000000000000000) by (nonlinear_arith)
                        requires
                            0 < self.damping_den <= 0xf4240,
                            0 < n <= 0xffffffffffffffffu64,
                    ;
                }
                let a: u128 = (self.damping_num as u128) * (x as u128) / (self.damping_den
                    as u128);
                let b: u128 = ((self.damping_den - self.damping_num) as u128) * (SCALE as u128)
                    / ((self.damping_den as u128) * (n as u128));
                let y: u64 = (a + b) as u64;
                next[i] = y;
                proof {
                    assert(y == damp_one(x, self.damping_num, self.damping_den, n as int));
                }
                i += 1;
            }
            proof {
                assert(next@ =~= damp_all(acc, self.damping_num, self.damping_den));
                assert(next@ == step(scores@, gv, self.damping_num, self.damping_den));
                assert(next@ == ranks_after(gv, self.damping_num, self.damping_den, it as int
                    + 1));
                lemma_step_mass_bounded(scores@, gv, self.damping_num, self.damping_den);
            }
            scores = next;
            it += 1;
        }
        Ok(scores)
    }
}

/// Law: with zero iterations requested the output is exactly the uniform
/// starting vector: every one of the `n` nodes holds `SCALE / n`.
pub proof fn lemma_zero_iterations_uniform(g: Seq<Seq<usize>>, dnum: u64, dden: u64)
    ensures
        ranks_after(g, dnum, dden, 0) == uniform_scores(g.len() as int),
{
}

/// Law: a converged score vector is a fixed point. Once a step returns its
/// own input, one more step changes no score at all — propagation is
/// exact integer arithmetic, so "within tolerance" is "exactly".
pub proof fn lemma_fixed_point_stable(scores: Seq<u64>, g: Seq<Seq<usize>>, dnum: u64, dden: u64)
    requires
        step(scores, g, dnum, dden) == scores,
    ensures
        step(step(scores, g, dnum, dden), g, dnum, dden) == scores,
{
}

/// Law: a converged run stays converged. If iteration `k + 1` returns
/// iteration `k`'s vector unchanged, every later iteration returns that
/// same vector — propagation is exact integer arithmetic, so a fixed
/// point, once reached, never moves by even one unit.
pub proof fn lemma_converged_stays(g: Seq<Seq<usize>>, dnum: u64, dden: u64, k: int, m: int)
    requires
        k >= 0,
        m >= k,
        ranks_after(g, dnum, dden, k + 1) == ranks_after(g, dnum, dden, k),
    ensures
        ranks_after(g, dnum, dden, m) == ranks_after(g, dnum, dden, k),
    decreases m,
{
    if m > k {
        lemma_converged_stays(g, dnum, dden, k, m - 1);
        assert(ranks_after(g, dnum, dden, m) == step(ranks_after(g, dnum, dden, m - 1), g, dnum,
            dden));
        assert(ranks_after(g, dnum, dden, k + 1) == step(ranks_after(g, dnum, dden, k), g, dnum,
            dden));
    }
}

/// No node of `g` has an outgoing edge.
pub open spec fn edgeless(g: Seq<Seq<usize>>) -> bool {
    forall|u: int| 0 <= u < g.len() ==> g[u].len() == 0
}

/// What every node of an edgeless graph holds after a full step: nothing
/// arrives along edges, so only the uniform damping floor remains.
pub open spec fn damping_floor(dnum: u64, dden: u64, n: int) -> u64 {
    (((dden - dnum) * SCALE) / (dden * n)) as u64
}

/// Nodes without outgoing edges contribute nothing: accumulation over an
/// edgeless graph leaves the vector as it was.
proof fn lemma_accumulate_edgeless(next: Seq<u64>, scores: Seq<u64>, g: Seq<Seq<usize>>, u: int)
    requires
        edgeless(g),
        0 <= u <= g.len(),
    ensures
        accumulate(next, scores, g, u) == next,
    decreases u,
{
    if u > 0 {
        lemma_accumulate_edgeless(next, scores, g, u - 1);
    }
}

/// Law: on a graph of isolated nodes (no edges at all) every node's score
/// is the same after one step — the damping floor — and it never moves
/// again: the output is this uniform vector for every iteration count of
/// one or more, whatever damping factor was configured.
pub proof fn lemma_isolated_nodes_uniform(g: Seq<Seq<usize>>, dnum: u64, dden: u64, k: int)
    requires
        edgeless(g),
        g.len() > 0,
        0 < dnum < dden,
        k >= 1,
    ensures
        ranks_after(g, dnum, dden, k) == Seq::new(
            g.len(),
            |i: int| damping_floor(dnum, dden, g.len() as int),
        ),
    decreases k,
{
    let n = g.len() as int;
    let prev = ranks_after(g, dnum, dden, k - 1);
    if k > 1 {
        lemma_isolated_nodes_uniform(g, dnum, dden, k - 1);
    }
    lemma_accumulate_edgeless(zero_scores(n), prev, g, n);
    assert(ranks_after(g, dnum, dden, k) == damp_all(zero_scores(n), dnum, dden));
    assert forall|i: int| 0 <= i < n implies damp_all(zero_scores(n), dnum, dden)[i]
        == damping_floor(dnum, dden, n) by {
        assert(dnum * 0u64 == 0) by (nonlinear_arith);
        vstd::arithmetic::div_mod::lemma_div_of0(dden as int);
        assert(damp_one(0u64, dnum, dden, n) == damping_floor(dnum, dden, n));
    }
    assert(damp_all(zero_scores(n), dnum, dden) =~= Seq::new(
        g.len(),
        |i: int| damping_floor(dnum, dden, n),
    ));
}

/// Law: a graph of a single node at zero iterations scores exactly one
/// full unit — `SCALE`, the fixed-point reading of 1.0.
pub proof fn lemma_single_node_zero_steps(g: Seq<Seq<usize>>, dnum: u64, dden: u64)
    requires
        g.len() == 1,
    ensures
        ranks_after(g, dnum, dden, 0) == seq![SCALE],
{
    assert(uniform_scores(1)[0] == (SCALE as int / 1) as u64);
    assert(ranks_after(g, dnum, dden, 0) =~= seq![SCALE]);
}

/// Law: an empty graph ranks to the empty score vector, whatever the
/// damping factor and however many steps are asked for.
pub proof fn lemma_ranks_after_empty(g: Seq<Seq<usize>>, dnum: u64, dden: u64, k: int)
    requires
        g.len() == 0,
    ensures
        ranks_after(g, dnum, dden, k).len() == 0,
    decreases k,
{
    if k > 0 {
        lemma_ranks_after_empty(g, dnum, dden, k - 1);
    }
}

} // verus!
