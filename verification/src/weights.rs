//! Weighing programming languages by age: each language carries its year
//! of creation; the weight normalises age onto the range 1 ..= 100, the
//! oldest language weighing 100.
//!
//! The table is an ordered list of (name, year) pairs with the name as the
//! key; order is the insertion order.

use vstd::prelude::*;
use vstd::arithmetic::div_mod::{lemma_div_is_ordered, lemma_div_pos_is_pos,
    lemma_div_multiples_vanish};

verus! {

/// The smallest value among the first `u` entries of the table.
pub open spec fn min_year(s: Seq<(String, i32)>, u: int) -> i32
    decreases u,
{
    if u <= 1 {
        s[0].1
    } else if s[u - 1].1 < min_year(s, u - 1) {
        s[u - 1].1
    } else {
        min_year(s, u - 1)
    }
}

/// The largest value among the first `u` entries of the table.
pub open spec fn max_year(s: Seq<(String, i32)>, u: int) -> i32
    decreases u,
{
    if u <= 1 {
        s[0].1
    } else if s[u - 1].1 > max_year(s, u - 1) {
        s[u - 1].1
    } else {
        max_year(s, u - 1)
    }
}

/// The weight of entry `a`: its value normalised onto 1 ..= 100 between
/// the table's extremes, in exact integer arithmetic. A table whose values
/// are all equal normalises everything to the bottom weight 1.
pub open spec fn weight_of(s: Seq<(String, i32)>, a: int) -> i32 {
    let lo = min_year(s, s.len() as int);
    let hi = max_year(s, s.len() as int);
    if lo == hi {
        1i32
    } else {
        (((s[a].1 - lo) * 99) / (hi - lo) + 1) as i32
    }
}

/// Every entry of the prefix lies between its min and its max.
proof fn lemma_min_max_bounds(s: Seq<(String, i32)>, a: int, u: int)
    requires
        0 <= a < u,
    ensures
        min_year(s, u) <= s[a].1 <= max_year(s, u),
        min_year(s, u) <= max_year(s, u),
    decreases u,
{
    if u > 1 && a < u - 1 {
        lemma_min_max_bounds(s, a, u - 1);
    }
    if u > 1 {
        lemma_min_max_bounds(s, u - 2, u - 1);
    }
}

/// The language table: fourteen languages, each with its year of
/// creation, in a fixed order.
pub fn init_languages() -> (r: Vec<(String, i32)>)
    ensures
        r@.len() == 14,
        r@[0].0@ == "JavaScript"@ && r@[0].1 == 1995,
        r@[1].0@ == "HTML/CSS"@ && r@[1].1 == 1990,
        r@[2].0@ == "Python"@ && r@[2].1 == 1991,
        r@[3].0@ == "SQL"@ && r@[3].1 == 1974,
        r@[4].0@ == "TypeScript"@ && r@[4].1 == 2012,
        r@[5].0@ == "Bash/Shell"@ && r@[5].1 == 1989,
        r@[6].0@ == "Java"@ && r@[6].1 == 1995,
        r@[7].0@ == "C#"@ && r@[7].1 == 2000,
        r@[8].0@ == "C++"@ && r@[8].1 == 1985,
        r@[9].0@ == "C"@ && r@[9].1 == 1972,
        r@[10].0@ == "PHP"@ && r@[10].1 == 1995,
        r@[11].0@ == "PowerShell"@ && r@[11].1 == 2006,
        r@[12].0@ == "Go"@ && r@[12].1 == 2007,
        r@[13].0@ == "Rust"@ && r@[13].1 == 2010,
{
    let mut r: Vec<(String, i32)> = Vec::new();
    r.push((String::from_str("JavaScript"), 1995));
    r.push((String::from_str("HTML/CSS"), 1990));
    r.push((String::from_str("Python"), 1991));
    r.push((String::from_str("SQL"), 1974));
    r.push((String::from_str("TypeScript"), 2012));
    r.push((String::from_str("Bash/Shell"), 1989));
    r.push((String::from_str("Java"), 1995));
    r.push((String::from_str("C#"), 2000));
    r.push((String::from_str("C++"), 1985));
    r.push((String::from_str("C"), 1972));
    r.push((String::from_str("PHP"), 1995));
    r.push((String::from_str("PowerShell"), 2006));
    r.push((String::from_str("Go"), 2007));
    r.push((String::from_str("Rust"), 2010));
    r
}

/// Turn each year of creation into years of age as of 2024, in place,
/// then weigh every language by age onto 1 ..= 100: the oldest weighs
/// 100, the newest 1, the rest in exact linear proportion.
pub fn calculate_weights(years_active: &mut Vec<(String, i32)>) -> (weights: Vec<(String, i32)>)
    requires
        forall|a: int|
            0 <= a < old(years_active)@.len() ==> (#[trigger] old(years_active)@[a]).1 > i32::MIN
                + 2024,
    ensures
        final(years_active)@.len() == old(years_active)@.len(),
        forall|a: int|
            0 <= a < old(years_active)@.len() ==> (#[trigger] final(years_active)@[a]).0 == old(
                years_active,
            )@[a].0 && final(years_active)@[a].1 == 2024 - old(years_active)@[a].1,
        weights@.len() == final(years_active)@.len(),
        forall|a: int|
            0 <= a < weights@.len() ==> (#[trigger] weights@[a]).0@ == final(years_active)@[a].0@
                && weights@[a].1 == weight_of(final(years_active)@, a),
{
    let n = years_active.len();
    let mut i: usize = 0;
    while i < n
        invariant
            i <= n,
            n == years_active@.len(),
            n == old(years_active)@.len(),
            forall|a: int|
                0 <= a < n ==> (#[trigger] old(years_active)@[a]).1 > i32::MIN + 2024,
            forall|a: int|
                i <= a < n ==> (#[trigger] years_active@[a]) == old(years_active)@[a],
            forall|a: int|
                0 <= a < i ==> (#[trigger] years_active@[a]).0 == old(years_active)@[a].0
                    && years_active@[a].1 == 2024 - old(years_active)@[a].1,
        decreases n - i,
    {
        let y = years_active[i].1;
        proof {
            assert(years_active@[i as int] == old(years_active)@[i as int]);
            assert(y > i32::MIN + 2024);
        }
        years_active[i].1 = 2024 - y;
        i += 1;
    }

    if n == 0 {
        let weights: Vec<(String, i32)> = Vec::new();
        return weights;
    }

    // the extremes of the mutated table
    let mut lo = years_active[0].1;
    let mut hi = years_active[0].1;
    let mut i: usize = 1;
    while i < n
        invariant
            1 <= i <= n,
            n == years_active@.len(),
            lo == min_year(years_active@, i as int),
            hi == max_year(years_active@, i as int),
            lo <= hi,
        decreases n - i,
    {
        let y = years_active[i].1;
        if y < lo {
            lo = y;
        }
        if y > hi {
            hi = y;
        }
        i += 1;
    }

    let mut weights: Vec<(String, i32)> = Vec::new();
    let mut i: usize = 0;
    while i < n
        invariant
            i <= n,
            n == years_active@.len(),
            n > 0,
            lo == min_year(years_active@, n as int),
            hi == max_year(years_active@, n as int),
            lo <= hi,
            weights@.len() == i,
            forall|a: int|
                0 <= a < i ==> (#[trigger] weights@[a]).0@ == years_active@[a].0@ && weights@[a].1
                    == weight_of(years_active@, a),
        decreases n - i,
    {
        let y = years_active[i].1;
        proof {
            lemma_min_max_bounds(years_active@, i as int, n as int);
        }
        let w: i32 = if lo == hi {
            1
        } else {
            let span = (hi as i64) - (lo as i64);
            let scaled = ((y as i64) - (lo as i64)) * 99;
            proof {
                assert(0 <= (y as i64) - (lo as i64) <= span);
                assert(0 <= scaled <= span * 99) by (nonlinear_arith)
                    requires
                        0 <= (y as i64) - (lo as i64) <= span,
                        scaled == ((y as i64) - (lo as i64)) * 99,
                ;
                lemma_div_pos_is_pos(scaled as int, span as int);
                lemma_div_is_ordered(scaled as int, (span * 99) as int, span as int);
                lemma_div_multiples_vanish(99, span as int);
                assert(span * 99 == (span as int) * 99) by (nonlinear_arith);
            }
            let q = scaled / span;
            (q as i32) + 1
        };
        let name = years_active[i].0.clone();
        weights.push((name, w));
        i += 1;
    }
    weights
}

} // verus!
