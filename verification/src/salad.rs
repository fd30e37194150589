//! The fruit salad: scramble a list of fruit, then garnish both ends.
//! Scrambling goes through the `rand` crate; everything the library
//! promises holds whatever order the scramble produced.

use vstd::prelude::*;
use rand::seq::SliceRandom;

verus! {

#[verifier::external_type_specification]
#[verifier::external_body]
pub struct ExThreadRng(rand::rngs::ThreadRng);

/// Relies on rand::thread_rng: a handle to the thread-local random
/// number generator. Nothing is promised of the numbers it yields.
#[verifier::external_body]
fn new_rng() -> rand::rngs::ThreadRng {
    rand::thread_rng()
}

/// Relies on SliceRandom::shuffle: it reorders the elements in place by
/// swaps, so the result is a permutation of the input, whatever the
/// randomness did.
#[verifier::external_body]
fn shuffle_strings(v: &mut Vec<String>, rng: &mut rand::rngs::ThreadRng)
    ensures
        final(v)@.len() == old(v)@.len(),
        final(v)@.to_multiset() == old(v)@.to_multiset(),
{
    v.shuffle(rng);
}

/// Scramble the fruit, then put "Pomegranate" at the front and "Fig" and
/// "Cherry" at the back. Between the garnishes sit exactly the fruit that
/// came in, in some order.
pub fn make_fruit_salad(fruit: Vec<String>) -> (salad: Vec<String>)
    ensures
        salad@.len() == fruit@.len() + 3,
        salad@[0]@ == "Pomegranate"@,
        salad@[salad@.len() - 2]@ == "Fig"@,
        salad@[salad@.len() - 1]@ == "Cherry"@,
        salad@.subrange(1, salad@.len() - 2).to_multiset() == fruit@.to_multiset(),
{
    let mut v = fruit;
    let mut rng = new_rng();
    shuffle_strings(&mut v, &mut rng);
    let n = v.len();
    let mut salad: Vec<String> = Vec::new();
    salad.push(String::from_str("Pomegranate"));
    let mut k: usize = 0;
    while k < n
        invariant
            k <= n,
            n == v@.len(),
            salad@.len() == 1 + k,
            salad@[0]@ == "Pomegranate"@,
            forall|t: int| 0 <= t < k ==> salad@[1 + t] == v@[t],
        decreases n - k,
    {
        salad.push(v[k].clone());
        k += 1;
    }
    salad.push(String::from_str("Fig"));
    salad.push(String::from_str("Cherry"));
    proof {
        assert(salad@.subrange(1, salad@.len() - 2) =~= v@);
    }
    salad
}

} // verus!
