//! Random generation of individuals: fresh random strings, per-position
//! mutation, and uniform crossover. All randomness flows through two small
//! trusted wrappers around the `rand` crate; everything built on them is
//! verified for every value those wrappers can return.

use vstd::prelude::*;
use rand::Rng;
use rand::seq::SliceRandom;

verus! {

/// Relies on rand::Rng::gen_range over the range 0..n: the result is drawn
/// from that range, in particular strictly below n (gen_range panics on an
/// empty range, which n > 0 rules out).
#[verifier::external_body]
fn rand_below(n: usize) -> (r: usize)
    requires
        n > 0,
    ensures
        r < n,
{
    rand::thread_rng().gen_range(0..n)
}

/// Relies on rand::seq::SliceRandom::choose_multiple: `amount` elements of
/// the slice chosen at random without repetition (a sub-multiset of the
/// population), in random order.
#[verifier::external_body]
pub(crate) fn sample(population: &Vec<Vec<char>>, amount: usize) -> (r: Vec<Vec<char>>)
    requires
        0 < amount <= population@.len(),
    ensures
        r.deep_view().len() == amount,
        forall|i: int|
            0 <= i < r.deep_view().len() ==> population.deep_view().contains(#[trigger] r.deep_view()[i]),
        r.deep_view().to_multiset().subset_of(population.deep_view().to_multiset()),
{
    population.choose_multiple(&mut rand::thread_rng(), amount).cloned().collect()
}

/// One symbol drawn uniformly from the alphabet.
pub fn generate_random_character(alphabet: &Vec<char>) -> (c: char)
    requires
        alphabet@.len() > 0,
    ensures
        alphabet@.contains(c),
{
    let i = rand_below(alphabet.len());
    let c = alphabet[i];
    proof {
        assert(alphabet@[i as int] == c);
    }
    c
}

/// A fresh individual of `len` independent uniform symbols from the alphabet.
pub fn generate_random_string(alphabet: &Vec<char>, len: usize) -> (r: Vec<char>)
    requires
        alphabet@.len() > 0,
    ensures
        r@.len() == len,
        forall|i: int| 0 <= i < r@.len() ==> alphabet@.contains(#[trigger] r@[i]),
{
    let mut r: Vec<char> = Vec::new();
    let mut i: usize = 0;
    while i < len
        invariant
            alphabet@.len() > 0,
            i <= len,
            r@.len() == i,
            forall|j: int| 0 <= j < r@.len() ==> alphabet@.contains(#[trigger] r@[j]),
        decreases len - i,
    {
        r.push(generate_random_character(alphabet));
        i = i + 1;
    }
    r
}

/// A new individual that copies `individual` except that each position,
/// independently with probability `mutation_num / mutation_den`, is replaced
/// by a freshly drawn uniform symbol (which may coincide with the original).
/// The input is never changed. With rate 0 the copy is exact; with rate 1
/// (or more) every position is freshly drawn from the alphabet.
pub fn generate_mutated(
    alphabet: &Vec<char>,
    individual: &Vec<char>,
    mutation_num: usize,
    mutation_den: usize,
) -> (r: Vec<char>)
    requires
        alphabet@.len() > 0,
        mutation_den > 0,
    ensures
        r@.len() == individual@.len(),
        forall|i: int|
            0 <= i < r@.len() ==> (#[trigger] r@[i]) == individual@[i] || alphabet@.contains(r@[i]),
        mutation_num == 0 ==> r@ == individual@,
        mutation_num >= mutation_den ==> forall|i: int|
            0 <= i < r@.len() ==> alphabet@.contains(#[trigger] r@[i]),
{
    let mut r: Vec<char> = Vec::new();
    let mut i: usize = 0;
    while i < individual.len()
        invariant
            alphabet@.len() > 0,
            mutation_den > 0,
            i <= individual@.len(),
            r@.len() == i,
            forall|j: int|
                0 <= j < r@.len() ==> (#[trigger] r@[j]) == individual@[j] || alphabet@.contains(
                    r@[j],
                ),
            mutation_num == 0 ==> forall|j: int| 0 <= j < r@.len() ==> r@[j] == individual@[j],
            mutation_num >= mutation_den ==> forall|j: int|
                0 <= j < r@.len() ==> alphabet@.contains(#[trigger] r@[j]),
        decreases individual@.len() - i,
    {
        if rand_below(mutation_den) < mutation_num {
            r.push(generate_random_character(alphabet));
        } else {
            r.push(individual[i]);
        }
        i = i + 1;
    }
    proof {
        if mutation_num == 0 {
            assert(r@ =~= individual@);
        }
    }
    r
}

/// Uniform crossover: a new individual where each position is copied from
/// `a` or from `b`, chosen independently with equal probability. Crossing an
/// individual with itself reproduces it exactly.
pub fn generate_crossover(a: &Vec<char>, b: &Vec<char>) -> (r: Vec<char>)
    requires
        a@.len() == b@.len(),
    ensures
        r@.len() == a@.len(),
        forall|i: int| 0 <= i < r@.len() ==> (#[trigger] r@[i]) == a@[i] || r@[i] == b@[i],
        a@ == b@ ==> r@ == a@,
{
    let mut r: Vec<char> = Vec::new();
    let mut i: usize = 0;
    while i < a.len()
        invariant
            a@.len() == b@.len(),
            i <= a@.len(),
            r@.len() == i,
            forall|j: int|
                0 <= j < r@.len() ==> (#[trigger] r@[j]) == a@[j] || r@[j] == b@[j],
        decreases a@.len() - i,
    {
        if rand_below(2) == 0 {
            r.push(a[i]);
        } else {
            r.push(b[i]);
        }
        i = i + 1;
    }
    proof {
        if a@ == b@ {
            assert(r@ =~= a@);
        }
    }
    r
}

} // verus!
