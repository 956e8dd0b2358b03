//! Uniform random draws, and shuffling built on them.
//!
//! The two draw functions are the library's only source of randomness; every
//! algorithm that samples does so through them, so its logic is verified for
//! every value they could return.

use vstd::prelude::*;

use rand::Rng;

verus! {

broadcast use
    vstd::seq_lib::group_to_multiset_ensures,
    vstd::multiset::group_multiset_axioms,
    vstd::multiset::group_multiset_properties;

/// Relies on `rand::Rng::gen_range` on the thread-local generator: a uniform
/// draw strictly below `bound`.  Nothing more can be promised of a random
/// value.
#[verifier::external_body]
pub(crate) fn draw_below(bound: u128) -> (r: u128)
    requires
        bound > 0,
    ensures
        r < bound,
{
    rand::thread_rng().gen_range(0..bound)
}

/// Relies on `rand::Rng::gen_range` on the thread-local generator: a uniform
/// index strictly below `bound`.
#[verifier::external_body]
pub(crate) fn draw_index(bound: usize) -> (r: usize)
    requires
        bound > 0,
    ensures
        r < bound,
{
    rand::thread_rng().gen_range(0..bound)
}

/// Shuffles a vector of strings in place by the Fisher–Yates method.  The
/// result holds exactly the old elements, rearranged.
pub fn shuffle_strings(v: &mut Vec<String>)
    ensures
        final(v)@.to_multiset() == old(v)@.to_multiset(),
        final(v)@.len() == old(v)@.len(),
{
    let n = v.len();
    if n == 0 {
        return;
    }
    let mut i: usize = n - 1;
    while i > 0
        invariant
            0 <= i < v@.len(),
            v@.len() <= usize::MAX,
            v@.len() == old(v)@.len(),
            v@.to_multiset() == old(v)@.to_multiset(),
        decreases i,
    {
        let j = draw_index(i + 1);
        let ghost before = v@;
        let a = v[i].clone();
        let b = v[j].clone();
        v.set(i, b);
        v.set(j, a);
        proof {
            assert(before.contains(before[i as int]));
            assert(before.contains(before[j as int]));
            assert(before.to_multiset().count(before[i as int]) > 0);
            assert(before.to_multiset().count(before[j as int]) > 0);
            assert(v@ == before.update(i as int, before[j as int]).update(
                j as int,
                before[i as int],
            ));
            assert(v@.to_multiset() =~= before.to_multiset());
        }
        i -= 1;
    }
}

/// Shuffles a vector of characters in place by the Fisher–Yates method.
/// The result holds exactly the old characters, rearranged.
pub fn shuffle_chars(v: &mut Vec<char>)
    ensures
        final(v)@.to_multiset() == old(v)@.to_multiset(),
        final(v)@.len() == old(v)@.len(),
{
    let n = v.len();
    if n == 0 {
        return;
    }
    let mut i: usize = n - 1;
    while i > 0
        invariant
            0 <= i < v@.len(),
            v@.len() <= usize::MAX,
            v@.len() == old(v)@.len(),
            v@.to_multiset() == old(v)@.to_multiset(),
        decreases i,
    {
        let j = draw_index(i + 1);
        let ghost before = v@;
        let a = v[i];
        let b = v[j];
        v.set(i, b);
        v.set(j, a);
        proof {
            assert(before.contains(before[i as int]));
            assert(before.contains(before[j as int]));
            assert(before.to_multiset().count(before[i as int]) > 0);
            assert(before.to_multiset().count(before[j as int]) > 0);
            assert(v@ == before.update(i as int, before[j as int]).update(
                j as int,
                before[i as int],
            ));
            assert(v@.to_multiset() =~= before.to_multiset());
        }
        i -= 1;
    }
}

} // verus!
