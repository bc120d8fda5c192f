//! Sorting small vectors in place, with what a sort owes: the same items,
//! in order.

use vstd::prelude::*;

verus! {

/// Exchanging two items keeps the multiset of items.
pub proof fn lemma_swap_keeps_items<A>(s: Seq<A>, i: int, j: int)
    requires
        0 <= i < s.len(),
        0 <= j < s.len(),
    ensures
        s.update(i, s[j]).update(j, s[i]).to_multiset() == s.to_multiset(),
{
    broadcast use vstd::seq_lib::to_multiset_update;
    broadcast use vstd::seq_lib::to_multiset_contains;
    broadcast use vstd::multiset::group_multiset_axioms;

    let s1 = s.update(i, s[j]);
    assert(s1.to_multiset() == s.to_multiset().insert(s[j]).remove(s[i]));
    assert(s1.update(j, s[i]).to_multiset() == s1.to_multiset().insert(s[i]).remove(s1[j]));
    assert(s.contains(s[i]));
    assert(s.contains(s[j]));
    assert(s1.update(j, s[i]).to_multiset() =~= s.to_multiset());
}

/// No item is larger than the one behind it.
pub open spec fn rising(s: Seq<u8>) -> bool {
    forall|i: int, j: int| 0 <= i <= j < s.len() ==> s[i] <= s[j]
}

/// No item is smaller than the one behind it.
pub open spec fn falling(s: Seq<usize>) -> bool {
    forall|i: int, j: int| 0 <= i <= j < s.len() ==> s[i] >= s[j]
}

/// Sorts the bytes into rising order.
pub fn sort_rising(v: &mut Vec<u8>)
    ensures
        rising(final(v)@),
        final(v)@.to_multiset() == old(v)@.to_multiset(),
        final(v)@.len() == old(v)@.len(),
{
    let n: usize = v.len();
    let mut i: usize = 1;
    while i < n
        invariant
            n == v@.len(),
            1 <= i || n == 0,
            v@.to_multiset() == old(v)@.to_multiset(),
            forall|a: int, b: int| 0 <= a <= b < i && b < n ==> v@[a] <= v@[b],
        decreases n - i,
    {
        let mut k: usize = i;
        while k > 0 && v[k - 1] > v[k]
            invariant
                k <= i < n,
                n == v@.len(),
                v@.to_multiset() == old(v)@.to_multiset(),
                forall|a: int, b: int| 0 <= a <= b <= i && a != k && b != k ==> v@[a] <= v@[b],
                forall|b: int| k < b <= i ==> v@[k as int] <= v@[b],
            decreases k,
        {
            let ghost before = v@;
            let x: u8 = v[k - 1];
            let y: u8 = v[k];
            v.set(k - 1, y);
            v.set(k, x);
            proof {
                lemma_swap_keeps_items(before, k - 1, k as int);
            }
            k -= 1;
        }
        i += 1;
    }
}

/// Sorts the numbers into falling order.
pub fn sort_falling(v: &mut Vec<usize>)
    ensures
        falling(final(v)@),
        final(v)@.to_multiset() == old(v)@.to_multiset(),
        final(v)@.len() == old(v)@.len(),
{
    let n: usize = v.len();
    let mut i: usize = 1;
    while i < n
        invariant
            n == v@.len(),
            1 <= i || n == 0,
            v@.to_multiset() == old(v)@.to_multiset(),
            forall|a: int, b: int| 0 <= a <= b < i && b < n ==> v@[a] >= v@[b],
        decreases n - i,
    {
        let mut k: usize = i;
        while k > 0 && v[k - 1] < v[k]
            invariant
                k <= i < n,
                n == v@.len(),
                v@.to_multiset() == old(v)@.to_multiset(),
                forall|a: int, b: int| 0 <= a <= b <= i && a != k && b != k ==> v@[a] >= v@[b],
                forall|b: int| k < b <= i ==> v@[k as int] >= v@[b],
            decreases k,
        {
            let ghost before = v@;
            let x: usize = v[k - 1];
            let y: usize = v[k];
            v.set(k - 1, y);
            v.set(k, x);
            proof {
                lemma_swap_keeps_items(before, k - 1, k as int);
            }
            k -= 1;
        }
        i += 1;
    }
}

} // verus!
