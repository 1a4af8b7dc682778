//! Helpers on vectors of plain values.

use vstd::prelude::*;
use crate::id_set::Key;

verus! {

/// A fresh vector with the same elements.
pub fn copy_vec<T: Copy>(v: &Vec<T>) -> (r: Vec<T>)
    ensures
        r@ == v@,
{
    let mut r: Vec<T> = Vec::new();
    let mut k: usize = 0;
    while k < v.len()
        invariant
            k <= v.len(),
            r@ == v@.take(k as int),
        decreases v.len() - k,
    {
        r.push(v[k]);
        proof {
            assert(r@ =~= v@.take(k + 1));
        }
        k = k + 1;
    }
    proof {
        assert(v@.take(k as int) =~= v@);
    }
    r
}

/// Whether two vectors hold the same elements in the same order.
pub fn same_vec<T: Key>(a: &Vec<T>, b: &Vec<T>) -> (r: bool)
    ensures
        r == (a@ == b@),
{
    if a.len() != b.len() {
        return false;
    }
    let mut k: usize = 0;
    while k < a.len()
        invariant
            k <= a.len(),
            a.len() == b.len(),
            forall|j: int| 0 <= j < k ==> a@[j] == b@[j],
        decreases a.len() - k,
    {
        if !a[k].same(&b[k]) {
            return false;
        }
        k = k + 1;
    }
    proof {
        assert(a@ =~= b@);
    }
    true
}

/// Whether a vector holds the given element.
pub fn vec_contains<T: Key>(v: &Vec<T>, x: T) -> (r: bool)
    ensures
        r == v@.contains(x),
{
    let mut k: usize = 0;
    while k < v.len()
        invariant
            k <= v.len(),
            forall|j: int| 0 <= j < k ==> v@[j] != x,
        decreases v.len() - k,
    {
        if v[k].same(&x) {
            return true;
        }
        k = k + 1;
    }
    false
}

/// The number of entries among the first `n` that hold nothing yet.
pub open spec fn unassigned(marks: Seq<Option<usize>>, n: int) -> nat
    decreases n,
{
    if n <= 0 {
        0
    } else {
        unassigned(marks, n - 1) + if marks[n - 1].is_none() {
            1nat
        } else {
            0nat
        }
    }
}

/// Filling an entry that held nothing leaves one entry less that holds
/// nothing.
pub proof fn lemma_assign(marks: Seq<Option<usize>>, i: int, z: usize, n: int)
    requires
        0 <= i < marks.len(),
        0 <= n <= marks.len(),
        marks[i].is_none(),
    ensures
        unassigned(marks.update(i, Some(z)), n) + (if i < n {
            1nat
        } else {
            0nat
        }) == unassigned(marks, n),
    decreases n,
{
    if n > 0 {
        lemma_assign(marks, i, z, n - 1);
    }
}

} // verus!
