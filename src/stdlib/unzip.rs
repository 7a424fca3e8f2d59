//! The `unzip` function.
use vstd::prelude::*;

use crate::stdlib::Function;
use crate::stdlib::Implementation;
use crate::stdlib::Signature;

verus! {

/// Splits an array of pairs into the array of left members and the array
/// of right members. The inverse of `zip`.
pub fn unzip<L: Copy, R: Copy>(array: &Vec<(L, R)>) -> (r: (Vec<L>, Vec<R>))
    ensures
        r.0@.len() == array@.len(),
        r.1@.len() == array@.len(),
        forall|i: int| 0 <= i < array@.len() ==> r.0@[i] == (#[trigger] array@[i]).0 && r.1@[i] == array@[i].1,
{
    let mut left: Vec<L> = Vec::new();
    let mut right: Vec<R> = Vec::new();
    let mut i: usize = 0;
    while i < array.len()
        invariant
            i <= array@.len(),
            left@.len() == i,
            right@.len() == i,
            forall|k: int| 0 <= k < i ==> left@[k] == (#[trigger] array@[k]).0 && right@[k] == array@[k].1,
        decreases array@.len() - i,
    {
        let (l, r) = array[i];
        left.push(l);
        right.push(r);
        i = i + 1;
    }
    (left, right)
}

/// Gets the function describing `unzip`.
pub fn descriptor() -> (r: Function)
    ensures
        r.signatures@.len() == 1,
        r.signatures@[0].text@ == "(Array[Pair[X, Y]]) -> Pair[Array[X], Array[Y]]"@,
        r.signatures@[0].implementation == Implementation::Unzip,
{
    Function::single(Signature::new("(Array[Pair[X, Y]]) -> Pair[Array[X], Array[Y]]", Implementation::Unzip))
}

} // verus!
