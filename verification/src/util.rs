//! Copies of vectors.

use vstd::prelude::*;

verus! {

/// A vector with the entries of `source`.
pub fn copy_bytes(source: &[u8]) -> (copy: Vec<u8>)
    ensures
        copy@ == source@,
{
    let mut copy: Vec<u8> = Vec::new();
    let mut i: usize = 0;
    while i < source.len()
        invariant
            i <= source.len(),
            copy.len() == i,
            forall|j: int| 0 <= j < i ==> copy[j] == source[j],
        decreases source.len() - i,
    {
        copy.push(source[i]);
        i += 1;
    }
    assert(copy@ =~= source@);
    copy
}

/// A vector with the entries of `source`.
pub fn copy_numbers(source: &[usize]) -> (copy: Vec<usize>)
    ensures
        copy@ == source@,
{
    let mut copy: Vec<usize> = Vec::new();
    let mut i: usize = 0;
    while i < source.len()
        invariant
            i <= source.len(),
            copy.len() == i,
            forall|j: int| 0 <= j < i ==> copy[j] == source[j],
        decreases source.len() - i,
    {
        copy.push(source[i]);
        i += 1;
    }
    assert(copy@ =~= source@);
    copy
}

} // verus!
