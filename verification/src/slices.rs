//! Copies of slices.
use vstd::prelude::*;

verus! {

/// The items of a slice, in order.
pub fn copy_slice<T: Copy>(items: &[T]) -> (r: Vec<T>)
    ensures
        r@ == items@,
{
    let mut copy: Vec<T> = Vec::new();
    let mut i: usize = 0;
    while i < items.len()
        invariant
            i <= items.len(),
            copy@ =~= items@.take(i as int),
        decreases items.len() - i,
    {
        copy.push(items[i]);
        i = i + 1;
    }
    assert(items@.take(items.len() as int) =~= items@);
    copy
}

} // verus!
