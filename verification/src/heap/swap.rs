//! What the standard library's exchange of two slice elements does.
use vstd::prelude::*;

verus! {

/// `<[E]>::swap`: the elements at `a` and `b` change places and nothing else
/// changes. The standard function panics where an index is out of bounds.
pub assume_specification<E>[ <[E]>::swap ](slice: &mut [E], a: usize, b: usize)
    requires
        a < old(slice)@.len(),
        b < old(slice)@.len(),
    ensures
        final(slice)@ == old(slice)@.update(a as int, old(slice)@[b as int]).update(
            b as int,
            old(slice)@[a as int],
        ),
;

} // verus!
