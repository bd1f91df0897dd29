//! Tables indexed by small integer ids whose free slots are reused, as the
//! kernel keeps descriptors and synchronisation objects.

use vstd::prelude::*;

verus! {

/// `s` lengthened with copies of `x` up to length `n`, if it is shorter.
pub open spec fn pad<T>(s: Seq<T>, n: int, x: T) -> Seq<T> {
    if s.len() >= n {
        s
    } else {
        s + Seq::new((n - s.len()) as nat, |i: int| x)
    }
}

/// `i` is the slot that creating an object takes: the first free one, or a
/// new one at the end when none is free.
pub open spec fn first_free<T>(s: Seq<Option<T>>, i: int) -> bool {
    &&& 0 <= i <= s.len()
    &&& i < s.len() ==> s[i] is None
    &&& forall|j: int| 0 <= j < i ==> #[trigger] s[j] is Some
}

/// `s` with object `x` stored in slot `i`.
pub open spec fn fill_slot<T>(s: Seq<Option<T>>, i: int, x: T) -> Seq<Option<T>> {
    if i < s.len() {
        s.update(i, Some(x))
    } else {
        s.push(Some(x))
    }
}

/// Stores `item` in the first free slot of `list`, or in a new slot at the
/// end, and returns the slot's index.
pub fn alloc_slot<T>(list: &mut Vec<Option<T>>, item: T) -> (id: usize)
    requires
        old(list)@.len() < usize::MAX,
    ensures
        first_free(old(list)@, id as int),
        final(list)@ == fill_slot(old(list)@, id as int, item),
{
    let mut i: usize = 0;
    while i < list.len()
        invariant
            0 <= i <= list@.len(),
            list@ == old(list)@,
            forall|j: int| 0 <= j < i ==> #[trigger] list@[j] is Some,
        decreases list@.len() - i,
    {
        if list[i].is_none() {
            list[i] = Some(item);
            return i;
        }
        i = i + 1;
    }
    list.push(Some(item));
    list.len() - 1
}

} // verus!
