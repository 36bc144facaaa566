//! Lists of values, seen as what they hold.

use vstd::prelude::*;

verus! {

/// What the items of a list hold, item by item.
pub open spec fn views<T: View>(items: Seq<T>) -> Seq<T::V> {
    Seq::new(items.len(), |i: int| items[i]@)
}

} // verus!
