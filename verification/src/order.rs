//! The strict total order on keys that a tree is built over.

use core::cmp::Ordering;
use vstd::prelude::*;
use vstd::std_specs::cmp::OrdSpec;

verus! {

/// `a` lies strictly below `b` in the order that `K`'s `Ord` describes.
pub open spec fn lt<K: Ord>(a: K, b: K) -> bool {
    a.cmp_spec(&b) == Ordering::Less
}

/// `K`'s comparison is a strict total order in which two keys compare equal
/// exactly when they are the same value.
pub open spec fn total_order<K: Ord>() -> bool {
    &&& K::obeys_cmp_spec()
    &&& forall|a: K, b: K| #[trigger] a.cmp_spec(&b) == Ordering::Equal <==> a == b
    &&& forall|a: K, b: K| #[trigger] a.cmp_spec(&b) == Ordering::Greater <==> lt(b, a)
    &&& forall|a: K, b: K, c: K| #[trigger] lt(a, b) && #[trigger] lt(b, c) ==> lt(a, c)
}

/// How one key stands to another.
pub enum KeyOrder {
    Below,
    Same,
    Above,
}

/// Compares two keys.
pub fn compare_keys<K: Ord>(a: &K, b: &K) -> (r: KeyOrder)
    requires
        total_order::<K>(),
    ensures
        r is Below <==> lt(*a, *b),
        r is Same <==> *a == *b,
        r is Above <==> lt(*b, *a),
{
    match a.cmp(b) {
        Ordering::Less => KeyOrder::Below,
        Ordering::Equal => KeyOrder::Same,
        Ordering::Greater => KeyOrder::Above,
    }
}

/// The built-in order of the machine integers is a total order: a caller
/// whose keys are integers meets the `total_order` that the tree asks for.
pub proof fn lemma_integers_total_order()
    ensures
        total_order::<u8>(),
        total_order::<u16>(),
        total_order::<u32>(),
        total_order::<u64>(),
        total_order::<u128>(),
        total_order::<usize>(),
        total_order::<i8>(),
        total_order::<i16>(),
        total_order::<i32>(),
        total_order::<i64>(),
        total_order::<i128>(),
        total_order::<isize>(),
{
}

} // verus!
