//! Small generic helpers over slices.
use vstd::prelude::*;
use vstd::std_specs::cmp::PartialEqSpec;

verus! {

/// Whether every item of `a` equals `b` (by the type's `==`).
pub fn contains_only<T>(a: &[T], b: &T) -> (r: bool) where T: Eq
    requires
        T::obeys_eq_spec(),
    ensures
        r <==> (forall|i: int| 0 <= i < a@.len() ==> (#[trigger] a@[i]).eq_spec(b)),
{
    let mut i: usize = 0;
    while i < a.len()
        invariant
            T::obeys_eq_spec(),
            i <= a@.len(),
            forall|j: int| 0 <= j < i ==> (#[trigger] a@[j]).eq_spec(b),
        decreases a@.len() - i,
    {
        if !(a[i] == *b) {
            return false;
        }
        i = i + 1;
    }
    true
}

/// Whether `x` equals some item of `b` (by the type's `==`).
pub open spec fn equals_some<T: PartialEq>(b: Seq<T>, x: &T) -> bool {
    exists|j: int| 0 <= j < b.len() && x.eq_spec(&b[j])
}

/// Whether every item of `a` equals some item of `b` (by the type's `==`).
pub fn contains_only_set<T>(a: &[T], b: &[T]) -> (r: bool) where T: Eq
    requires
        T::obeys_eq_spec(),
    ensures
        r <==> (forall|i: int| 0 <= i < a@.len() ==> equals_some(b@, #[trigger] &a@[i])),
{
    let mut i: usize = 0;
    while i < a.len()
        invariant
            T::obeys_eq_spec(),
            i <= a@.len(),
            forall|k: int| 0 <= k < i ==> equals_some(b@, #[trigger] &a@[k]),
        decreases a@.len() - i,
    {
        let mut found = false;
        let mut j: usize = 0;
        while j < b.len() && !found
            invariant
                T::obeys_eq_spec(),
                i < a@.len(),
                j <= b@.len(),
                found ==> equals_some(b@, &a@[i as int]),
                !found ==> forall|jj: int| 0 <= jj < j ==> !a@[i as int].eq_spec(#[trigger] &b@[jj]),
            decreases b@.len() - j + (if found { 0int } else { 1int }),
        {
            if a[i] == b[j] {
                found = true;
            } else {
                j = j + 1;
            }
        }
        if !found {
            assert(!equals_some(b@, &a@[i as int]));
            return false;
        }
        i = i + 1;
    }
    true
}

} // verus!
