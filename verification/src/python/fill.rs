//! Fill values.
use vstd::prelude::*;
use vstd::std_specs::cmp::PartialEqSpec;

verus! {

/// Whether `r` is `v` with the fill value applied: `fv` where `v` and `cond` compare equal by the
/// `==` of their type, else `v`.
pub open spec fn is_filled<T: PartialEq>(v: T, cond: T, fv: T, r: T) -> bool {
    exists|b: bool| #[trigger]
        call_ensures(<T as PartialEq>::eq, (&v, &cond), b) && r == if b {
            fv
        } else {
            v
        }
}

/// An element stays as it is or becomes the fill value, and it becomes the fill value only where
/// the `==` of its type finds it equal to `cond`, and stays only where it does not.
pub proof fn lemma_filled<T: PartialEq>(v: T, cond: T, fv: T, r: T)
    requires
        is_filled(v, cond, fv, r),
    ensures
        r == v || r == fv,
        r != v ==> call_ensures(<T as PartialEq>::eq, (&v, &cond), true),
        r != fv ==> call_ensures(<T as PartialEq>::eq, (&v, &cond), false),
{
}

/// An element with the fill value applied: `fv` in place of `cond`.
pub fn filled<T: PartialEq + Copy>(v: T, cond: T, fv: T) -> (r: T)
    ensures
        is_filled(v, cond, fv, r),
        T::obeys_eq_spec() ==> r == if v.eq_spec(&cond) {
            fv
        } else {
            v
        },
{
    if v == cond {
        fv
    } else {
        v
    }
}

/// Puts `fv` in place of each element that is `cond`.
pub fn apply_fill_value<T: PartialEq + Copy>(cond: T, fv: T, arr: &mut [T])
    ensures
        final(arr)@.len() == old(arr)@.len(),
        forall|i: int|
            0 <= i < old(arr)@.len() ==> is_filled(
                old(arr)@[i],
                cond,
                fv,
                #[trigger] final(arr)@[i],
            ),
        T::obeys_eq_spec() ==> forall|i: int|
            0 <= i < old(arr)@.len() ==> #[trigger] final(arr)@[i] == if old(arr)@[i].eq_spec(
                &cond,
            ) {
                fv
            } else {
                old(arr)@[i]
            },
{
    let n = arr.len();
    let ghost before = arr@;
    let mut i: usize = 0;
    while i < n
        invariant
            n == arr@.len(),
            n == before.len(),
            before == old(arr)@,
            i <= n,
            forall|j: int|
                0 <= j < i ==> is_filled(before[j], cond, fv, #[trigger] arr@[j]),
            T::obeys_eq_spec() ==> forall|j: int|
                0 <= j < i ==> #[trigger] arr@[j] == if before[j].eq_spec(&cond) {
                    fv
                } else {
                    before[j]
                },
            forall|j: int| i <= j < n ==> #[trigger] arr@[j] == before[j],
        decreases n - i,
    {
        let v = filled(arr[i], cond, fv);
        arr[i] = v;
        i = i + 1;
    }
}

} // verus!
