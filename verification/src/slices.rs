//! Fixed-size windows into byte arrays.
use vstd::prelude::*;

verus! {

/// `<&[u8; M]>::try_from` of std on `&a[start..start + M]`: a reference to
/// the `M` bytes of `a` from `start`, which the conversion always accepts
/// since the slice has length `M`.
#[verifier::external_body]
pub(crate) fn array_window<const N: usize, const M: usize>(a: &[u8; N], start: usize) -> (r: &[u8; M])
    requires
        start + M <= N,
    ensures
        r@ == a@.subrange(start as int, start + M),
{
    (&a[start..start + M]).try_into().unwrap()
}

} // verus!
