//! What the benchmark entry points need from the platform.

use vstd::prelude::*;

verus! {

/// Hands `dummy` back unchanged. This calls `core::hint::black_box`, which
/// std documents as an identity function that the optimizer treats as
/// opaque; that it returns its argument is taken from that documentation and
/// not proved.
#[verifier::external_body]
pub fn black_box<T>(dummy: T) -> (r: T)
    ensures
        r == dummy,
{
    core::hint::black_box(dummy)
}

} // verus!
