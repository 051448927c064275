use vstd::prelude::*;

verus! {

/// Scalar types usable as floating-point coordinates by unverified
/// companions of this library; the library itself stores fixed-point
/// integer coordinates.
pub trait FloatScalar: Sized {
    fn get_zero() -> Self;
}

/// Scalar types a hasher may produce.
pub trait HashedScaler {

}

impl HashedScaler for u32 {

}

impl HashedScaler for i32 {

}

} // verus!
