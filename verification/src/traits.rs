//! Trait bundles for numeric computations and array-library interop.
//!
//! These traits bundle capability requirements for generic numeric code;
//! they carry no runtime behaviour of their own.

use vstd::prelude::*;

verus! {

/// A trait for scalar values used in mathematical computations: static
/// lifetime, cloning, equality comparison, and debug formatting.
pub trait Scalar: 'static + Clone + PartialEq + core::fmt::Debug {}

impl<T: 'static + Clone + PartialEq + core::fmt::Debug> Scalar for T {}

/// A trait for vectors that can be cleared and refilled with default values.
pub trait ZeroVec {
    /// Clears the vector and resizes it to `len` elements, each the element
    /// type's default value.
    fn zero_len(&mut self, len: usize);
}

impl<T: Default + Clone> ZeroVec for Vec<T> {
    fn zero_len(&mut self, len: usize) {
        self.clear();
        let mut i: usize = 0;
        while i < len
            invariant
                i <= len,
                self@.len() == i,
            decreases len - i,
        {
            self.push(T::default());
            i += 1;
        }
    }
}

/// Conversion into an nalgebra container.  The conversions themselves rely
/// on raw-pointer interop between the array libraries and live with the
/// surrounding layer.
pub trait IntoNalgebra {
    /// The nalgebra-side result of the conversion.
    type Out;

    /// Performs the conversion.
    fn into_nalgebra(self) -> Self::Out;
}

/// Conversion into a one-dimensional ndarray container.  The conversions
/// themselves rely on raw-pointer interop between the array libraries and
/// live with the surrounding layer.
pub trait IntoNdarray1 {
    /// The ndarray-side result of the conversion.
    type Out;

    /// Performs the conversion.
    fn into_ndarray1(self) -> Self::Out;
}

/// Conversion into a two-dimensional ndarray container.  The conversions
/// themselves rely on raw-pointer interop between the array libraries and
/// live with the surrounding layer.
pub trait IntoNdarray2 {
    /// The ndarray-side result of the conversion.
    type Out;

    /// Performs the conversion.
    fn into_ndarray2(self) -> Self::Out;
}

} // verus!
