//! The quantized form in which a vector is stored.

use vstd::prelude::*;

verus! {

/// A vector as 8-bit integers, with the minimum and maximum of the unquantized
/// components. The two bounds are held as the bits of single-precision floats:
/// the library stores and moves them, the host's kernels compute with them.
#[derive(Debug)]
pub struct QuantizedVector {
    /// One value per component, in [-127, 127] where a quantizer made them.
    pub values: Vec<i8>,
    /// Bits of the smallest component before quantization.
    pub min: u32,
    /// Bits of the largest component before quantization.
    pub max: u32,
}

/// What a `QuantizedVector` holds.
pub struct QuantizedVectorView {
    pub values: Seq<i8>,
    pub min: u32,
    pub max: u32,
}

impl View for QuantizedVector {
    type V = QuantizedVectorView;

    open spec fn view(&self) -> QuantizedVectorView {
        QuantizedVectorView { values: self.values@, min: self.min, max: self.max }
    }
}

impl QuantizedVector {
    pub fn new(values: Vec<i8>, min: u32, max: u32) -> (r: Self)
        ensures
            r@ == (QuantizedVectorView { values: values@, min, max }),
    {
        QuantizedVector { values, min, max }
    }

    /// The vector of no components.
    pub fn empty() -> (r: Self)
        ensures
            r@ == (QuantizedVectorView { values: Seq::<i8>::empty(), min: 0, max: 0 }),
    {
        QuantizedVector { values: Vec::new(), min: 0, max: 0 }
    }

    /// Number of components.
    pub fn dim(&self) -> (r: usize)
        ensures
            r == self@.values.len(),
    {
        self.values.len()
    }

    /// A copy of this vector.
    pub fn duplicate(&self) -> (r: Self)
        ensures
            r@ == self@,
    {
        let values = self.values.clone();
        assert(values@ =~= self.values@);
        QuantizedVector { values, min: self.min, max: self.max }
    }
}

impl Clone for QuantizedVector {
    fn clone(&self) -> (r: Self)
        ensures
            r@ == self@,
    {
        self.duplicate()
    }
}

} // verus!
