//! Component types of vectors.
use vstd::prelude::*;

use crate::number::{f32_finite, f32_is_finite};

verus! {

/// A component of a vector.
pub trait VectorType: Copy {
    /// Whether the component is a finite number.
    spec fn finite(self) -> bool;

    /// Whether the component is a finite number.
    fn is_finite(&self) -> (result: bool)
        ensures
            result == self.finite(),
    ;
}

/// A single precision component, held as its bit pattern.
#[derive(Debug, Clone, Copy, PartialEq, Eq, Structural)]
pub struct F32 {
    pub bits: u32,
}

/// A half precision component, held as its bit pattern.
#[derive(Debug, Clone, Copy, PartialEq, Eq, Structural)]
pub struct F16 {
    pub bits: u16,
}

/// Whether the encoded half precision number is neither infinite nor a NaN.
pub open spec fn f16_finite(bits: u16) -> bool {
    (if bits < 0x8000 { bits as int } else { bits - 0x8000 }) < 0x7c00
}

impl VectorType for F32 {
    open spec fn finite(self) -> bool {
        f32_finite(self.bits)
    }

    fn is_finite(&self) -> (result: bool) {
        f32_is_finite(self.bits)
    }
}

impl VectorType for F16 {
    open spec fn finite(self) -> bool {
        f16_finite(self.bits)
    }

    fn is_finite(&self) -> (result: bool) {
        if self.bits < 0x8000 {
            self.bits < 0x7c00
        } else {
            self.bits - 0x8000 < 0x7c00
        }
    }
}

/// Binary signatures are words; every word is finite.
impl VectorType for u64 {
    open spec fn finite(self) -> bool {
        true
    }

    fn is_finite(&self) -> (result: bool) {
        true
    }
}

/// Whether every component is finite.
pub open spec fn all_finite<T: VectorType>(vector: Seq<T>) -> bool {
    forall|i: int| 0 <= i < vector.len() ==> (#[trigger] vector[i]).finite()
}

/// Whether every component of `vector` is finite.
pub fn is_all_finite<T: VectorType>(vector: &[T]) -> (result: bool)
    ensures
        result == all_finite(vector@),
{
    let mut i: usize = 0;
    while i < vector.len()
        invariant
            i <= vector@.len(),
            forall|j: int| 0 <= j < i ==> (#[trigger] vector@[j]).finite(),
        decreases vector@.len() - i,
    {
        if !vector[i].is_finite() {
            assert(!vector@[i as int].finite());
            return false;
        }
        i += 1;
    }
    true
}

/// A vector with the same elements.
pub fn copy_slice<T: Copy>(source: &[T]) -> (result: Vec<T>)
    ensures
        result@ == source@,
{
    let mut result: Vec<T> = Vec::new();
    let mut i: usize = 0;
    while i < source.len()
        invariant
            i <= source@.len(),
            result@ == source@.subrange(0, i as int),
        decreases source@.len() - i,
    {
        result.push(source[i]);
        proof {
            assert(source@.subrange(0, i + 1) =~= source@.subrange(0, i as int).push(
                source@[i as int],
            ));
        }
        i += 1;
    }
    assert(source@.subrange(0, i as int) =~= source@);
    result
}

} // verus!
