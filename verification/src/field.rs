//! The arithmetic that the reduction needs from a field.

use vstd::prelude::*;

verus! {

/// An element of a field, as far as this crate computes with it.
///
/// The crate never looks inside an element: it multiplies elements, compares
/// them and carries them around. An implementation states its multiplication
/// as `mul_spec` and proves that it is associative.
pub trait Field: Copy {
    /// The product of two elements.
    spec fn mul_spec(self, rhs: Self) -> Self;

    /// Multiplies two elements.
    fn times(self, rhs: Self) -> (r: Self)
        ensures
            r == self.mul_spec(rhs),
    ;

    /// Tells whether two elements are the same element.
    fn same(self, rhs: Self) -> (r: bool)
        ensures
            r == (self == rhs),
    ;

    /// Multiplication is associative.
    proof fn lemma_mul_associative(a: Self, b: Self, c: Self)
        ensures
            a.mul_spec(b).mul_spec(c) == a.mul_spec(b.mul_spec(c)),
    ;
}

/// The field with two elements: addition is exclusive or, multiplication is
/// conjunction.
#[derive(Clone, Copy, Debug, PartialEq, Eq)]
pub struct BinaryField1b {
    pub bit: bool,
}

impl Field for BinaryField1b {
    open spec fn mul_spec(self, rhs: Self) -> Self {
        BinaryField1b { bit: self.bit && rhs.bit }
    }

    fn times(self, rhs: Self) -> (r: Self) {
        BinaryField1b { bit: self.bit && rhs.bit }
    }

    fn same(self, rhs: Self) -> (r: bool) {
        self.bit == rhs.bit
    }

    proof fn lemma_mul_associative(a: Self, b: Self, c: Self) {
    }
}

/// Tells whether two sequences of elements agree in length and in every place.
pub fn same_elements<F: Field>(a: &Vec<F>, b: &Vec<F>) -> (r: bool)
    ensures
        r == (a@ == b@),
{
    if a.len() != b.len() {
        return false;
    }
    let mut i: usize = 0;
    while i < a.len()
        invariant
            a.len() == b.len(),
            i <= a.len(),
            forall|j: int| 0 <= j < i ==> a@[j] == b@[j],
        decreases a.len() - i,
    {
        if !a[i].same(b[i]) {
            return false;
        }
        i += 1;
    }
    assert(a@ =~= b@);
    true
}

/// Copies a sequence of elements.
pub fn copy_elements<F: Field>(a: &Vec<F>) -> (r: Vec<F>)
    ensures
        r@ == a@,
{
    let mut out: Vec<F> = Vec::new();
    let mut i: usize = 0;
    while i < a.len()
        invariant
            i <= a.len(),
            out@ == a@.take(i as int),
        decreases a.len() - i,
    {
        out.push(a[i]);
        assert(a@.take(i as int + 1) =~= a@.take(i as int).push(a@[i as int]));
        i += 1;
    }
    assert(a@.take(a.len() as int) =~= a@);
    out
}

} // verus!
