use vstd::prelude::*;
use crate::field::PrimeField;

verus! {

/// A group of prime order, written additively, with its scalar field.
///
/// The spec functions name what the operations compute; the contracts of
/// this library are stated over them.
pub trait Group: Sized + Copy {
    type Scalar: PrimeField;

    spec fn identity_spec() -> Self;

    spec fn add_spec(self, rhs: Self) -> Self;

    /// The multiple of this element by the residue `s`.
    spec fn mul_spec(self, s: int) -> Self;

    /// Both elements are the same point.
    spec fn same(self, rhs: Self) -> bool;

    spec fn compress_spec(self) -> Seq<u8>;

    /// The point that an encoding stands for, if it stands for one.
    spec fn decompress_spec(bytes: Seq<u8>) -> Option<Self>;

    /// The generator derived from the residue `s`.
    spec fn from_scalar_spec(s: int) -> Self;

    proof fn lemma_add_commutative(a: Self, b: Self)
        ensures
            a.add_spec(b) == b.add_spec(a),
    ;

    proof fn lemma_add_associative(a: Self, b: Self, c: Self)
        ensures
            a.add_spec(b).add_spec(c) == a.add_spec(b.add_spec(c)),
    ;

    /// The identity absorbs scalars and is neutral for itself.
    proof fn lemma_identity(r: int)
        ensures
            Self::identity_spec().mul_spec(r) == Self::identity_spec(),
            Self::identity_spec().add_spec(Self::identity_spec()) == Self::identity_spec(),
    ;

    /// A multiple of a sum is the sum of the multiples.
    proof fn lemma_mul_distributes(a: Self, b: Self, r: int)
        ensures
            a.add_spec(b).mul_spec(r) == a.mul_spec(r).add_spec(b.mul_spec(r)),
    ;

    /// The multiple by a sum of residues is the sum of the multiples.
    proof fn lemma_mul_adds(g: Self, s: int, t: int)
        ensures
            g.mul_spec((s + t) % Self::Scalar::modulus()) == g.mul_spec(s).add_spec(g.mul_spec(t)),
    ;

    /// A multiple of a multiple is the multiple by the product.
    proof fn lemma_mul_associative(g: Self, s: int, r: int)
        ensures
            g.mul_spec(s).mul_spec(r) == g.mul_spec(s * r),
    ;

    fn identity() -> (r: Self)
        ensures
            r == Self::identity_spec(),
    ;

    fn add(&self, rhs: &Self) -> (r: Self)
        ensures
            r == self.add_spec(*rhs),
    ;

    fn mul(&self, s: &Self::Scalar) -> (r: Self)
        ensures
            r == self.mul_spec(s.value()),
    ;

    fn eq(&self, rhs: &Self) -> (r: bool)
        ensures
            r == self.same(*rhs),
    ;

    fn compress(&self) -> (r: Vec<u8>)
        ensures
            r@ == self.compress_spec(),
            r@.len() <= u32::MAX,
    ;

    fn decompress(bytes: &[u8]) -> (r: Option<Self>)
        ensures
            r == Self::decompress_spec(bytes@),
    ;

    fn from_scalar(s: &Self::Scalar) -> (r: Self)
        ensures
            r == Self::from_scalar_spec(s.value()),
    ;
}

} // verus!
