//! The field with exactly two elements.
//!
//! An element holds one bit. Addition is exclusive or, multiplication is
//! conjunction; the additive identity is the zero bit and the
//! multiplicative identity is the one bit. The field laws are stated and
//! proved over the two spec operations below.

use vstd::prelude::*;

verus! {

/// Addition in the two-element field: exclusive or of the bits.
pub open spec fn gf2_add(a: bool, b: bool) -> bool {
    a != b
}

/// Multiplication in the two-element field: conjunction of the bits.
pub open spec fn gf2_mul(a: bool, b: bool) -> bool {
    a && b
}

/// An element of the field of two values, held as one bit.
///
/// The view of an element is its bit; the additive identity views as
/// `false` and the multiplicative identity as `true`.
#[derive(Clone, Copy, Debug, PartialEq, Eq, PartialOrd, Ord, Structural)]
pub struct GF2 {
    b: bool,
}

impl View for GF2 {
    type V = bool;

    closed spec fn view(&self) -> bool {
        self.b
    }
}

impl GF2 {
    /// Builds the element whose bit is `bit`.
    pub fn new(bit: bool) -> (r: Self)
        ensures
            r@ == bit,
    {
        GF2 { b: bit }
    }

    /// Hands the element's bit back.
    pub fn bit(&self) -> (r: bool)
        ensures
            r == self@,
    {
        self.b
    }

    /// The additive identity, the element 0.
    pub fn additive_identity() -> (r: Self)
        ensures
            r@ == false,
    {
        GF2 { b: false }
    }

    /// The multiplicative identity, the element 1.
    pub fn multiplicative_identity() -> (r: Self)
        ensures
            r@ == true,
    {
        GF2 { b: true }
    }

    /// Adds two elements: exclusive or of the bits.
    pub fn add(self, right: Self) -> (r: Self)
        ensures
            r@ == gf2_add(self@, right@),
    {
        GF2 { b: self.b != right.b }
    }

    /// Multiplies two elements: conjunction of the bits.
    pub fn multiply(self, right: Self) -> (r: Self)
        ensures
            r@ == gf2_mul(self@, right@),
    {
        GF2 { b: self.b && right.b }
    }

    /// The additive inverse of an element is the element itself, since the
    /// field has characteristic two.
    pub fn additive_inverse(self) -> (r: Self)
        ensures
            r == self,
    {
        self
    }

    /// Hands back the element with the negated bit.
    ///
    /// The multiplicative inverse of the additive identity is undefined in
    /// any field; this operation nonetheless maps the additive identity to
    /// the multiplicative identity (and the multiplicative identity to the
    /// additive identity), and that concrete choice is part of its
    /// contract.
    pub fn multiplicative_inverse(self) -> (r: Self)
        ensures
            r@ == !self@,
    {
        GF2 { b: !self.b }
    }
}

/// Field law: addition is commutative.
pub proof fn lemma_add_commutative(a: bool, b: bool)
    ensures
        gf2_add(a, b) == gf2_add(b, a),
{
}

/// Field law: addition is associative.
pub proof fn lemma_add_associative(a: bool, b: bool, c: bool)
    ensures
        gf2_add(gf2_add(a, b), c) == gf2_add(a, gf2_add(b, c)),
{
}

/// Field law: the zero bit is the identity of addition.
pub proof fn lemma_add_identity(a: bool)
    ensures
        gf2_add(false, a) == a,
        gf2_add(a, false) == a,
{
}

/// Field law: every element is its own additive inverse.
pub proof fn lemma_add_self_inverse(a: bool)
    ensures
        gf2_add(a, a) == false,
{
}

/// Field law: multiplication is commutative.
pub proof fn lemma_mul_commutative(a: bool, b: bool)
    ensures
        gf2_mul(a, b) == gf2_mul(b, a),
{
}

/// Field law: multiplication is associative.
pub proof fn lemma_mul_associative(a: bool, b: bool, c: bool)
    ensures
        gf2_mul(gf2_mul(a, b), c) == gf2_mul(a, gf2_mul(b, c)),
{
}

/// Field law: the one bit is the identity of multiplication.
pub proof fn lemma_mul_identity(a: bool)
    ensures
        gf2_mul(true, a) == a,
        gf2_mul(a, true) == a,
{
}

/// Field law: the additive identity absorbs under multiplication.
pub proof fn lemma_mul_zero_absorbs(a: bool)
    ensures
        gf2_mul(false, a) == false,
        gf2_mul(a, false) == false,
{
}

/// Field law: the one nonzero element is its own multiplicative inverse,
/// so every nonzero element has a multiplicative inverse.
pub proof fn lemma_nonzero_self_inverse(a: bool)
    requires
        a != false,
    ensures
        gf2_mul(a, a) == true,
{
}

/// Field law: multiplication distributes over addition.
pub proof fn lemma_mul_distributes_over_add(a: bool, b: bool, c: bool)
    ensures
        gf2_mul(a, gf2_add(b, c)) == gf2_add(gf2_mul(a, b), gf2_mul(a, c)),
{
}

} // verus!
