use vstd::prelude::*;

verus! {

/// The number type a network computes with.
///
/// Each operation is given as a spec function, and each executable method
/// returns exactly what its spec function says. The network's contracts are
/// stated over these spec functions, so they hold for every type that meets
/// the contracts below. Verus checks this of the implementations it sees
/// (`i64` below); one written outside it, such as one over floating point,
/// keeps it by making each method call its spec function.
pub trait Scalar: Sized + Copy {
    /// The additive identity.
    spec fn spec_zero() -> Self;

    /// The multiplicative identity: a fresh neuron's weight.
    spec fn spec_one() -> Self;

    spec fn spec_plus(self, other: Self) -> Self;

    spec fn spec_minus(self, other: Self) -> Self;

    spec fn spec_times(self, other: Self) -> Self;

    spec fn spec_negate(self) -> Self;

    spec fn spec_abs(self) -> Self;

    spec fn spec_less(self, other: Self) -> bool;

    fn zero() -> (r: Self)
        ensures
            r == Self::spec_zero(),
    ;

    fn one() -> (r: Self)
        ensures
            r == Self::spec_one(),
    ;

    fn plus(self, other: Self) -> (r: Self)
        ensures
            r == self.spec_plus(other),
    ;

    fn minus(self, other: Self) -> (r: Self)
        ensures
            r == self.spec_minus(other),
    ;

    fn times(self, other: Self) -> (r: Self)
        ensures
            r == self.spec_times(other),
    ;

    fn negate(self) -> (r: Self)
        ensures
            r == self.spec_negate(),
    ;

    fn abs_value(self) -> (r: Self)
        ensures
            r == self.spec_abs(),
    ;

    fn less(self, other: Self) -> (r: bool)
        ensures
            r == self.spec_less(other),
    ;
}

/// `max(x, 0)`, written with the scalar's own comparison, so that a value
/// that is not below zero (NaN included, for floating point) passes through.
pub open spec fn spec_relu<S: Scalar>(x: S) -> S {
    if x.spec_less(S::spec_zero()) {
        S::spec_zero()
    } else {
        x
    }
}

/// `a` is not above `b`: `b` is not less than `a`.
pub open spec fn not_above<S: Scalar>(a: S, b: S) -> bool {
    !b.spec_less(a)
}

/// `less` is a strict total order: no value is less than itself, it is
/// transitive, and of two different values one is less than the other.
/// Integers meet this; floating point does not, because of NaN.
pub open spec fn less_is_total_order<S: Scalar>() -> bool {
    &&& forall|a: S| !(#[trigger] a.spec_less(a))
    &&& forall|a: S, b: S, c: S|
        #![trigger a.spec_less(b), b.spec_less(c)]
        a.spec_less(b) && b.spec_less(c) ==> a.spec_less(c)
    &&& forall|a: S, b: S| #![trigger a.spec_less(b)] a == b || a.spec_less(b) || b.spec_less(a)
}

/// Under a total order, "not above" is transitive.
pub proof fn lemma_not_above_trans<S: Scalar>(a: S, b: S, c: S)
    requires
        less_is_total_order::<S>(),
        not_above(a, b),
        not_above(b, c),
    ensures
        not_above(a, c),
{
    if c.spec_less(a) {
        assert(b == c || b.spec_less(c) || c.spec_less(b));
        if b.spec_less(c) {
            assert(b.spec_less(c) && c.spec_less(a) ==> b.spec_less(a));
        }
        assert(a == b || a.spec_less(b) || b.spec_less(a));
        if a.spec_less(b) {
            assert(c.spec_less(a) && a.spec_less(b) ==> c.spec_less(b));
        }
    }
}

/// Under a total order, a value less than another is not above it, and
/// every value is not above itself.
pub proof fn lemma_less_not_above<S: Scalar>(a: S, b: S)
    requires
        less_is_total_order::<S>(),
    ensures
        a.spec_less(b) ==> not_above(a, b),
        not_above(a, a),
{
    assert(!a.spec_less(a));
    if a.spec_less(b) && b.spec_less(a) {
        assert(a.spec_less(b) && b.spec_less(a) ==> a.spec_less(a));
    }
}

/// What the sign of an error rests on: zero is not below zero; negating a
/// value that is not above zero gives one not below zero; an absolute value
/// is not below zero; and the sum of two values not below zero is not below
/// zero. Floating point meets this (a NaN is below nothing); wrapping
/// integers do not, at the ends of their range.
pub open spec fn keeps_sign<S: Scalar>() -> bool {
    &&& !S::spec_zero().spec_less(S::spec_zero())
    &&& forall|a: S|
        !S::spec_zero().spec_less(a) ==> !(#[trigger] a.spec_negate()).spec_less(S::spec_zero())
    &&& forall|a: S| !(#[trigger] a.spec_abs()).spec_less(S::spec_zero())
    &&& forall|a: S, b: S|
        !a.spec_less(S::spec_zero()) && !b.spec_less(S::spec_zero()) ==> !(#[trigger] a.spec_plus(
            b,
        )).spec_less(S::spec_zero())
}

/// Integers with two's-complement wrapping arithmetic: exact as long as no
/// intermediate value leaves the range of `i64`.
impl Scalar for i64 {
    open spec fn spec_zero() -> i64 {
        0
    }

    open spec fn spec_one() -> i64 {
        1
    }

    open spec fn spec_plus(self, other: i64) -> i64 {
        self.wrapping_add(other)
    }

    open spec fn spec_minus(self, other: i64) -> i64 {
        self.wrapping_sub(other)
    }

    open spec fn spec_times(self, other: i64) -> i64 {
        self.wrapping_mul(other)
    }

    open spec fn spec_negate(self) -> i64 {
        0i64.wrapping_sub(self)
    }

    open spec fn spec_abs(self) -> i64 {
        if self < 0 {
            0i64.wrapping_sub(self)
        } else {
            self
        }
    }

    open spec fn spec_less(self, other: i64) -> bool {
        self < other
    }

    fn zero() -> (r: i64) {
        0
    }

    fn one() -> (r: i64) {
        1
    }

    fn plus(self, other: i64) -> (r: i64) {
        self.wrapping_add(other)
    }

    fn minus(self, other: i64) -> (r: i64) {
        self.wrapping_sub(other)
    }

    fn times(self, other: i64) -> (r: i64) {
        self.wrapping_mul(other)
    }

    fn negate(self) -> (r: i64) {
        0i64.wrapping_sub(self)
    }

    fn abs_value(self) -> (r: i64) {
        if self < 0 {
            0i64.wrapping_sub(self)
        } else {
            self
        }
    }

    fn less(self, other: i64) -> (r: bool) {
        self < other
    }
}

/// `i64`'s `<` is a strict total order.
pub proof fn lemma_i64_total_order()
    ensures
        less_is_total_order::<i64>(),
{
}

} // verus!
