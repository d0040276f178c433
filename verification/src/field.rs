//! The algebra that the matrices are built over: a field, given as a trait, and
//! the consequences of its laws that the linear algebra needs.
use vstd::prelude::*;

verus! {

/// A field: two identities, four operations, and the laws that tie them together.
///
/// The `spec` functions are the mathematical operations; the executable methods
/// compute them; the `proof` functions are the field axioms, which an implementor
/// has to prove of its own operations.
pub trait Field: Sized + Copy {
    /// The additive identity.
    spec fn zero_value() -> Self;

    /// The multiplicative identity.
    spec fn one_value() -> Self;

    /// Addition.
    spec fn sum(self, y: Self) -> Self;

    /// Subtraction.
    spec fn difference(self, y: Self) -> Self;

    /// Multiplication.
    spec fn product(self, y: Self) -> Self;

    /// Only meaningful where `y` is not zero.
    spec fn quotient(self, y: Self) -> Self;

    /// The additive identity.
    fn zero() -> (r: Self)
        ensures
            r == Self::zero_value(),
    ;

    /// The multiplicative identity.
    fn one() -> (r: Self)
        ensures
            r == Self::one_value(),
    ;

    /// `self + y`.
    fn add(self, y: Self) -> (r: Self)
        ensures
            r == self.sum(y),
    ;

    /// `self - y`.
    fn sub(self, y: Self) -> (r: Self)
        ensures
            r == self.difference(y),
    ;

    /// `self * y`.
    fn mul(self, y: Self) -> (r: Self)
        ensures
            r == self.product(y),
    ;

    /// `self / y`, for a `y` other than zero.
    fn div(self, y: Self) -> (r: Self)
        requires
            y != Self::zero_value(),
        ensures
            r == self.quotient(y),
    ;

    /// Whether this is the additive identity.
    fn is_zero(self) -> (r: bool)
        ensures
            r == (self == Self::zero_value()),
    ;

    /// Whether this is the multiplicative identity.
    fn is_one(self) -> (r: bool)
        ensures
            r == (self == Self::one_value()),
    ;

    /// `x + y == y + x`.
    proof fn sum_commutes(x: Self, y: Self)
        ensures
            x.sum(y) == y.sum(x),
    ;

    /// `(x + y) + z == x + (y + z)`.
    proof fn sum_associates(x: Self, y: Self, z: Self)
        ensures
            x.sum(y).sum(z) == x.sum(y.sum(z)),
    ;

    /// `x + 0 == x`.
    proof fn sum_with_zero(x: Self)
        ensures
            x.sum(Self::zero_value()) == x,
    ;

    /// `(x + y) - y == x`.
    proof fn difference_undoes_sum(x: Self, y: Self)
        ensures
            x.sum(y).difference(y) == x,
    ;

    /// `(x - y) + y == x`.
    proof fn sum_undoes_difference(x: Self, y: Self)
        ensures
            x.difference(y).sum(y) == x,
    ;

    /// `x * y == y * x`.
    proof fn product_commutes(x: Self, y: Self)
        ensures
            x.product(y) == y.product(x),
    ;

    /// `(x * y) * z == x * (y * z)`.
    proof fn product_associates(x: Self, y: Self, z: Self)
        ensures
            x.product(y).product(z) == x.product(y.product(z)),
    ;

    /// `x * 1 == x`.
    proof fn product_with_one(x: Self)
        ensures
            x.product(Self::one_value()) == x,
    ;

    /// `(x * y) / y == x`, for a `y` other than zero.
    proof fn quotient_undoes_product(x: Self, y: Self)
        requires
            y != Self::zero_value(),
        ensures
            x.product(y).quotient(y) == x,
    ;

    /// `(x / y) * y == x`, for a `y` other than zero.
    proof fn product_undoes_quotient(x: Self, y: Self)
        requires
            y != Self::zero_value(),
        ensures
            x.quotient(y).product(y) == x,
    ;

    /// `x * (y + z) == x * y + x * z`.
    proof fn product_distributes(x: Self, y: Self, z: Self)
        ensures
            x.product(y.sum(z)) == x.product(y).sum(x.product(z)),
    ;

    /// The two identities differ.
    proof fn zero_is_not_one()
        ensures
            Self::zero_value() != Self::one_value(),
    ;
}

/// Addition can be cancelled on the right.
pub proof fn lemma_sum_cancels<F: Field>(x: F, y: F, z: F)
    requires
        x.sum(z) == y.sum(z),
    ensures
        x == y,
{
    F::difference_undoes_sum(x, z);
    F::difference_undoes_sum(y, z);
}

/// Zero is also a left identity of addition.
pub proof fn lemma_zero_plus<F: Field>(x: F)
    ensures
        F::zero_value().sum(x) == x,
{
    F::sum_commutes(F::zero_value(), x);
    F::sum_with_zero(x);
}

/// Subtracting zero changes nothing.
pub proof fn lemma_minus_zero<F: Field>(x: F)
    ensures
        x.difference(F::zero_value()) == x,
{
    F::sum_undoes_difference(x, F::zero_value());
    F::sum_with_zero(x.difference(F::zero_value()));
}

/// Anything less itself is zero.
pub proof fn lemma_minus_itself<F: Field>(x: F)
    ensures
        x.difference(x) == F::zero_value(),
{
    F::difference_undoes_sum(F::zero_value(), x);
    lemma_zero_plus(x);
}

/// Zero less one is not zero.
pub proof fn lemma_minus_one_is_not_zero<F: Field>()
    ensures
        F::zero_value().difference(F::one_value()) != F::zero_value(),
{
    F::sum_undoes_difference(F::zero_value(), F::one_value());
    lemma_zero_plus(F::one_value());
    F::zero_is_not_one();
}

/// `x + x * (0 - 1) == 0`: multiplying by zero less one negates.
pub proof fn lemma_times_minus_one<F: Field>(x: F)
    ensures
        x.sum(x.product(F::zero_value().difference(F::one_value()))) == F::zero_value(),
{
    let (zero, one) = (F::zero_value(), F::one_value());
    lemma_product_over_difference(x, zero, one);
    lemma_product_with_zero(x);
    F::product_with_one(x);
    F::sum_undoes_difference(zero, x);
    F::sum_commutes(x, zero.difference(x));
}

/// `(a + b) + (c + d) == (a + c) + (b + d)`.
pub proof fn lemma_sum_interchange<F: Field>(a: F, b: F, c: F, d: F)
    ensures
        a.sum(b).sum(c.sum(d)) == a.sum(c).sum(b.sum(d)),
{
    F::sum_associates(a, b, c.sum(d));
    F::sum_associates(b, c, d);
    F::sum_commutes(b, c);
    F::sum_associates(c, b, d);
    F::sum_associates(a, c, b.sum(d));
}

/// Zero absorbs under multiplication, on either side.
pub proof fn lemma_product_with_zero<F: Field>(x: F)
    ensures
        x.product(F::zero_value()) == F::zero_value(),
        F::zero_value().product(x) == F::zero_value(),
{
    let z = F::zero_value();
    let p = x.product(z);
    F::sum_with_zero(z);
    F::product_distributes(x, z, z);
    lemma_zero_plus(p);
    lemma_sum_cancels(p, z, p);
    F::product_commutes(x, z);
}

/// A product is zero only where a factor is.
pub proof fn lemma_no_zero_divisors<F: Field>(x: F, y: F)
    requires
        x.product(y) == F::zero_value(),
    ensures
        x == F::zero_value() || y == F::zero_value(),
{
    if y != F::zero_value() {
        F::quotient_undoes_product(x, y);
        lemma_product_with_zero(y);
        F::quotient_undoes_product(F::zero_value(), y);
    }
}

/// One is also a left identity of multiplication.
pub proof fn lemma_one_times<F: Field>(x: F)
    ensures
        F::one_value().product(x) == x,
{
    F::product_commutes(F::one_value(), x);
    F::product_with_one(x);
}

/// Multiplication distributes from the right as well.
pub proof fn lemma_product_distributes_right<F: Field>(x: F, y: F, z: F)
    ensures
        x.sum(y).product(z) == x.product(z).sum(y.product(z)),
{
    F::product_commutes(x.sum(y), z);
    F::product_distributes(z, x, y);
    F::product_commutes(z, x);
    F::product_commutes(z, y);
}

/// Multiplication distributes over subtraction.
pub proof fn lemma_product_over_difference<F: Field>(x: F, y: F, z: F)
    ensures
        x.product(y.difference(z)) == x.product(y).difference(x.product(z)),
{
    F::sum_undoes_difference(y, z);
    F::product_distributes(x, y.difference(z), z);
    F::difference_undoes_sum(x.product(y.difference(z)), x.product(z));
}

/// `(a - b) + (c - d) == (a + c) - (b + d)`.
pub proof fn lemma_difference_interchange<F: Field>(a: F, b: F, c: F, d: F)
    ensures
        a.difference(b).sum(c.difference(d)) == a.sum(c).difference(b.sum(d)),
{
    let l = a.difference(b).sum(c.difference(d));
    lemma_sum_interchange(a.difference(b), c.difference(d), b, d);
    F::sum_undoes_difference(a, b);
    F::sum_undoes_difference(c, d);
    F::difference_undoes_sum(l, b.sum(d));
}

/// Dividing a product by `u` divides one of its factors: `(x / u) * y == (x * y) / u`.
pub proof fn lemma_quotient_of_product<F: Field>(x: F, y: F, u: F)
    requires
        u != F::zero_value(),
    ensures
        x.quotient(u).product(y) == x.product(y).quotient(u),
{
    let q = x.quotient(u);
    F::product_associates(q, y, u);
    F::product_commutes(y, u);
    F::product_associates(q, u, y);
    F::product_undoes_quotient(x, u);
    F::quotient_undoes_product(q.product(y), u);
}

/// Division distributes over addition: `(x / u) + (y / u) == (x + y) / u`.
pub proof fn lemma_quotient_of_sum<F: Field>(x: F, y: F, u: F)
    requires
        u != F::zero_value(),
    ensures
        x.quotient(u).sum(y.quotient(u)) == x.sum(y).quotient(u),
{
    lemma_product_distributes_right(x.quotient(u), y.quotient(u), u);
    F::product_undoes_quotient(x, u);
    F::product_undoes_quotient(y, u);
    F::quotient_undoes_product(x.quotient(u).sum(y.quotient(u)), u);
}

/// Zero divided by anything that is not zero is zero.
pub proof fn lemma_zero_quotient<F: Field>(u: F)
    requires
        u != F::zero_value(),
    ensures
        F::zero_value().quotient(u) == F::zero_value(),
{
    lemma_product_with_zero(u);
    F::quotient_undoes_product(F::zero_value(), u);
}

/// Anything that is not zero, divided by itself, is one.
pub proof fn lemma_quotient_by_itself<F: Field>(u: F)
    requires
        u != F::zero_value(),
    ensures
        u.quotient(u) == F::one_value(),
{
    lemma_one_times(u);
    F::quotient_undoes_product(F::one_value(), u);
}

} // verus!
