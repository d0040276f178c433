//! GF(256), the field of the bytes, with the reduction polynomial 0x11b.
//!
//! Multiplication and division go through a table of the powers of the generator
//! 3 and the table of logarithms that inverts it. What the tables hold is checked
//! here against the polynomial arithmetic that defines the field, and the field
//! laws are proved from that.
pub mod polynomial;
pub mod tables;

use crate::field::Field;
use polynomial::{
    lemma_polynomial_product_distributes, lemma_polynomial_product_of_triple,
    lemma_polynomial_product_small, polynomial_product, triple,
};
use tables::{
    exp, exp_entry, is_exponent, lemma_exp, lemma_exp_of_successor, lemma_exp_of_zero, lemma_log,
    log, log_entry,
};
use vstd::prelude::*;

verus! {

/// An element of GF(256).
#[derive(Copy, Clone, PartialEq, Eq, Structural, Debug)]
pub struct Gf8(pub u8);

impl Gf8 {
    /// The quotient of `self` and `y`; `None` where `y` is zero.
    pub fn checked_div(self, y: Gf8) -> (q: Option<Gf8>)
        ensures
            q.is_none() <==> y == Gf8::zero_value(),
            q matches Some(q) ==> q == self.quotient(y),
    {
        if y.0 == 0 {
            None
        } else {
            Some(Gf8(divide(self.0, y.0)))
        }
    }

    /// All 256 elements, in the order of their bytes.
    pub fn elements() -> (all: Vec<Gf8>)
        ensures
            all.len() == 256,
            forall|i: int| 0 <= i < 256 ==> (#[trigger] all[i]).0 == i,
    {
        let mut all: Vec<Gf8> = Vec::with_capacity(256);
        let mut byte: u8 = 0;
        while byte < 255
            invariant
                all.len() == byte,
                forall|i: int| 0 <= i < byte ==> (#[trigger] all[i]).0 == i,
            decreases 255 - byte,
        {
            all.push(Gf8(byte));
            byte += 1;
        }
        all.push(Gf8(byte));
        all
    }
}

/// The product of two bytes as field elements: through the tables, zero absorbing.
pub open spec fn table_product(x: u8, y: u8) -> u8 {
    if x == 0 || y == 0 {
        0
    } else {
        exp((log(x) + log(y)) % 255)
    }
}

/// The quotient of two bytes as field elements, for a divisor other than zero.
pub open spec fn table_quotient(x: u8, y: u8) -> u8 {
    if x == 0 {
        0
    } else {
        exp((log(x) + 255 - log(y)) % 255)
    }
}

/// The product of two bytes, looked up in the tables.
fn multiply(x: u8, y: u8) -> (z: u8)
    ensures
        z == table_product(x, y),
{
    if x == 0 || y == 0 {
        return 0;
    }
    let x_log: u8 = log_entry(x);
    let y_log: u8 = log_entry(y);
    let z_log: usize = ((x_log as usize) + (y_log as usize)) % 255;
    exp_entry(z_log)
}

/// The quotient of two bytes, looked up in the tables.
fn divide(x: u8, y: u8) -> (z: u8)
    requires
        y != 0,
    ensures
        z == table_quotient(x, y),
{
    if x == 0 {
        return 0;
    }
    let x_log: u8 = log_entry(x);
    let y_log: u8 = log_entry(y);
    let z_log: usize = ((x_log as usize) + 255 - (y_log as usize)) % 255;
    exp_entry(z_log)
}

impl Field for Gf8 {
    open spec fn zero_value() -> Gf8 {
        Gf8(0)
    }

    open spec fn one_value() -> Gf8 {
        Gf8(1)
    }

    open spec fn sum(self, y: Gf8) -> Gf8 {
        Gf8(self.0 ^ y.0)
    }

    open spec fn difference(self, y: Gf8) -> Gf8 {
        Gf8(self.0 ^ y.0)
    }

    open spec fn product(self, y: Gf8) -> Gf8 {
        Gf8(table_product(self.0, y.0))
    }

    open spec fn quotient(self, y: Gf8) -> Gf8 {
        Gf8(table_quotient(self.0, y.0))
    }

    fn zero() -> Gf8 {
        Gf8(0u8)
    }

    fn one() -> Gf8 {
        Gf8(1u8)
    }

    fn add(self, y: Gf8) -> Gf8 {
        Gf8(self.0 ^ y.0)
    }

    fn sub(self, y: Gf8) -> Gf8 {
        Gf8(self.0 ^ y.0)
    }

    fn mul(self, y: Gf8) -> Gf8 {
        Gf8(multiply(self.0, y.0))
    }

    fn div(self, y: Gf8) -> Gf8 {
        Gf8(divide(self.0, y.0))
    }

    fn is_zero(self) -> bool {
        self.0 == 0
    }

    fn is_one(self) -> bool {
        self.0 == 1
    }

    proof fn sum_commutes(x: Gf8, y: Gf8) {
        let (a, b) = (x.0, y.0);
        assert(a ^ b == b ^ a) by (bit_vector);
    }

    proof fn sum_associates(x: Gf8, y: Gf8, z: Gf8) {
        let (a, b, c) = (x.0, y.0, z.0);
        assert((a ^ b) ^ c == a ^ (b ^ c)) by (bit_vector);
    }

    proof fn sum_with_zero(x: Gf8) {
        let a = x.0;
        assert(a ^ 0 == a) by (bit_vector);
    }

    proof fn difference_undoes_sum(x: Gf8, y: Gf8) {
        let (a, b) = (x.0, y.0);
        assert((a ^ b) ^ b == a) by (bit_vector);
    }

    proof fn sum_undoes_difference(x: Gf8, y: Gf8) {
        let (a, b) = (x.0, y.0);
        assert((a ^ b) ^ b == a) by (bit_vector);
    }

    proof fn product_commutes(x: Gf8, y: Gf8) {
    }

    proof fn product_associates(x: Gf8, y: Gf8, z: Gf8) {
        if x.0 != 0 && y.0 != 0 && z.0 != 0 {
            let (i, j, k) = (log(x.0), log(y.0), log(z.0));
            lemma_log(x.0);
            lemma_log(y.0);
            lemma_log(z.0);
            lemma_exponent_sum(i + j, k);
            lemma_exponent_sum(j + k, i);
            lemma_exp((i + j) % 255);
            lemma_exp((j + k) % 255);
        }
    }

    proof fn product_with_one(x: Gf8) {
        if x.0 != 0 {
            lemma_exp_of_zero();
            lemma_exp(0);
            lemma_log(x.0);
            lemma_exponent_sum(log(x.0), 0);
        }
    }

    proof fn quotient_undoes_product(x: Gf8, y: Gf8) {
        if x.0 != 0 {
            let (i, j) = (log(x.0), log(y.0));
            lemma_log(x.0);
            lemma_log(y.0);
            lemma_exponent_sum(i + j, 255 - j);
            lemma_exp((i + j) % 255);
        }
    }

    proof fn product_undoes_quotient(x: Gf8, y: Gf8) {
        if x.0 != 0 {
            let (i, j) = (log(x.0), log(y.0));
            lemma_log(x.0);
            lemma_log(y.0);
            lemma_exponent_sum(i + 255 - j, j);
            lemma_exp((i + 255 - j) % 255);
        }
    }

    proof fn product_distributes(x: Gf8, y: Gf8, z: Gf8) {
        lemma_product_is_polynomial(x.0, y.0);
        lemma_product_is_polynomial(x.0, z.0);
        lemma_product_is_polynomial(x.0, y.0 ^ z.0);
        lemma_polynomial_product_distributes(x.0, y.0, z.0);
    }

    proof fn zero_is_not_one() {
    }
}

impl std::ops::Add for Gf8 {
    type Output = Gf8;

    fn add(self, y: Gf8) -> Gf8 {
        Gf8(self.0 ^ y.0)
    }
}

impl vstd::std_specs::ops::AddSpecImpl for Gf8 {
    open spec fn obeys_add_spec() -> bool {
        true
    }

    open spec fn add_req(self, y: Gf8) -> bool {
        true
    }

    open spec fn add_spec(self, y: Gf8) -> Gf8 {
        self.sum(y)
    }
}

impl std::ops::Sub for Gf8 {
    type Output = Gf8;

    fn sub(self, y: Gf8) -> Gf8 {
        Gf8(self.0 ^ y.0)
    }
}

impl vstd::std_specs::ops::SubSpecImpl for Gf8 {
    open spec fn obeys_sub_spec() -> bool {
        true
    }

    open spec fn sub_req(self, y: Gf8) -> bool {
        true
    }

    open spec fn sub_spec(self, y: Gf8) -> Gf8 {
        self.difference(y)
    }
}

impl std::ops::Mul for Gf8 {
    type Output = Gf8;

    fn mul(self, y: Gf8) -> Gf8 {
        Gf8(multiply(self.0, y.0))
    }
}

impl vstd::std_specs::ops::MulSpecImpl for Gf8 {
    open spec fn obeys_mul_spec() -> bool {
        true
    }

    open spec fn mul_req(self, y: Gf8) -> bool {
        true
    }

    open spec fn mul_spec(self, y: Gf8) -> Gf8 {
        self.product(y)
    }
}

/// Division by zero is left out: `x / y` asks for a `y` other than zero.
impl std::ops::Div for Gf8 {
    type Output = Gf8;

    fn div(self, y: Gf8) -> Gf8 {
        Gf8(divide(self.0, y.0))
    }
}

impl vstd::std_specs::ops::DivSpecImpl for Gf8 {
    open spec fn obeys_div_spec() -> bool {
        true
    }

    open spec fn div_req(self, y: Gf8) -> bool {
        y != Gf8::zero_value()
    }

    open spec fn div_spec(self, y: Gf8) -> Gf8 {
        self.quotient(y)
    }
}

impl std::ops::AddAssign for Gf8 {
    fn add_assign(&mut self, y: Gf8)
        ensures
            *final(self) == old(self).sum(y),
    {
        *self = *self + y;
    }
}

impl std::ops::SubAssign for Gf8 {
    fn sub_assign(&mut self, y: Gf8)
        ensures
            *final(self) == old(self).difference(y),
    {
        *self = *self - y;
    }
}

impl std::ops::MulAssign for Gf8 {
    fn mul_assign(&mut self, y: Gf8)
        ensures
            *final(self) == old(self).product(y),
    {
        *self = *self * y;
    }
}

/// In this field subtraction is addition: every element is its own negative.
pub proof fn lemma_sum_is_difference(x: Gf8, y: Gf8)
    ensures
        x.sum(y) == x.difference(y),
{
}

/// Exponents are added modulo 255, and reducing a part of a sum first changes nothing.
proof fn lemma_exponent_sum(a: int, b: int)
    requires
        0 <= a,
        0 <= b,
    ensures
        is_exponent((a + b) % 255),
        (a % 255 + b) % 255 == (a + b) % 255,
        (b + a % 255) % 255 == (a + b) % 255,
        is_exponent(a) && b == 0 ==> (a + b) % 255 == a,
        is_exponent(a) && b == 255 ==> (a + b) % 255 == a,
{
}

/// The powers of the generator multiply as polynomials by adding their exponents.
proof fn lemma_polynomial_product_of_powers(i: int, j: int)
    requires
        is_exponent(i),
        is_exponent(j),
    ensures
        polynomial_product(exp(i), exp(j)) == exp((i + j) % 255),
    decreases i,
{
    if i == 0 {
        lemma_exp_of_zero();
        lemma_polynomial_product_small(exp(j));
    } else {
        let below = (i - 1 + j) % 255;
        lemma_exponent_sum(i - 1 + j, 1);
        lemma_polynomial_product_of_powers(i - 1, j);
        lemma_exp_of_successor(i - 1);
        assert(exp(i) == triple(exp(i - 1)));
        lemma_polynomial_product_of_triple(exp(i - 1), exp(j));
        lemma_exp_of_successor(below);
        assert(exp((i + j) % 255) == triple(exp(below)));
    }
}

/// The table-driven product is the product of polynomials over GF(2) modulo 0x11b.
pub proof fn lemma_product_is_polynomial(x: u8, y: u8)
    ensures
        table_product(x, y) == polynomial_product(x, y),
{
    if x == 0 {
        lemma_polynomial_product_small(y);
    } else if y == 0 {
        lemma_polynomial_product_small(x);
    } else {
        lemma_log(x);
        lemma_log(y);
        lemma_polynomial_product_of_powers(log(x), log(y));
    }
}

} // verus!
