//! Multiplication of bytes as polynomials over GF(2), reduced by 0x11b: the
//! arithmetic that defines GF(256), stated on the bits.
use vstd::prelude::*;

verus! {

/// Doubling in the field: a shift, and a reduction by 0x11b where the byte overflows.
pub open spec fn double(a: u8) -> u8 {
    if a & 0x80 != 0 {
        (a << 1) ^ 0x1b
    } else {
        a << 1
    }
}

/// Tripling in the field: multiplication by the generator.
pub open spec fn triple(a: u8) -> u8 {
    double(a) ^ a
}

/// `v` where `y` has the bit `bit`, zero where it has not.
pub open spec fn pick(y: u8, bit: u8, v: u8) -> u8 {
    if y & bit != 0 {
        v
    } else {
        0
    }
}

/// The sum of those of eight bytes that the bits of `y` select, lowest bit first.
pub open spec fn combination(
    y: u8,
    v0: u8,
    v1: u8,
    v2: u8,
    v3: u8,
    v4: u8,
    v5: u8,
    v6: u8,
    v7: u8,
) -> u8 {
    pick(y, 0x01, v0) ^ pick(y, 0x02, v1) ^ pick(y, 0x04, v2) ^ pick(y, 0x08, v3) ^ pick(y, 0x10, v4)
        ^ pick(y, 0x20, v5) ^ pick(y, 0x40, v6) ^ pick(y, 0x80, v7)
}

/// The product of two bytes as polynomials over GF(2), reduced by 0x11b: the sum of
/// the doublings of `x` that the bits of `y` select.
pub open spec fn polynomial_product(x: u8, y: u8) -> u8 {
    let x1 = double(x);
    let x2 = double(x1);
    let x3 = double(x2);
    let x4 = double(x3);
    let x5 = double(x4);
    let x6 = double(x5);
    let x7 = double(x6);
    combination(y, x, x1, x2, x3, x4, x5, x6, x7)
}

/// The product of polynomials distributes over their sum.
pub proof fn lemma_polynomial_product_distributes(x: u8, y: u8, z: u8)
    by (bit_vector)
    ensures
        polynomial_product(x, y ^ z) == polynomial_product(x, y) ^ polynomial_product(x, z),
{
}

/// Tripling a sum triples its terms.
proof fn lemma_triple_of_sum(a: u8, b: u8)
    by (bit_vector)
    ensures
        triple(a ^ b) == triple(a) ^ triple(b),
{
}

/// Tripling what a bit selects is selecting the triple.
proof fn lemma_triple_of_pick(y: u8, bit: u8, v: u8)
    by (bit_vector)
    ensures
        triple(pick(y, bit, v)) == pick(y, bit, triple(v)),
{
}

/// Tripling a combination triples the bytes it is made of.
proof fn lemma_triple_of_combination(
    y: u8,
    v0: u8,
    v1: u8,
    v2: u8,
    v3: u8,
    v4: u8,
    v5: u8,
    v6: u8,
    v7: u8,
)
    ensures
        triple(combination(y, v0, v1, v2, v3, v4, v5, v6, v7)) == combination(
            y,
            triple(v0),
            triple(v1),
            triple(v2),
            triple(v3),
            triple(v4),
            triple(v5),
            triple(v6),
            triple(v7),
        ),
{
    let p0 = pick(y, 0x01, v0);
    let p1 = pick(y, 0x02, v1);
    let p2 = pick(y, 0x04, v2);
    let p3 = pick(y, 0x08, v3);
    let p4 = pick(y, 0x10, v4);
    let p5 = pick(y, 0x20, v5);
    let p6 = pick(y, 0x40, v6);
    let p7 = pick(y, 0x80, v7);
    lemma_triple_of_pick(y, 0x01, v0);
    lemma_triple_of_pick(y, 0x02, v1);
    lemma_triple_of_pick(y, 0x04, v2);
    lemma_triple_of_pick(y, 0x08, v3);
    lemma_triple_of_pick(y, 0x10, v4);
    lemma_triple_of_pick(y, 0x20, v5);
    lemma_triple_of_pick(y, 0x40, v6);
    lemma_triple_of_pick(y, 0x80, v7);
    let s1 = p0 ^ p1;
    let s2 = s1 ^ p2;
    let s3 = s2 ^ p3;
    let s4 = s3 ^ p4;
    let s5 = s4 ^ p5;
    let s6 = s5 ^ p6;
    lemma_triple_of_sum(p0, p1);
    lemma_triple_of_sum(s1, p2);
    lemma_triple_of_sum(s2, p3);
    lemma_triple_of_sum(s3, p4);
    lemma_triple_of_sum(s4, p5);
    lemma_triple_of_sum(s5, p6);
    lemma_triple_of_sum(s6, p7);
}

/// Tripling and doubling can be done in either order.
proof fn lemma_triple_of_double(a: u8)
    by (bit_vector)
    ensures
        triple(double(a)) == double(triple(a)),
{
}

/// Tripling a factor triples the product.
pub proof fn lemma_polynomial_product_of_triple(x: u8, y: u8)
    ensures
        polynomial_product(triple(x), y) == triple(polynomial_product(x, y)),
{
    let x1 = double(x);
    let x2 = double(x1);
    let x3 = double(x2);
    let x4 = double(x3);
    let x5 = double(x4);
    let x6 = double(x5);
    let x7 = double(x6);
    lemma_triple_of_double(x);
    lemma_triple_of_double(x1);
    lemma_triple_of_double(x2);
    lemma_triple_of_double(x3);
    lemma_triple_of_double(x4);
    lemma_triple_of_double(x5);
    lemma_triple_of_double(x6);
    lemma_triple_of_combination(y, x, x1, x2, x3, x4, x5, x6, x7);
}

/// Products with one and with zero.
pub proof fn lemma_polynomial_product_small(x: u8)
    by (bit_vector)
    ensures
        polynomial_product(1, x) == x,
        polynomial_product(x, 0) == 0,
        polynomial_product(0, x) == 0,
{
}

} // verus!
