//! Vandermonde matrices: each row holds the powers of one node. With nodes that
//! differ from one another, such a matrix has independent rows.
use crate::field::{
    lemma_no_zero_divisors, lemma_one_times, lemma_product_over_difference,
    lemma_product_with_zero, lemma_minus_itself, lemma_minus_zero, lemma_zero_plus, Field,
};
use crate::elimination::{
    is_inverse, lemma_left_inverse_excludes_kernel, lemma_nonsingular_has_inverse,
};
use crate::linalg::{
    column, dot, eliminated, is_kernel_vector, is_singular, lemma_dot_commutes,
    lemma_dot_of_eliminated, lemma_dot_of_zeros, lemma_transpose_of_identity,
    lemma_transpose_of_product, lemma_transpose_twice, product, times_vector, transpose, zeros,
};
use vstd::prelude::*;

verus! {

/// `x` multiplied by itself `e` times; one where `e` is zero.
pub open spec fn power<F: Field>(x: F, e: nat) -> F
    decreases e,
{
    if e == 0 {
        F::one_value()
    } else {
        power(x, (e - 1) as nat).product(x)
    }
}

/// The powers of `node` from the exponent zero up to `columns - 1`.
pub open spec fn power_row<F: Field>(node: F, columns: nat) -> Seq<F> {
    Seq::new(columns, |c: int| power(node, c as nat))
}

/// The Vandermonde matrix of `nodes`, with `columns` columns.
pub open spec fn vandermonde<F: Field>(nodes: Seq<F>, columns: nat) -> Seq<Seq<F>> {
    Seq::new(nodes.len(), |r: int| power_row(nodes[r], columns))
}

/// The power `e` of each node: a column of the Vandermonde matrix.
pub open spec fn power_column<F: Field>(nodes: Seq<F>, e: nat) -> Seq<F> {
    Seq::new(nodes.len(), |r: int| power(nodes[r], e))
}

/// No two of the nodes are equal.
pub open spec fn distinct<F>(nodes: Seq<F>) -> bool {
    forall|i: int, j: int| 0 <= i < j < nodes.len() ==> nodes[i] != nodes[j]
}

/// `a[r] * d[r]` for each `r`.
pub open spec fn weighted<F: Field>(a: Seq<F>, d: Seq<F>) -> Seq<F> {
    Seq::new(a.len(), |r: int| a[r].product(d[r]))
}

/// Weights can be moved from one side of a dot product to the other.
pub proof fn lemma_dot_of_weighted<F: Field>(a: Seq<F>, d: Seq<F>, y: Seq<F>)
    requires
        a.len() == d.len(),
        a.len() == y.len(),
    ensures
        dot(weighted(a, d), y) == dot(a, weighted(d, y)),
    decreases a.len(),
{
    if a.len() > 0 {
        assert(weighted(a, d).drop_last() =~= weighted(a.drop_last(), d.drop_last()));
        assert(weighted(d, y).drop_last() =~= weighted(d.drop_last(), y.drop_last()));
        lemma_dot_of_weighted(a.drop_last(), d.drop_last(), y.drop_last());
        F::product_associates(a.last(), d.last(), y.last());
    }
}

/// The rows of a square Vandermonde matrix with distinct nodes are independent: a
/// combination of them that is zero in every column has zero coefficients.
pub proof fn lemma_vandermonde_rows_independent<F: Field>(nodes: Seq<F>, y: Seq<F>)
    requires
        distinct(nodes),
        y.len() == nodes.len(),
        forall|c: int|
            0 <= c < nodes.len() ==> dot(#[trigger] power_column(nodes, c as nat), y)
                == F::zero_value(),
    ensures
        y == zeros::<F>(nodes.len()),
    decreases nodes.len(),
{
    let k = nodes.len();
    if k == 0 {
        assert(y =~= zeros::<F>(k));
    } else {
        let shorter = (k - 1) as nat;
        let zero = F::zero_value();
        let last = nodes.last();
        let nodes0 = nodes.drop_last();
        let y0 = y.drop_last();
        let gaps = Seq::new(k, |r: int| nodes[r].difference(last));
        let gaps0 = gaps.drop_last();
        let z = weighted(gaps0, y0);
        assert forall|c: int| 0 <= c < shorter implies dot(
            #[trigger] power_column(nodes0, c as nat),
            z,
        ) == zero by {
            let low = power_column(nodes, c as nat);
            let high = power_column(nodes, (c + 1) as nat);
            let e = eliminated(high, last, low);
            lemma_dot_of_eliminated(high, last, low, y);
            assert(dot(low, y) == zero);
            assert(dot(high, y) == zero);
            lemma_product_with_zero(last);
            lemma_minus_zero(zero);
            assert(dot(e, y) == zero);
            assert forall|r: int| 0 <= r < k implies #[trigger] e[r] == low[r].product(gaps[r]) by {
                let p = power(nodes[r], c as nat);
                lemma_product_over_difference(p, nodes[r], last);
                F::product_commutes(last, p);
            }
            lemma_minus_itself(last);
            lemma_product_with_zero(low[k - 1]);
            lemma_product_with_zero(y.last());
            F::sum_with_zero(dot(e.drop_last(), y0));
            assert(e.drop_last() =~= weighted(power_column(nodes0, c as nat), gaps0));
            lemma_dot_of_weighted(power_column(nodes0, c as nat), gaps0, y0);
        }
        lemma_vandermonde_rows_independent(nodes0, z);
        assert forall|r: int| 0 <= r < shorter implies y0[r] == zero by {
            assert(z[r] == zeros::<F>(shorter)[r]);
            lemma_no_zero_divisors(gaps[r], y[r]);
            if gaps[r] == zero {
                F::sum_undoes_difference(nodes[r], last);
                lemma_zero_plus(last);
            }
        }
        assert(y0 =~= zeros::<F>(shorter));
        let ones = power_column(nodes, 0int as nat);
        assert(dot(ones, y) == zero);
        lemma_dot_commutes(ones.drop_last(), y0);
        lemma_dot_of_zeros::<F>(shorter, ones.drop_last());
        lemma_one_times(y.last());
        lemma_zero_plus(y.last());
        assert(ones.last() == F::one_value());
        assert(dot(ones.drop_last(), y0) == zero);
        assert(y.last() == zero);
        assert forall|r: int| 0 <= r < k implies y[r] == zero by {
            if r < shorter {
                assert(y0[r] == zeros::<F>(shorter)[r]);
            }
        }
        assert(y =~= zeros::<F>(k));
    }
}

/// A square Vandermonde matrix with distinct nodes has an inverse.
pub proof fn lemma_vandermonde_has_inverse<F: Field>(nodes: Seq<F>)
    requires
        distinct(nodes),
    ensures
        !is_singular(vandermonde(nodes, nodes.len())),
        exists|inverse: Seq<Seq<F>>| is_inverse(inverse, vandermonde(nodes, nodes.len()), nodes.len()),
{
    let k = nodes.len();
    let v = vandermonde(nodes, k);
    let vt = transpose(v, k);
    // the rows of `v` are independent, so its transpose is not singular
    assert forall|y: Seq<F>| !is_kernel_vector(vt, y) by {
        if y.len() == k && times_vector(vt, y) == zeros::<F>(k) {
            assert forall|c: int| 0 <= c < k implies dot(
                #[trigger] power_column(nodes, c as nat),
                y,
            ) == F::zero_value() by {
                assert(vt[c] =~= power_column(nodes, c as nat));
                assert(times_vector(vt, y)[c] == zeros::<F>(k)[c]);
            }
            lemma_vandermonde_rows_independent(nodes, y);
        }
    }
    lemma_nonsingular_has_inverse(vt, k);
    let across = choose|across: Seq<Seq<F>>| is_inverse(across, vt, k);
    // the transpose of that inverse is a left inverse of `v`
    lemma_transpose_of_product(vt, across, k, k, k);
    lemma_transpose_twice(v, k, k);
    lemma_transpose_of_identity::<F>(k);
    lemma_left_inverse_excludes_kernel(v, transpose(across, k), k);
    lemma_nonsingular_has_inverse(v, k);
}

} // verus!
