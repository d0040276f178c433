//! Vectors and matrices over a field as mathematical values: a vector is a
//! sequence, a matrix a sequence of rows. The lemmas here are what the row and
//! column operations of elimination rest on.
use crate::field::{
    lemma_difference_interchange, lemma_product_distributes_right, lemma_product_over_difference,
    lemma_product_with_zero, lemma_quotient_of_product, lemma_quotient_of_sum, lemma_sum_interchange,
    lemma_zero_plus, lemma_zero_quotient, Field,
};
use vstd::prelude::*;

verus! {

/// The vector of `n` zeros.
pub open spec fn zeros<F: Field>(n: nat) -> Seq<F> {
    Seq::new(n, |i: int| F::zero_value())
}

/// The vector of length `n` with a one at `k` and zeros elsewhere.
pub open spec fn unit<F: Field>(n: nat, k: int) -> Seq<F> {
    Seq::new(
        n,
        |i: int|
            if i == k {
                F::one_value()
            } else {
                F::zero_value()
            },
    )
}

/// The identity matrix of size `n`.
pub open spec fn identity<F: Field>(n: nat) -> Seq<Seq<F>> {
    Seq::new(n, |r: int| unit(n, r))
}

/// `m` has `rows` rows of `columns` entries each.
pub open spec fn is_grid<F>(m: Seq<Seq<F>>, rows: nat, columns: nat) -> bool {
    &&& m.len() == rows
    &&& forall|r: int| 0 <= r < rows ==> (#[trigger] m[r]).len() == columns
}

/// The column `c` of `m`, top to bottom.
pub open spec fn column<F>(m: Seq<Seq<F>>, c: int) -> Seq<F> {
    Seq::new(m.len(), |r: int| m[r][c])
}

/// The matrix whose rows are the first `columns` columns of `m`.
pub open spec fn transpose<F>(m: Seq<Seq<F>>, columns: nat) -> Seq<Seq<F>> {
    Seq::new(columns, |c: int| column(m, c))
}

/// The sum of the products of the entries of `a` and `b`, position by position.
pub open spec fn dot<F: Field>(a: Seq<F>, b: Seq<F>) -> F
    recommends
        a.len() == b.len(),
    decreases a.len(),
{
    if a.len() == 0 {
        F::zero_value()
    } else {
        dot(a.drop_last(), b.drop_last()).sum(a.last().product(b.last()))
    }
}

/// The matrix `m` applied to the column vector `x`.
pub open spec fn times_vector<F: Field>(m: Seq<Seq<F>>, x: Seq<F>) -> Seq<F> {
    Seq::new(m.len(), |r: int| dot(m[r], x))
}

/// The row vector `y` applied to the matrix `m` of `columns` columns.
pub open spec fn vector_times<F: Field>(y: Seq<F>, m: Seq<Seq<F>>, columns: nat) -> Seq<F> {
    Seq::new(columns, |c: int| dot(y, column(m, c)))
}

/// The product of `a` and `b`, where `b` has `columns` columns.
pub open spec fn product<F: Field>(a: Seq<Seq<F>>, b: Seq<Seq<F>>, columns: nat) -> Seq<Seq<F>> {
    Seq::new(a.len(), |r: int| vector_times(a[r], b, columns))
}

/// `a` with every entry divided by `u`.
pub open spec fn scaled<F: Field>(a: Seq<F>, u: F) -> Seq<F> {
    Seq::new(a.len(), |i: int| a[i].quotient(u))
}

/// `a` less `u` times `b`, entry by entry.
pub open spec fn eliminated<F: Field>(a: Seq<F>, u: F, b: Seq<F>) -> Seq<F> {
    Seq::new(a.len(), |i: int| a[i].difference(u.product(b[i])))
}

/// `a` plus `u` times `b`, entry by entry.
pub open spec fn accumulated<F: Field>(a: Seq<F>, u: F, b: Seq<F>) -> Seq<F> {
    Seq::new(a.len(), |i: int| a[i].sum(u.product(b[i])))
}

/// `a` less `b`, entry by entry.
pub open spec fn subtracted<F: Field>(a: Seq<F>, b: Seq<F>) -> Seq<F> {
    Seq::new(a.len(), |i: int| a[i].difference(b[i]))
}

/// `m` with the columns `i` and `j` exchanged.
pub open spec fn columns_swapped<F>(m: Seq<Seq<F>>, i: int, j: int) -> Seq<Seq<F>> {
    Seq::new(m.len(), |r: int| m[r].update(i, m[r][j]).update(j, m[r][i]))
}

/// `m` with the column `i` divided by `u`.
pub open spec fn column_scaled<F: Field>(m: Seq<Seq<F>>, i: int, u: F) -> Seq<Seq<F>> {
    Seq::new(m.len(), |r: int| m[r].update(i, m[r][i].quotient(u)))
}

/// `m` with `u` times the column `i` subtracted from the column `j`.
pub open spec fn column_eliminated<F: Field>(m: Seq<Seq<F>>, j: int, u: F, i: int) -> Seq<Seq<F>> {
    Seq::new(m.len(), |r: int| m[r].update(j, m[r][j].difference(u.product(m[r][i]))))
}

/// A square matrix is singular where it sends some vector other than zero to zero.
pub open spec fn is_singular<F: Field>(m: Seq<Seq<F>>) -> bool {
    exists|x: Seq<F>| is_kernel_vector(m, x)
}

/// `x` is a vector other than zero that `m` sends to zero.
pub open spec fn is_kernel_vector<F: Field>(m: Seq<Seq<F>>, x: Seq<F>) -> bool {
    &&& x.len() == m.len()
    &&& x != zeros::<F>(m.len())
    &&& times_vector(m, x) == zeros::<F>(m.len())
}

/// Every vector that `m` sends to zero, `base` sends to zero as well.
pub open spec fn kernel_within<F: Field>(m: Seq<Seq<F>>, base: Seq<Seq<F>>, n: nat) -> bool {
    forall|x: Seq<F>|
        x.len() == n && #[trigger] times_vector(m, x) == zeros::<F>(m.len()) ==> times_vector(base, x)
            == zeros::<F>(base.len())
}

/// The dot product does not depend on the order of its arguments.
pub proof fn lemma_dot_commutes<F: Field>(a: Seq<F>, b: Seq<F>)
    requires
        a.len() == b.len(),
    ensures
        dot(a, b) == dot(b, a),
    decreases a.len(),
{
    if a.len() > 0 {
        lemma_dot_commutes(a.drop_last(), b.drop_last());
        F::product_commutes(a.last(), b.last());
    }
}

/// The dot product with the zero vector is zero.
pub proof fn lemma_dot_of_zeros<F: Field>(n: nat, x: Seq<F>)
    requires
        x.len() == n,
    ensures
        dot(zeros::<F>(n), x) == F::zero_value(),
    decreases n,
{
    if n > 0 {
        assert(zeros::<F>(n).drop_last() =~= zeros::<F>((n - 1) as nat));
        lemma_dot_of_zeros::<F>((n - 1) as nat, x.drop_last());
        lemma_product_with_zero(x.last());
        F::sum_with_zero(F::zero_value());
    }
}

/// The dot product with a unit vector picks one entry.
pub proof fn lemma_dot_of_unit<F: Field>(n: nat, k: int, x: Seq<F>)
    requires
        x.len() == n,
        0 <= k < n,
    ensures
        dot(unit::<F>(n, k), x) == x[k],
    decreases n,
{
    let shorter = (n - 1) as nat;
    if k == n - 1 {
        assert(unit::<F>(n, k).drop_last() =~= zeros::<F>(shorter));
        lemma_dot_of_zeros::<F>(shorter, x.drop_last());
        crate::field::lemma_one_times(x.last());
        lemma_zero_plus(x.last());
    } else {
        assert(unit::<F>(n, k).drop_last() =~= unit::<F>(shorter, k));
        lemma_dot_of_unit::<F>(shorter, k, x.drop_last());
        lemma_product_with_zero(x.last());
        F::sum_with_zero(x[k]);
    }
}

/// Dividing a vector by `u` divides its dot products by `u`.
pub proof fn lemma_dot_of_scaled<F: Field>(a: Seq<F>, u: F, x: Seq<F>)
    requires
        a.len() == x.len(),
        u != F::zero_value(),
    ensures
        dot(scaled(a, u), x) == dot(a, x).quotient(u),
    decreases a.len(),
{
    if a.len() == 0 {
        lemma_zero_quotient(u);
    } else {
        assert(scaled(a, u).drop_last() =~= scaled(a.drop_last(), u));
        lemma_dot_of_scaled(a.drop_last(), u, x.drop_last());
        lemma_quotient_of_product(a.last(), x.last(), u);
        lemma_quotient_of_sum(dot(a.drop_last(), x.drop_last()), a.last().product(x.last()), u);
    }
}

/// The dot product is linear in its first argument: for `a - u * b`.
pub proof fn lemma_dot_of_eliminated<F: Field>(a: Seq<F>, u: F, b: Seq<F>, x: Seq<F>)
    requires
        a.len() == x.len(),
        b.len() == x.len(),
    ensures
        dot(eliminated(a, u, b), x) == dot(a, x).difference(u.product(dot(b, x))),
    decreases a.len(),
{
    if a.len() == 0 {
        lemma_product_with_zero(u);
        F::difference_undoes_sum(F::zero_value(), F::zero_value());
        F::sum_with_zero(F::zero_value());
    } else {
        let (a0, b0, x0) = (a.drop_last(), b.drop_last(), x.drop_last());
        let (p, q) = (dot(a0, x0), dot(b0, x0));
        let (al, bl, xl) = (a.last(), b.last(), x.last());
        assert(eliminated(a, u, b).drop_last() =~= eliminated(a0, u, b0));
        lemma_dot_of_eliminated(a0, u, b0, x0);
        // (al - u * bl) * xl == al * xl - u * (bl * xl)
        F::product_commutes(al.difference(u.product(bl)), xl);
        lemma_product_over_difference(xl, al, u.product(bl));
        F::product_commutes(xl, al);
        F::product_commutes(xl, u.product(bl));
        F::product_associates(u, bl, xl);
        lemma_difference_interchange(p, u.product(q), al.product(xl), u.product(bl.product(xl)));
        F::product_distributes(u, q, bl.product(xl));
    }
}

/// The dot product is linear in its first argument: for `a + u * b`.
pub proof fn lemma_dot_of_accumulated<F: Field>(a: Seq<F>, u: F, b: Seq<F>, x: Seq<F>)
    requires
        a.len() == x.len(),
        b.len() == x.len(),
    ensures
        dot(accumulated(a, u, b), x) == dot(a, x).sum(u.product(dot(b, x))),
    decreases a.len(),
{
    if a.len() == 0 {
        lemma_product_with_zero(u);
        F::sum_with_zero(F::zero_value());
    } else {
        let (a0, b0, x0) = (a.drop_last(), b.drop_last(), x.drop_last());
        let (p, q) = (dot(a0, x0), dot(b0, x0));
        let (al, bl, xl) = (a.last(), b.last(), x.last());
        assert(accumulated(a, u, b).drop_last() =~= accumulated(a0, u, b0));
        lemma_dot_of_accumulated(a0, u, b0, x0);
        lemma_product_distributes_right(al, u.product(bl), xl);
        F::product_associates(u, bl, xl);
        lemma_sum_interchange(p, u.product(q), al.product(xl), u.product(bl.product(xl)));
        F::product_distributes(u, q, bl.product(xl));
    }
}

/// The dot product is linear in its second argument: for `x - y`.
pub proof fn lemma_dot_of_subtracted<F: Field>(a: Seq<F>, x: Seq<F>, y: Seq<F>)
    requires
        a.len() == x.len(),
        a.len() == y.len(),
    ensures
        dot(a, subtracted(x, y)) == dot(a, x).difference(dot(a, y)),
    decreases a.len(),
{
    if a.len() == 0 {
        F::difference_undoes_sum(F::zero_value(), F::zero_value());
        F::sum_with_zero(F::zero_value());
    } else {
        let (a0, x0, y0) = (a.drop_last(), x.drop_last(), y.drop_last());
        assert(subtracted(x, y).drop_last() =~= subtracted(x0, y0));
        lemma_dot_of_subtracted(a0, x0, y0);
        lemma_product_over_difference(a.last(), x.last(), y.last());
        lemma_difference_interchange(
            dot(a0, x0),
            dot(a0, y0),
            a.last().product(x.last()),
            a.last().product(y.last()),
        );
    }
}

/// A row vector, a matrix and a column vector multiply in either order.
pub proof fn lemma_dot_associates<F: Field>(y: Seq<F>, m: Seq<Seq<F>>, x: Seq<F>)
    requires
        is_grid(m, y.len(), x.len()),
    ensures
        dot(y, times_vector(m, x)) == dot(vector_times(y, m, x.len()), x),
    decreases y.len(),
{
    let columns = x.len();
    if y.len() == 0 {
        assert(vector_times(y, m, columns) =~= zeros::<F>(columns));
        lemma_dot_of_zeros::<F>(columns, x);
    } else {
        let (y0, m0) = (y.drop_last(), m.drop_last());
        let below = vector_times(y0, m0, columns);
        assert(times_vector(m, x).drop_last() =~= times_vector(m0, x));
        lemma_dot_associates(y0, m0, x);
        assert(vector_times(y, m, columns) =~= accumulated(below, y.last(), m.last())) by {
            assert forall|c: int| 0 <= c < columns implies vector_times(y, m, columns)[c]
                == below[c].sum(y.last().product(m.last()[c])) by {
                assert(column(m, c).drop_last() =~= column(m0, c));
            }
        }
        lemma_dot_of_accumulated(below, y.last(), m.last(), x);
    }
}

/// A matrix applied to a unit vector gives one of its columns.
pub proof fn lemma_times_unit<F: Field>(m: Seq<Seq<F>>, n: nat, k: int)
    requires
        is_grid(m, m.len(), n),
        0 <= k < n,
    ensures
        times_vector(m, unit::<F>(n, k)) == column(m, k),
{
    assert forall|r: int| 0 <= r < m.len() implies dot(m[r], unit::<F>(n, k)) == m[r][k] by {
        lemma_dot_commutes(m[r], unit::<F>(n, k));
        lemma_dot_of_unit::<F>(n, k, m[r]);
    }
    assert(times_vector(m, unit::<F>(n, k)) =~= column(m, k));
}

/// The identity matrix applied to a vector gives the vector back.
pub proof fn lemma_identity_times<F: Field>(n: nat, x: Seq<F>)
    requires
        x.len() == n,
    ensures
        times_vector(identity::<F>(n), x) == x,
{
    assert forall|r: int| 0 <= r < n implies dot(identity::<F>(n)[r], x) == x[r] by {
        lemma_dot_of_unit::<F>(n, r, x);
    }
    assert(times_vector(identity::<F>(n), x) =~= x);
}

/// Exchanging two columns exchanges two rows of the transpose.
pub proof fn lemma_transpose_of_columns_swapped<F: Field>(
    m: Seq<Seq<F>>,
    rows: nat,
    columns: nat,
    i: int,
    j: int,
)
    requires
        is_grid(m, rows, columns),
        0 <= i < columns,
        0 <= j < columns,
    ensures
        is_grid(columns_swapped(m, i, j), rows, columns),
        transpose(columns_swapped(m, i, j), columns) == transpose(m, columns).update(
            i,
            transpose(m, columns)[j],
        ).update(j, transpose(m, columns)[i]),
{
    let before = transpose(m, columns);
    let after = transpose(columns_swapped(m, i, j), columns);
    let expected = before.update(i, before[j]).update(j, before[i]);
    assert forall|c: int| 0 <= c < columns implies #[trigger] after[c] =~= expected[c] by {}
    assert(after =~= expected);
}

/// Dividing a column divides a row of the transpose.
pub proof fn lemma_transpose_of_column_scaled<F: Field>(
    m: Seq<Seq<F>>,
    rows: nat,
    columns: nat,
    i: int,
    u: F,
)
    requires
        is_grid(m, rows, columns),
        0 <= i < columns,
    ensures
        is_grid(column_scaled(m, i, u), rows, columns),
        transpose(column_scaled(m, i, u), columns) == transpose(m, columns).update(
            i,
            scaled(transpose(m, columns)[i], u),
        ),
{
    let before = transpose(m, columns);
    let after = transpose(column_scaled(m, i, u), columns);
    let expected = before.update(i, scaled(before[i], u));
    assert forall|c: int| 0 <= c < columns implies #[trigger] after[c] =~= expected[c] by {}
    assert(after =~= expected);
}

/// Subtracting a multiple of a column from another does the same to the rows of the
/// transpose.
pub proof fn lemma_transpose_of_column_eliminated<F: Field>(
    m: Seq<Seq<F>>,
    rows: nat,
    columns: nat,
    j: int,
    u: F,
    i: int,
)
    requires
        is_grid(m, rows, columns),
        0 <= i < columns,
        0 <= j < columns,
        i != j,
    ensures
        is_grid(column_eliminated(m, j, u, i), rows, columns),
        transpose(column_eliminated(m, j, u, i), columns) == transpose(m, columns).update(
            j,
            eliminated(transpose(m, columns)[j], u, transpose(m, columns)[i]),
        ),
{
    let before = transpose(m, columns);
    let after = transpose(column_eliminated(m, j, u, i), columns);
    let expected = before.update(j, eliminated(before[j], u, before[i]));
    assert forall|c: int| 0 <= c < columns implies #[trigger] after[c] =~= expected[c] by {}
    assert(after =~= expected);
}

/// The transpose of a product is the product of the transposes, in the other order.
pub proof fn lemma_transpose_of_product<F: Field>(
    a: Seq<Seq<F>>,
    b: Seq<Seq<F>>,
    rows: nat,
    inner: nat,
    columns: nat,
)
    requires
        is_grid(a, rows, inner),
        is_grid(b, inner, columns),
    ensures
        product(transpose(b, columns), transpose(a, inner), rows) == transpose(
            product(a, b, columns),
            columns,
        ),
{
    let left = product(transpose(b, columns), transpose(a, inner), rows);
    let right = transpose(product(a, b, columns), columns);
    assert forall|c: int| 0 <= c < columns implies #[trigger] left[c] =~= right[c] by {
        assert forall|r: int| 0 <= r < rows implies left[c][r] == right[c][r] by {
            assert(column(transpose(a, inner), r) =~= a[r]);
            lemma_dot_commutes(column(b, c), a[r]);
        }
    }
    assert(left =~= right);
}

/// Transposing twice gives the matrix back.
pub proof fn lemma_transpose_twice<F: Field>(m: Seq<Seq<F>>, rows: nat, columns: nat)
    requires
        is_grid(m, rows, columns),
    ensures
        transpose(transpose(m, columns), rows) == m,
{
    let twice = transpose(transpose(m, columns), rows);
    assert forall|r: int| 0 <= r < rows implies #[trigger] twice[r] =~= m[r] by {}
    assert(twice =~= m);
}

/// The identity is its own transpose.
pub proof fn lemma_transpose_of_identity<F: Field>(n: nat)
    ensures
        transpose(identity::<F>(n), n) == identity::<F>(n),
{
    let t = transpose(identity::<F>(n), n);
    assert forall|r: int| 0 <= r < n implies #[trigger] t[r] =~= identity::<F>(n)[r] by {}
    assert(t =~= identity::<F>(n));
}

/// Products of matrices associate.
pub proof fn lemma_product_associates<F: Field>(
    a: Seq<Seq<F>>,
    b: Seq<Seq<F>>,
    c: Seq<Seq<F>>,
    inner: nat,
    middle: nat,
    columns: nat,
)
    requires
        is_grid(a, a.len(), inner),
        is_grid(b, inner, middle),
        is_grid(c, middle, columns),
    ensures
        product(product(a, b, middle), c, columns) == product(a, product(b, c, columns), columns),
{
    let left = product(product(a, b, middle), c, columns);
    let right = product(a, product(b, c, columns), columns);
    assert forall|r: int| 0 <= r < a.len() implies #[trigger] left[r] =~= right[r] by {
        assert forall|j: int| 0 <= j < columns implies left[r][j] == right[r][j] by {
            let x = column(c, j);
            lemma_dot_associates(a[r], b, x);
            assert(column(product(b, c, columns), j) =~= times_vector(b, x));
        }
    }
    assert(left =~= right);
}

} // verus!
