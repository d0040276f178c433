//! What the row operations of Gauss-Jordan elimination keep true of a matrix and
//! of the matrix that accumulates the operations.
use crate::field::{
    lemma_minus_itself, lemma_minus_one_is_not_zero, lemma_minus_zero, lemma_product_with_zero,
    lemma_quotient_by_itself, lemma_times_minus_one, lemma_zero_plus, lemma_zero_quotient, Field,
};
use crate::linalg::{
    column, dot, eliminated, identity, is_grid, is_kernel_vector, is_singular, kernel_within,
    lemma_dot_associates, lemma_dot_commutes, lemma_dot_of_eliminated, lemma_dot_of_scaled,
    lemma_dot_of_subtracted, lemma_dot_of_unit, lemma_dot_of_zeros, lemma_identity_times,
    lemma_times_unit, product, scaled, subtracted, times_vector, unit, vector_times, zeros,
};
use vstd::prelude::*;

verus! {

/// Where `m` sends `x` to zero, each row of `m` has dot product zero with `x`.
pub proof fn lemma_kernel_row<F: Field>(m: Seq<Seq<F>>, x: Seq<F>, r: int)
    requires
        times_vector(m, x) == zeros::<F>(m.len()),
        0 <= r < m.len(),
    ensures
        dot(m[r], x) == F::zero_value(),
{
    assert(times_vector(m, x)[r] == dot(m[r], x));
    assert(zeros::<F>(m.len())[r] == F::zero_value());
}

/// Exchanging two rows keeps the kernel.
pub proof fn lemma_kernel_after_swap<F: Field>(m: Seq<Seq<F>>, i: int, j: int, n: nat)
    requires
        0 <= i < m.len(),
        0 <= j < m.len(),
    ensures
        kernel_within(m.update(i, m[j]).update(j, m[i]), m, n),
{
    let after = m.update(i, m[j]).update(j, m[i]);
    assert forall|x: Seq<F>|
        x.len() == n && #[trigger] times_vector(after, x) == zeros::<F>(after.len()) implies times_vector(
        m,
        x,
    ) == zeros::<F>(m.len()) by {
        assert forall|r: int| 0 <= r < m.len() implies dot(m[r], x) == F::zero_value() by {
            let moved = if r == i {
                j
            } else if r == j {
                i
            } else {
                r
            };
            lemma_kernel_row(after, x, moved);
        }
        assert(times_vector(m, x) =~= zeros::<F>(m.len()));
    }
}

/// Dividing a row by something other than zero keeps the kernel.
pub proof fn lemma_kernel_after_scale<F: Field>(m: Seq<Seq<F>>, i: int, u: F, n: nat)
    requires
        0 <= i < m.len(),
        m[i].len() == n,
        u != F::zero_value(),
    ensures
        kernel_within(m.update(i, scaled(m[i], u)), m, n),
{
    let after = m.update(i, scaled(m[i], u));
    assert forall|x: Seq<F>|
        x.len() == n && #[trigger] times_vector(after, x) == zeros::<F>(after.len()) implies times_vector(
        m,
        x,
    ) == zeros::<F>(m.len()) by {
        assert forall|r: int| 0 <= r < m.len() implies dot(m[r], x) == F::zero_value() by {
            lemma_kernel_row(after, x, r);
            if r == i {
                lemma_dot_of_scaled(m[i], u, x);
                F::product_undoes_quotient(dot(m[i], x), u);
                lemma_product_with_zero(u);
            }
        }
        assert(times_vector(m, x) =~= zeros::<F>(m.len()));
    }
}

/// Subtracting a multiple of another row from a row keeps the kernel.
pub proof fn lemma_kernel_after_eliminate<F: Field>(m: Seq<Seq<F>>, k: int, i: int, u: F, n: nat)
    requires
        0 <= i < m.len(),
        0 <= k < m.len(),
        k != i,
        m[i].len() == n,
        m[k].len() == n,
    ensures
        kernel_within(m.update(k, eliminated(m[k], u, m[i])), m, n),
{
    let after = m.update(k, eliminated(m[k], u, m[i]));
    assert forall|x: Seq<F>|
        x.len() == n && #[trigger] times_vector(after, x) == zeros::<F>(after.len()) implies times_vector(
        m,
        x,
    ) == zeros::<F>(m.len()) by {
        assert forall|r: int| 0 <= r < m.len() implies dot(m[r], x) == F::zero_value() by {
            lemma_kernel_row(after, x, r);
            if r == k {
                lemma_kernel_row(after, x, i);
                lemma_dot_of_eliminated(m[k], u, m[i], x);
                lemma_product_with_zero(u);
                lemma_minus_zero(dot(m[k], x));
            }
        }
        assert(times_vector(m, x) =~= zeros::<F>(m.len()));
    }
}

/// What elimination keeps true while it reduces `work`, which started as
/// `initial`, and applies each row operation to `inverse` as well, which started
/// as the identity: `work` is `inverse` times `initial`, and no operation has
/// added anything to a kernel. `work` and `initial` have `n` rows of `width`
/// entries.
pub open spec fn elimination_state<F: Field>(
    work: Seq<Seq<F>>,
    inverse: Seq<Seq<F>>,
    initial: Seq<Seq<F>>,
    n: nat,
    width: nat,
) -> bool {
    &&& is_grid(work, n, width)
    &&& is_grid(inverse, n, n)
    &&& is_grid(initial, n, width)
    &&& work == product(inverse, initial, width)
    &&& kernel_within(work, initial, width)
    &&& kernel_within(inverse, identity::<F>(n), n)
}

/// The identity times a matrix is the matrix.
pub proof fn lemma_identity_product<F: Field>(m: Seq<Seq<F>>, n: nat, columns: nat)
    requires
        is_grid(m, n, columns),
    ensures
        product(identity::<F>(n), m, columns) == m,
{
    let p = product(identity::<F>(n), m, columns);
    assert forall|r: int| 0 <= r < n implies #[trigger] p[r] =~= m[r] by {
        assert forall|c: int| 0 <= c < columns implies p[r][c] == m[r][c] by {
            lemma_dot_of_unit::<F>(n, r, column(m, c));
        }
    }
    assert(p =~= m);
}

/// An elimination starts in its state: the matrix itself, beside the identity.
pub proof fn lemma_elimination_starts<F: Field>(initial: Seq<Seq<F>>, n: nat, width: nat)
    requires
        is_grid(initial, n, width),
    ensures
        elimination_state(initial, identity::<F>(n), initial, n, width),
{
    lemma_identity_product(initial, n, width);
}

/// Exchanging two rows of both matrices keeps the state of the elimination.
pub proof fn lemma_state_after_swap<F: Field>(
    work: Seq<Seq<F>>,
    inverse: Seq<Seq<F>>,
    initial: Seq<Seq<F>>,
    n: nat,
    width: nat,
    i: int,
    j: int,
)
    requires
        elimination_state(work, inverse, initial, n, width),
        0 <= i < n,
        0 <= j < n,
    ensures
        elimination_state(
            work.update(i, work[j]).update(j, work[i]),
            inverse.update(i, inverse[j]).update(j, inverse[i]),
            initial,
            n,
            width,
        ),
{
    let work2 = work.update(i, work[j]).update(j, work[i]);
    let inverse2 = inverse.update(i, inverse[j]).update(j, inverse[i]);
    lemma_kernel_after_swap(work, i, j, width);
    lemma_kernel_after_swap(inverse, i, j, n);
    assert(work2 =~= product(inverse2, initial, width));
}

/// Dividing a row of both matrices by something other than zero keeps the state
/// of the elimination.
pub proof fn lemma_state_after_scale<F: Field>(
    work: Seq<Seq<F>>,
    inverse: Seq<Seq<F>>,
    initial: Seq<Seq<F>>,
    n: nat,
    width: nat,
    i: int,
    u: F,
)
    requires
        elimination_state(work, inverse, initial, n, width),
        0 <= i < n,
        u != F::zero_value(),
    ensures
        elimination_state(
            work.update(i, scaled(work[i], u)),
            inverse.update(i, scaled(inverse[i], u)),
            initial,
            n,
            width,
        ),
{
    let work2 = work.update(i, scaled(work[i], u));
    let inverse2 = inverse.update(i, scaled(inverse[i], u));
    lemma_kernel_after_scale(work, i, u, width);
    lemma_kernel_after_scale(inverse, i, u, n);
    assert forall|c: int| 0 <= c < width implies work2[i][c] == product(
        inverse2,
        initial,
        width,
    )[i][c] by {
        lemma_dot_of_scaled(inverse[i], u, column(initial, c));
        assert(work[i][c] == product(inverse, initial, width)[i][c]);
    }
    assert(work2[i] =~= product(inverse2, initial, width)[i]);
    assert(work2 =~= product(inverse2, initial, width));
}

/// Subtracting a multiple of one row from another in both matrices keeps the
/// state of the elimination.
pub proof fn lemma_state_after_eliminate<F: Field>(
    work: Seq<Seq<F>>,
    inverse: Seq<Seq<F>>,
    initial: Seq<Seq<F>>,
    n: nat,
    width: nat,
    k: int,
    i: int,
    u: F,
)
    requires
        elimination_state(work, inverse, initial, n, width),
        0 <= i < n,
        0 <= k < n,
        k != i,
    ensures
        elimination_state(
            work.update(k, eliminated(work[k], u, work[i])),
            inverse.update(k, eliminated(inverse[k], u, inverse[i])),
            initial,
            n,
            width,
        ),
{
    let work2 = work.update(k, eliminated(work[k], u, work[i]));
    let inverse2 = inverse.update(k, eliminated(inverse[k], u, inverse[i]));
    lemma_kernel_after_eliminate(work, k, i, u, width);
    lemma_kernel_after_eliminate(inverse, k, i, u, n);
    assert forall|c: int| 0 <= c < width implies work2[k][c] == product(
        inverse2,
        initial,
        width,
    )[k][c] by {
        lemma_dot_of_eliminated(inverse[k], u, inverse[i], column(initial, c));
        assert(work[k][c] == product(inverse, initial, width)[k][c]);
        assert(work[i][c] == product(inverse, initial, width)[i][c]);
    }
    assert(work2[k] =~= product(inverse2, initial, width)[k]);
    assert(work2 =~= product(inverse2, initial, width));
}

/// A dot product does not see what lies behind the last entry of `x` that is not
/// zero.
pub proof fn lemma_dot_of_prefix<F: Field>(a: Seq<F>, x: Seq<F>, used: int)
    requires
        a.len() == x.len(),
        0 <= used <= a.len(),
        forall|c: int| used <= c < x.len() ==> x[c] == F::zero_value(),
    ensures
        dot(a, x) == dot(a.take(used), x.take(used)),
    decreases a.len(),
{
    if used == a.len() {
        assert(a.take(used) =~= a);
        assert(x.take(used) =~= x);
    } else {
        lemma_dot_of_prefix(a.drop_last(), x.drop_last(), used);
        assert(a.drop_last().take(used) =~= a.take(used));
        assert(x.drop_last().take(used) =~= x.take(used));
        lemma_product_with_zero(a.last());
        F::sum_with_zero(dot(a.drop_last(), x.drop_last()));
    }
}

/// The columns before `done` are those of the identity.
pub open spec fn identity_before<F: Field>(m: Seq<Seq<F>>, n: nat, done: int) -> bool {
    forall|r: int, c: int|
        0 <= r < n && 0 <= c < done ==> #[trigger] m[r][c] == if r == c {
            F::one_value()
        } else {
            F::zero_value()
        }
}

/// The vector that shows a matrix to be singular where elimination finds no pivot
/// in the column `i`: the column itself above the diagonal, then zero less one.
pub open spec fn missing_pivot_witness<F: Field>(m: Seq<Seq<F>>, width: nat, i: int) -> Seq<F> {
    Seq::new(
        width,
        |c: int|
            if c < i {
                m[c][i]
            } else if c == i {
                F::zero_value().difference(F::one_value())
            } else {
                F::zero_value()
            },
    )
}

/// Where the columns before `i` are those of the identity and the column `i` is
/// zero from the diagonal down, the matrix sends a vector other than zero to zero.
pub proof fn lemma_missing_pivot<F: Field>(m: Seq<Seq<F>>, n: nat, width: nat, i: int)
    requires
        is_grid(m, n, width),
        0 <= i < n,
        i < width,
        identity_before(m, n, i),
        forall|r: int| i <= r < n ==> (#[trigger] m[r])[i] == F::zero_value(),
    ensures
        missing_pivot_witness(m, width, i).len() == width,
        missing_pivot_witness(m, width, i)[i] != F::zero_value(),
        times_vector(m, missing_pivot_witness(m, width, i)) == zeros::<F>(n),
{
    let x = missing_pivot_witness(m, width, i);
    let minus_one = F::zero_value().difference(F::one_value());
    lemma_minus_one_is_not_zero::<F>();
    assert(x[i] == minus_one);
    assert forall|r: int| 0 <= r < n implies dot(m[r], x) == F::zero_value() by {
        let a = m[r];
        lemma_dot_of_prefix(a, x, i + 1);
        assert(a.take(i + 1).drop_last() =~= a.take(i));
        assert(x.take(i + 1).drop_last() =~= x.take(i));
        if r < i {
            assert(a.take(i) =~= unit::<F>(i as nat, r));
            lemma_dot_of_unit::<F>(i as nat, r, x.take(i));
            lemma_times_minus_one(m[r][i]);
        } else {
            assert(a.take(i) =~= zeros::<F>(i as nat));
            lemma_dot_of_zeros::<F>(i as nat, x.take(i));
            lemma_product_with_zero(minus_one);
            F::sum_with_zero(F::zero_value());
        }
    }
    assert(times_vector(m, x) =~= zeros::<F>(n));
}

/// A matrix applied to the zero vector gives the zero vector.
pub proof fn lemma_times_zeros<F: Field>(m: Seq<Seq<F>>, n: nat)
    requires
        is_grid(m, m.len(), n),
    ensures
        times_vector(m, zeros::<F>(n)) == zeros::<F>(m.len()),
{
    assert forall|r: int| 0 <= r < m.len() implies dot(m[r], zeros::<F>(n)) == F::zero_value() by {
        lemma_dot_commutes(m[r], zeros::<F>(n));
        lemma_dot_of_zeros::<F>(n, m[r]);
    }
    assert(times_vector(m, zeros::<F>(n)) =~= zeros::<F>(m.len()));
}

/// Applying `b` and then `a` to a vector is applying the product of `a` and `b`.
pub proof fn lemma_times_vector_associates<F: Field>(
    a: Seq<Seq<F>>,
    b: Seq<Seq<F>>,
    x: Seq<F>,
    inner: nat,
)
    requires
        is_grid(a, a.len(), inner),
        is_grid(b, inner, x.len()),
    ensures
        times_vector(a, times_vector(b, x)) == times_vector(product(a, b, x.len()), x),
{
    assert forall|r: int| 0 <= r < a.len() implies dot(a[r], times_vector(b, x)) == dot(
        vector_times(a[r], b, x.len()),
        x,
    ) by {
        lemma_dot_associates(a[r], b, x);
    }
    assert(times_vector(a, times_vector(b, x)) =~= times_vector(product(a, b, x.len()), x));
}

/// A matrix with a left inverse sends only the zero vector to zero.
pub proof fn lemma_left_inverse_excludes_kernel<F: Field>(
    m: Seq<Seq<F>>,
    inverse: Seq<Seq<F>>,
    n: nat,
)
    requires
        is_grid(m, n, n),
        is_grid(inverse, n, n),
        product(inverse, m, n) == identity::<F>(n),
    ensures
        !is_singular(m),
{
    assert forall|x: Seq<F>| !is_kernel_vector(m, x) by {
        if x.len() == n && times_vector(m, x) == zeros::<F>(n) {
            lemma_times_vector_associates(inverse, m, x, n);
            lemma_identity_times::<F>(n, x);
            lemma_times_zeros(inverse, n);
        }
    }
}

/// A left inverse whose own kernel is trivial is a right inverse as well.
pub proof fn lemma_left_inverse_is_right_inverse<F: Field>(
    m: Seq<Seq<F>>,
    inverse: Seq<Seq<F>>,
    n: nat,
)
    requires
        is_grid(m, n, n),
        is_grid(inverse, n, n),
        product(inverse, m, n) == identity::<F>(n),
        kernel_within(inverse, identity::<F>(n), n),
    ensures
        product(m, inverse, n) == identity::<F>(n),
{
    let p = product(m, inverse, n);
    assert forall|c: int| 0 <= c < n implies column(p, c) == unit::<F>(n, c) by {
        let v = column(inverse, c);
        let w = times_vector(m, v);
        let e = unit::<F>(n, c);
        let gap = subtracted(w, e);
        // inverse * w == v == inverse * e
        lemma_times_vector_associates(inverse, m, v, n);
        lemma_identity_times::<F>(n, v);
        lemma_times_unit(inverse, n, c);
        assert forall|r: int| 0 <= r < n implies dot(inverse[r], gap) == F::zero_value() by {
            lemma_dot_of_subtracted(inverse[r], w, e);
            assert(dot(inverse[r], w) == times_vector(inverse, w)[r]);
            assert(dot(inverse[r], e) == times_vector(inverse, e)[r]);
            crate::field::lemma_minus_itself(v[r]);
        }
        assert(times_vector(inverse, gap) =~= zeros::<F>(n));
        lemma_identity_times::<F>(n, gap);
        assert(times_vector(identity::<F>(n), gap) == zeros::<F>(n));
        assert forall|r: int| 0 <= r < n implies w[r] == e[r] by {
            assert(gap[r] == zeros::<F>(n)[r]);
            F::sum_undoes_difference(w[r], e[r]);
            lemma_zero_plus(e[r]);
        }
        assert(w =~= e);
        assert(column(p, c) =~= w);
    }
    assert forall|r: int| 0 <= r < n implies #[trigger] p[r] =~= identity::<F>(n)[r] by {
        assert forall|c: int| 0 <= c < n implies p[r][c] == identity::<F>(n)[r][c] by {
            assert(column(p, c)[r] == unit::<F>(n, c)[r]);
        }
    }
    assert(p =~= identity::<F>(n));
}

/// Where elimination has turned `work` into the identity, `inverse` is the inverse
/// of `initial` on both sides, and `initial` is not singular.
pub proof fn lemma_elimination_ends<F: Field>(
    inverse: Seq<Seq<F>>,
    initial: Seq<Seq<F>>,
    n: nat,
)
    requires
        elimination_state(identity::<F>(n), inverse, initial, n, n),
    ensures
        product(inverse, initial, n) == identity::<F>(n),
        product(initial, inverse, n) == identity::<F>(n),
        !is_singular(initial),
{
    lemma_left_inverse_excludes_kernel(initial, inverse, n);
    lemma_left_inverse_is_right_inverse(initial, inverse, n);
}

/// `inverse` is the inverse of the square matrix `m` of size `n`, on both sides.
pub open spec fn is_inverse<F: Field>(inverse: Seq<Seq<F>>, m: Seq<Seq<F>>, n: nat) -> bool {
    &&& is_grid(inverse, n, n)
    &&& product(inverse, m, n) == identity::<F>(n)
    &&& product(m, inverse, n) == identity::<F>(n)
}

/// The identity is its own inverse, and nothing else is.
pub proof fn lemma_inverse_of_identity<F: Field>(inverse: Seq<Seq<F>>, n: nat)
    ensures
        is_inverse(identity::<F>(n), identity::<F>(n), n),
        !is_singular(identity::<F>(n)),
        is_inverse(inverse, identity::<F>(n), n) ==> inverse == identity::<F>(n),
{
    lemma_identity_product(identity::<F>(n), n, n);
    lemma_left_inverse_excludes_kernel(identity::<F>(n), identity::<F>(n), n);
    if is_inverse(inverse, identity::<F>(n), n) {
        lemma_identity_product(inverse, n, n);
    }
}

/// Clears the column `i` in the rows from `k` on, but for the row `i` itself.
proof fn lemma_clear_column<F: Field>(
    work: Seq<Seq<F>>,
    inverse: Seq<Seq<F>>,
    initial: Seq<Seq<F>>,
    n: nat,
    i: int,
    k: int,
) -> (cleared: (Seq<Seq<F>>, Seq<Seq<F>>))
    requires
        elimination_state(work, inverse, initial, n, n),
        identity_before(work, n, i),
        0 <= i < n,
        0 <= k <= n,
        work[i][i] == F::one_value(),
        forall|r: int| 0 <= r < k && r != i ==> (#[trigger] work[r])[i] == F::zero_value(),
    ensures
        elimination_state(cleared.0, cleared.1, initial, n, n),
        identity_before(cleared.0, n, i + 1),
    decreases n - k,
{
    if k == n {
        (work, inverse)
    } else if k == i {
        lemma_clear_column(work, inverse, initial, n, i, k + 1)
    } else {
        let u = work[k][i];
        let work2 = work.update(k, eliminated(work[k], u, work[i]));
        let inverse2 = inverse.update(k, eliminated(inverse[k], u, inverse[i]));
        lemma_state_after_eliminate(work, inverse, initial, n, n, k, i, u);
        lemma_product_with_zero(u);
        F::product_with_one(u);
        lemma_minus_itself(u);
        assert forall|c: int| 0 <= c < i implies #[trigger] work2[k][c] == work[k][c] by {
            lemma_minus_zero(work[k][c]);
        }
        assert(identity_before(work2, n, i));
        lemma_clear_column(work2, inverse2, initial, n, i, k + 1)
    }
}

/// Carries an elimination on from the column `i` to its end.
proof fn lemma_reduce_from<F: Field>(
    work: Seq<Seq<F>>,
    inverse: Seq<Seq<F>>,
    initial: Seq<Seq<F>>,
    n: nat,
    i: int,
) -> (reduced: Seq<Seq<F>>)
    requires
        elimination_state(work, inverse, initial, n, n),
        identity_before(work, n, i),
        0 <= i <= n,
        !is_singular(initial),
    ensures
        elimination_state(identity::<F>(n), reduced, initial, n, n),
    decreases n - i,
{
    if i == n {
        assert forall|r: int| 0 <= r < n implies #[trigger] work[r] =~= identity::<F>(n)[r] by {
            assert forall|c: int| 0 <= c < n implies work[r][c] == identity::<F>(n)[r][c] by {
                assert(work[r][c] == if r == c {
                    F::one_value()
                } else {
                    F::zero_value()
                });
            }
        }
        assert(work =~= identity::<F>(n));
        inverse
    } else {
        if forall|r: int| i <= r < n ==> (#[trigger] work[r])[i] == F::zero_value() {
            let x = missing_pivot_witness(work, n, i);
            lemma_missing_pivot(work, n, n, i);
            assert(times_vector(work, x) == zeros::<F>(work.len()));
            assert(zeros::<F>(n)[i] == F::zero_value());
            assert(is_kernel_vector(initial, x));
        }
        let j = choose|j: int| i <= j < n && (#[trigger] work[j])[i] != F::zero_value();
        let work1 = work.update(i, work[j]).update(j, work[i]);
        let inverse1 = inverse.update(i, inverse[j]).update(j, inverse[i]);
        lemma_state_after_swap(work, inverse, initial, n, n, i, j);
        assert(identity_before(work1, n, i));
        let u = work1[i][i];
        let work2 = work1.update(i, scaled(work1[i], u));
        let inverse2 = inverse1.update(i, scaled(inverse1[i], u));
        lemma_state_after_scale(work1, inverse1, initial, n, n, i, u);
        lemma_zero_quotient(u);
        lemma_quotient_by_itself(u);
        assert(identity_before(work2, n, i));
        let cleared = lemma_clear_column(work2, inverse2, initial, n, i, 0);
        lemma_reduce_from(cleared.0, cleared.1, initial, n, i + 1)
    }
}

/// A square matrix that is not singular has an inverse.
pub proof fn lemma_nonsingular_has_inverse<F: Field>(m: Seq<Seq<F>>, n: nat)
    requires
        is_grid(m, n, n),
        !is_singular(m),
    ensures
        exists|inverse: Seq<Seq<F>>| is_inverse(inverse, m, n),
{
    lemma_elimination_starts(m, n, n);
    let inverse = lemma_reduce_from(m, identity::<F>(n), m, n, 0);
    lemma_elimination_ends(inverse, m, n);
    assert(is_inverse(inverse, m, n));
}

} // verus!
