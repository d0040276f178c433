//! Bringing a matrix into systematic form by operations on its columns: what the
//! operations keep true, why a Vandermonde matrix never lacks a pivot, and what
//! the result is.
use crate::elimination::{
    elimination_state, identity_before, is_inverse, lemma_dot_of_prefix, lemma_elimination_starts,
    lemma_identity_product, lemma_left_inverse_is_right_inverse, lemma_missing_pivot,
    lemma_nonsingular_has_inverse, lemma_state_after_eliminate, lemma_state_after_scale,
    lemma_state_after_swap, lemma_times_vector_associates, lemma_times_zeros,
    missing_pivot_witness,
};
use crate::field::Field;
use crate::linalg::{
    column, column_eliminated, column_scaled, columns_swapped, dot, eliminated, identity, is_grid,
    is_kernel_vector, is_singular, lemma_dot_associates, lemma_dot_commutes, lemma_dot_of_unit,
    lemma_identity_times, lemma_product_associates, lemma_transpose_of_column_eliminated,
    lemma_transpose_of_column_scaled, lemma_transpose_of_columns_swapped, product, scaled,
    times_vector, transpose, unit, vector_times, zeros,
};
use crate::vandermonde::{
    distinct, lemma_vandermonde_has_inverse, lemma_vandermonde_rows_independent, power_column,
    vandermonde,
};
use vstd::prelude::*;

verus! {

/// What the column operations keep true of `m`, which started as `w`: seen through
/// the transposes, where a column operation is a row operation, it is the state
/// of an elimination, with `accumulated` the transpose of the matrix that takes
/// `w` to `m`.
pub open spec fn column_state<F: Field>(
    m: Seq<Seq<F>>,
    accumulated: Seq<Seq<F>>,
    w: Seq<Seq<F>>,
    rows: nat,
    columns: nat,
) -> bool {
    &&& is_grid(m, rows, columns)
    &&& is_grid(w, rows, columns)
    &&& elimination_state(transpose(m, columns), accumulated, transpose(w, columns), columns, rows)
}

/// The rows before `done` are those of the identity.
pub open spec fn unit_rows_before<F: Field>(m: Seq<Seq<F>>, columns: nat, done: int) -> bool {
    forall|r: int| 0 <= r < done ==> #[trigger] m[r] == unit::<F>(columns, r)
}

/// Column elimination starts in its state: the matrix itself, with nothing
/// accumulated but the identity.
pub proof fn lemma_column_state_starts<F: Field>(w: Seq<Seq<F>>, rows: nat, columns: nat)
    requires
        is_grid(w, rows, columns),
    ensures
        column_state(w, identity::<F>(columns), w, rows, columns),
{
    lemma_elimination_starts(transpose(w, columns), columns, rows);
}

/// Exchanging two columns keeps the state.
pub proof fn lemma_column_state_after_swap<F: Field>(
    m: Seq<Seq<F>>,
    accumulated: Seq<Seq<F>>,
    w: Seq<Seq<F>>,
    rows: nat,
    columns: nat,
    i: int,
    j: int,
)
    requires
        column_state(m, accumulated, w, rows, columns),
        0 <= i < columns,
        0 <= j < columns,
    ensures
        column_state(
            columns_swapped(m, i, j),
            accumulated.update(i, accumulated[j]).update(j, accumulated[i]),
            w,
            rows,
            columns,
        ),
{
    lemma_transpose_of_columns_swapped(m, rows, columns, i, j);
    lemma_state_after_swap(
        transpose(m, columns),
        accumulated,
        transpose(w, columns),
        columns,
        rows,
        i,
        j,
    );
}

/// Dividing a column by something other than zero keeps the state.
pub proof fn lemma_column_state_after_scale<F: Field>(
    m: Seq<Seq<F>>,
    accumulated: Seq<Seq<F>>,
    w: Seq<Seq<F>>,
    rows: nat,
    columns: nat,
    i: int,
    u: F,
)
    requires
        column_state(m, accumulated, w, rows, columns),
        0 <= i < columns,
        u != F::zero_value(),
    ensures
        column_state(
            column_scaled(m, i, u),
            accumulated.update(i, scaled(accumulated[i], u)),
            w,
            rows,
            columns,
        ),
{
    lemma_transpose_of_column_scaled(m, rows, columns, i, u);
    lemma_state_after_scale(
        transpose(m, columns),
        accumulated,
        transpose(w, columns),
        columns,
        rows,
        i,
        u,
    );
}

/// Subtracting a multiple of one column from another keeps the state.
pub proof fn lemma_column_state_after_eliminate<F: Field>(
    m: Seq<Seq<F>>,
    accumulated: Seq<Seq<F>>,
    w: Seq<Seq<F>>,
    rows: nat,
    columns: nat,
    j: int,
    u: F,
    i: int,
)
    requires
        column_state(m, accumulated, w, rows, columns),
        0 <= i < columns,
        0 <= j < columns,
        i != j,
    ensures
        column_state(
            column_eliminated(m, j, u, i),
            accumulated.update(j, eliminated(accumulated[j], u, accumulated[i])),
            w,
            rows,
            columns,
        ),
{
    lemma_transpose_of_column_eliminated(m, rows, columns, j, u, i);
    lemma_state_after_eliminate(
        transpose(m, columns),
        accumulated,
        transpose(w, columns),
        columns,
        rows,
        j,
        i,
        u,
    );
}

/// Column elimination on a Vandermonde matrix with distinct nodes always finds a
/// pivot: the row `i` cannot be zero from the diagonal on.
pub proof fn lemma_pivot_exists<F: Field>(
    m: Seq<Seq<F>>,
    accumulated: Seq<Seq<F>>,
    nodes: Seq<F>,
    columns: nat,
    i: int,
)
    requires
        column_state(m, accumulated, vandermonde(nodes, columns), nodes.len(), columns),
        distinct(nodes),
        columns <= nodes.len(),
        0 <= i < columns,
        unit_rows_before(m, columns, i),
    ensures
        exists|c: int| i <= c < columns && m[i][c] != F::zero_value(),
{
    if forall|c: int| i <= c < columns ==> m[i][c] == F::zero_value() {
        let rows = nodes.len();
        let mt = transpose(m, columns);
        let wt = transpose(vandermonde(nodes, columns), columns);
        assert(identity_before(mt, columns, i)) by {
            assert forall|r: int, c: int| 0 <= r < columns && 0 <= c < i implies #[trigger] mt[r][c]
                == if r == c {
                F::one_value()
            } else {
                F::zero_value()
            } by {
                assert(m[c] == unit::<F>(columns, c));
            }
        }
        assert forall|r: int| i <= r < columns implies (#[trigger] mt[r])[i] == F::zero_value() by {
            assert(m[i][r] == F::zero_value());
        }
        lemma_missing_pivot(mt, columns, rows, i);
        let x = missing_pivot_witness(mt, rows, i);
        assert(times_vector(mt, x) == zeros::<F>(mt.len()));
        assert(times_vector(wt, x) == zeros::<F>(wt.len()));
        let top = nodes.take(columns as int);
        assert forall|c: int| 0 <= c < top.len() implies dot(
            #[trigger] power_column(top, c as nat),
            x.take(columns as int),
        ) == F::zero_value() by {
            assert(times_vector(wt, x)[c] == zeros::<F>(wt.len())[c]);
            lemma_dot_of_prefix(wt[c], x, columns as int);
            assert(wt[c].take(columns as int) =~= power_column(top, c as nat));
        }
        lemma_vandermonde_rows_independent(top, x.take(columns as int));
        assert(x.take(columns as int)[i] == zeros::<F>(columns)[i]);
    }
}

/// Where column elimination has made the top of `m` the identity, `m` times the top
/// of the matrix `w` it started from gives `w` back.
pub proof fn lemma_systematic_form<F: Field>(
    m: Seq<Seq<F>>,
    accumulated: Seq<Seq<F>>,
    w: Seq<Seq<F>>,
    rows: nat,
    columns: nat,
)
    requires
        column_state(m, accumulated, w, rows, columns),
        columns <= rows,
        unit_rows_before(m, columns, columns as int),
    ensures
        product(m, w.take(columns as int), columns) == w,
{
    let top = w.take(columns as int);
    let top_transposed = transpose(top, columns);
    let mt = transpose(m, columns);
    let wt = transpose(w, columns);
    // every row of `m` is `accumulated` applied to the same row of `w`
    assert forall|r: int| 0 <= r < rows implies #[trigger] m[r] == times_vector(accumulated, w[r]) by {
        assert forall|c: int| 0 <= c < columns implies m[r][c] == dot(accumulated[c], w[r]) by {
            assert(mt[c][r] == m[r][c]);
            assert(column(wt, r) =~= w[r]);
        }
        assert(m[r] =~= times_vector(accumulated, w[r]));
    }
    // `accumulated` is a left inverse of the transposed top of `w`, hence a right one
    let left = product(accumulated, top_transposed, columns);
    assert forall|c: int| 0 <= c < columns implies #[trigger] left[c] =~= identity::<F>(columns)[c] by {
        assert forall|r: int| 0 <= r < columns implies left[c][r] == identity::<F>(columns)[c][r] by {
            assert(column(top_transposed, r) =~= w[r]);
            assert(m[r] == unit::<F>(columns, r));
            assert(m[r][c] == dot(accumulated[c], w[r]));
        }
    }
    assert(left =~= identity::<F>(columns));
    lemma_left_inverse_is_right_inverse(top_transposed, accumulated, columns);
    let right = product(top_transposed, accumulated, columns);
    let p = product(m, top, columns);
    assert forall|r: int| 0 <= r < rows implies #[trigger] p[r] =~= w[r] by {
        assert forall|c: int| 0 <= c < columns implies p[r][c] == w[r][c] by {
            let y = column(top, c);
            lemma_dot_commutes(m[r], y);
            lemma_dot_associates(y, accumulated, w[r]);
            assert(vector_times(y, accumulated, columns) =~= unit::<F>(columns, c)) by {
                assert forall|b: int| 0 <= b < columns implies vector_times(
                    y,
                    accumulated,
                    columns,
                )[b] == unit::<F>(columns, c)[b] by {
                    assert(top_transposed[c] =~= y);
                    assert(right[c][b] == identity::<F>(columns)[c][b]);
                }
            }
            lemma_dot_of_unit::<F>(columns, c, w[r]);
        }
    }
    assert(p =~= w);
}

/// `e` is the systematic code of the Vandermonde matrix of `nodes` with `k` columns:
/// its top `k` rows are the identity, and multiplied by the top of the Vandermonde
/// matrix it gives the Vandermonde matrix.
pub open spec fn is_systematic_code<F: Field>(e: Seq<Seq<F>>, nodes: Seq<F>, k: nat) -> bool {
    &&& k <= nodes.len()
    &&& distinct(nodes)
    &&& is_grid(e, nodes.len(), k)
    &&& unit_rows_before(e, k, k as int)
    &&& product(e, vandermonde(nodes, k).take(k as int), k) == vandermonde(nodes, k)
}

/// A matrix times the identity is the matrix.
pub proof fn lemma_product_with_identity<F: Field>(m: Seq<Seq<F>>, rows: nat, columns: nat)
    requires
        is_grid(m, rows, columns),
    ensures
        product(m, identity::<F>(columns), columns) == m,
{
    let p = product(m, identity::<F>(columns), columns);
    assert forall|r: int| 0 <= r < rows implies #[trigger] p[r] =~= m[r] by {
        assert forall|c: int| 0 <= c < columns implies p[r][c] == m[r][c] by {
            assert(column(identity::<F>(columns), c) =~= unit::<F>(columns, c));
            lemma_dot_commutes(m[r], unit::<F>(columns, c));
            lemma_dot_of_unit::<F>(columns, c, m[r]);
        }
    }
    assert(p =~= m);
}

/// Nodes and a number of columns have one systematic code at most.
pub proof fn lemma_systematic_code_is_unique<F: Field>(
    e1: Seq<Seq<F>>,
    e2: Seq<Seq<F>>,
    nodes: Seq<F>,
    k: nat,
)
    requires
        is_systematic_code(e1, nodes, k),
        is_systematic_code(e2, nodes, k),
    ensures
        e1 == e2,
{
    let w = vandermonde(nodes, k);
    let top = w.take(k as int);
    let top_nodes = nodes.take(k as int);
    assert(top =~= vandermonde(top_nodes, k));
    lemma_vandermonde_has_inverse(top_nodes);
    let right = choose|right: Seq<Seq<F>>| is_inverse(right, top, k);
    lemma_product_associates(e1, top, right, k, k, k);
    lemma_product_associates(e2, top, right, k, k, k);
    lemma_product_with_identity(e1, nodes.len(), k);
    lemma_product_with_identity(e2, nodes.len(), k);
}

/// `selection` names rows of a matrix of `rows` rows, none of them twice.
pub open spec fn is_selection(selection: Seq<int>, rows: nat) -> bool {
    &&& forall|i: int| 0 <= i < selection.len() ==> 0 <= #[trigger] selection[i] < rows
    &&& forall|i: int, j: int|
        0 <= i < j < selection.len() ==> #[trigger] selection[i] != #[trigger] selection[j]
}

/// The rows of `m` that `selection` names, in its order.
pub open spec fn selected_rows<F>(m: Seq<Seq<F>>, selection: Seq<int>) -> Seq<Seq<F>> {
    Seq::new(selection.len(), |i: int| m[selection[i]])
}

/// Any `k` rows of a systematic code built on distinct nodes form a matrix that is
/// not singular: whichever `k` shards survive, the data can be solved for.
pub proof fn lemma_any_rows_suffice<F: Field>(
    e: Seq<Seq<F>>,
    nodes: Seq<F>,
    k: nat,
    selection: Seq<int>,
)
    requires
        is_systematic_code(e, nodes, k),
        is_selection(selection, nodes.len()),
        selection.len() == k,
    ensures
        !is_singular(selected_rows(e, selection)),
{
    let w = vandermonde(nodes, k);
    let top = w.take(k as int);
    let top_nodes = nodes.take(k as int);
    let chosen_nodes = Seq::new(k, |i: int| nodes[selection[i]]);
    let chosen = selected_rows(w, selection);
    let rows = selected_rows(e, selection);
    assert(top =~= vandermonde(top_nodes, k));
    assert(chosen =~= vandermonde(chosen_nodes, k));
    lemma_vandermonde_has_inverse(top_nodes);
    lemma_vandermonde_has_inverse(chosen_nodes);
    let right = choose|right: Seq<Seq<F>>| is_inverse(right, top, k);
    let left = choose|left: Seq<Seq<F>>| is_inverse(left, chosen, k);
    assert(product(rows, top, k) =~= chosen) by {
        assert forall|i: int| 0 <= i < k implies #[trigger] product(rows, top, k)[i] == chosen[i] by {
            assert(product(e, top, k)[selection[i]] == w[selection[i]]);
        }
    }
    assert forall|x: Seq<F>| !is_kernel_vector(rows, x) by {
        if x.len() == k && times_vector(rows, x) == zeros::<F>(k) {
            let z = times_vector(right, x);
            // top * z == x
            lemma_times_vector_associates(top, right, x, k);
            lemma_identity_times::<F>(k, x);
            // chosen * z == rows * (top * z) == rows * x == 0
            lemma_times_vector_associates(rows, top, z, k);
            // z == left * (chosen * z) == 0
            lemma_times_vector_associates(left, chosen, z, k);
            lemma_identity_times::<F>(k, z);
            lemma_times_zeros(left, k);
            // x == top * 0 == 0
            lemma_times_zeros(top, k);
        }
    }
}

/// `d`, of `k` rows and `columns` columns, solves `s * d == c`.
pub open spec fn is_solution<F: Field>(
    s: Seq<Seq<F>>,
    d: Seq<Seq<F>>,
    c: Seq<Seq<F>>,
    k: nat,
    columns: nat,
) -> bool {
    &&& is_grid(d, k, columns)
    &&& product(s, d, columns) == c
}

/// The solution of `s * d == c`. It is the only one where `s` is not singular.
pub open spec fn solution<F: Field>(s: Seq<Seq<F>>, c: Seq<Seq<F>>, k: nat, columns: nat) -> Seq<
    Seq<F>,
> {
    choose|d: Seq<Seq<F>>| is_solution(s, d, c, k, columns)
}

/// The inverse of `s` times `c` solves `s * d == c`.
pub proof fn lemma_inverse_solves<F: Field>(
    s: Seq<Seq<F>>,
    inverse: Seq<Seq<F>>,
    c: Seq<Seq<F>>,
    k: nat,
    columns: nat,
)
    requires
        is_grid(s, k, k),
        is_inverse(inverse, s, k),
        is_grid(c, k, columns),
    ensures
        is_solution(s, product(inverse, c, columns), c, k, columns),
{
    lemma_product_associates(s, inverse, c, k, k, columns);
    lemma_identity_product(c, k, columns);
}

/// Where `s` is not singular, `s * d == c` has one solution at most.
pub proof fn lemma_solution_is_unique<F: Field>(
    s: Seq<Seq<F>>,
    d: Seq<Seq<F>>,
    c: Seq<Seq<F>>,
    k: nat,
    columns: nat,
)
    requires
        is_grid(s, k, k),
        !is_singular(s),
        is_solution(s, d, c, k, columns),
    ensures
        solution(s, c, k, columns) == d,
{
    let other = solution(s, c, k, columns);
    lemma_nonsingular_has_inverse(s, k);
    let inverse = choose|inverse: Seq<Seq<F>>| is_inverse(inverse, s, k);
    lemma_product_associates(inverse, s, d, k, k, columns);
    lemma_product_associates(inverse, s, other, k, k, columns);
    lemma_identity_product(d, k, columns);
    lemma_identity_product(other, k, columns);
}

} // verus!
