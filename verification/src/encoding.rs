//! The systematic Reed-Solomon encoding matrix over GF(256), derived from a
//! Vandermonde matrix.
use crate::field::{lemma_minus_itself, lemma_minus_zero, lemma_product_with_zero, Field};
use crate::gf8::Gf8;
use crate::linalg::{column_eliminated, column_scaled, columns_swapped, eliminated, is_grid, scaled, unit};
use crate::matrix::Matrix;
use crate::systematic::{
    column_state, is_systematic_code, lemma_column_state_after_eliminate,
    lemma_column_state_after_scale, lemma_column_state_after_swap, lemma_column_state_starts,
    lemma_pivot_exists, lemma_systematic_form, unit_rows_before,
};
use crate::vandermonde::{distinct, power, vandermonde};
use vstd::prelude::*;

verus! {

/// The first `n` bytes as field elements: the nodes of the Vandermonde matrix.
pub open spec fn byte_nodes(n: nat) -> Seq<Gf8> {
    Seq::new(n, |r: int| Gf8(r as u8))
}

/// The Vandermonde matrix that the encoding matrix is derived from: one row for
/// each shard, one column for each data shard.
pub open spec fn shard_vandermonde(data_shards: nat, parity_shards: nat) -> Seq<Seq<Gf8>> {
    vandermonde(byte_nodes(data_shards + parity_shards), data_shards)
}

/// `e` is the encoding matrix for the given numbers of shards: the systematic code
/// of their Vandermonde matrix.
pub open spec fn is_encoding_matrix(e: Seq<Seq<Gf8>>, data_shards: nat, parity_shards: nat) -> bool {
    is_systematic_code(e, byte_nodes(data_shards + parity_shards), data_shards)
}

/// Up to 256 bytes in a row are all different.
pub proof fn lemma_byte_nodes_distinct(n: nat)
    requires
        n <= 256,
    ensures
        distinct(byte_nodes(n)),
{
    assert forall|i: int, j: int| 0 <= i < j < n implies byte_nodes(n)[i] != byte_nodes(n)[j] by {
        assert(byte_nodes(n)[i].0 == i);
        assert(byte_nodes(n)[j].0 == j);
    }
}

impl Matrix<Gf8> {
    /// The Vandermonde matrix for the given numbers of shards: the row `r` holds the
    /// powers of the byte `r`, from the exponent zero on.
    pub fn vandermonde_matrix(data_shards: usize, parity_shards: usize) -> (m: Matrix<Gf8>)
        requires
            data_shards + parity_shards <= 256,
        ensures
            m.wf(),
            m.rows == data_shards + parity_shards,
            m.columns == data_shards,
            m@ == shard_vandermonde(data_shards as nat, parity_shards as nat),
    {
        let rows: usize = data_shards + parity_shards;
        let columns: usize = data_shards;
        assert(rows * columns <= 65536) by (nonlinear_arith)
            requires
                rows <= 256,
                columns <= 256,
        ;
        let ghost expected = shard_vandermonde(data_shards as nat, parity_shards as nat);
        let mut m = Matrix::<Gf8>::with_dimensions(rows, columns);
        let mut row: usize = 0;
        while row < rows
            invariant
                row <= rows <= 256,
                m.wf(),
                m.rows == rows,
                m.columns == columns,
                expected == vandermonde(byte_nodes(rows as nat), columns as nat),
                is_grid(m@, rows as nat, columns as nat),
                forall|q: int| 0 <= q < row ==> #[trigger] m@[q] == expected[q],
            decreases rows - row,
        {
            let mut element = Gf8::one();
            let base = Gf8(row as u8);
            let ghost above = m@;
            let mut column: usize = 0;
            while column < columns
                invariant
                    column <= columns,
                    row < rows,
                    m.wf(),
                    m.rows == rows,
                    m.columns == columns,
                    base == byte_nodes(rows as nat)[row as int],
                    element == power(base, column as nat),
                    is_grid(m@, rows as nat, columns as nat),
                    forall|q: int| 0 <= q < rows && q != row ==> #[trigger] m@[q] == above[q],
                    forall|c: int|
                        0 <= c < column ==> #[trigger] m@[row as int][c] == power(base, c as nat),
                decreases columns - column,
            {
                m.set(row, column, element);
                element = element.mul(base);
                column += 1;
            }
            proof {
                assert(m@[row as int] =~= expected[row as int]);
            }
            row += 1;
        }
        proof {
            assert(m@ =~= expected);
        }
        m
    }

    /// The encoding matrix for `data_shards` data shards and `parity_shards` parity
    /// shards: the Vandermonde matrix of the shards, brought into systematic form by
    /// operations on its columns. Its top rows are the identity, so that a data
    /// shard holds the data itself; the rows below hold the coefficients of the
    /// parity shards. Multiplied by the top of the Vandermonde matrix it gives the
    /// Vandermonde matrix back, which determines it.
    pub fn encoding_matrix(data_shards: usize, parity_shards: usize) -> (m: Matrix<Gf8>)
        requires
            data_shards + parity_shards <= 256,
        ensures
            m.wf(),
            m.rows == data_shards + parity_shards,
            m.columns == data_shards,
            is_encoding_matrix(m@, data_shards as nat, parity_shards as nat),
    {
        let mut m = Matrix::<Gf8>::vandermonde_matrix(data_shards, parity_shards);
        let rows: usize = m.rows;
        let columns: usize = m.columns;
        let ghost height = rows as nat;
        let ghost width = columns as nat;
        let ghost nodes = byte_nodes(height);
        let ghost w = m@;
        let ghost accumulated = crate::linalg::identity::<Gf8>(width);
        proof {
            lemma_byte_nodes_distinct(height);
            lemma_column_state_starts(w, height, width);
        }
        let mut i: usize = 0;
        while i < columns
            invariant
                i <= columns <= rows,
                height == rows,
                width == columns,
                m.wf(),
                m.rows == rows,
                m.columns == columns,
                nodes.len() == height,
                distinct(nodes),
                w == vandermonde(nodes, width),
                column_state(m@, accumulated, w, height, width),
                unit_rows_before(m@, width, i as int),
            decreases columns - i,
        {
            if m.get(i, i).is_zero() {
                let mut j: usize = i + 1;
                while j < columns && m.get(i, j).is_zero()
                    invariant
                        i < j <= columns,
                        i < rows,
                        m.wf(),
                        m.rows == rows,
                        m.columns == columns,
                        forall|c: int| i <= c < j ==> m@[i as int][c] == Gf8::zero_value(),
                    decreases columns - j,
                {
                    j += 1;
                }
                proof {
                    lemma_pivot_exists(m@, accumulated, nodes, width, i as int);
                    lemma_column_state_after_swap(
                        m@,
                        accumulated,
                        w,
                        height,
                        width,
                        i as int,
                        j as int,
                    );
                    assert forall|r: int| 0 <= r < i implies #[trigger] columns_swapped(
                        m@,
                        i as int,
                        j as int,
                    )[r] =~= unit::<Gf8>(width, r) by {
                        assert(m@[r] == unit::<Gf8>(width, r));
                    }
                    accumulated =
                    accumulated.update(i as int, accumulated[j as int]).update(
                        j as int,
                        accumulated[i as int],
                    );
                }
                m.swap_columns(i, j);
            }
            let ghost pivot = m@[i as int][i as int];
            proof {
                assert forall|r: int| 0 <= r < i implies (#[trigger] m@[r])[i as int]
                    == Gf8::zero_value() by {
                    assert(m@[r] == unit::<Gf8>(width, r));
                }
                lemma_column_state_after_scale(m@, accumulated, w, height, width, i as int, pivot);
                crate::field::lemma_zero_quotient(pivot);
                assert forall|r: int| 0 <= r < i implies #[trigger] column_scaled(
                    m@,
                    i as int,
                    pivot,
                )[r] =~= unit::<Gf8>(width, r) by {
                    assert(m@[r] == unit::<Gf8>(width, r));
                }
                accumulated = accumulated.update(i as int, scaled(accumulated[i as int], pivot));
            }
            if !m.get(i, i).is_one() {
                m.normalize_column(i);
            } else {
                proof {
                    assert forall|r: int| 0 <= r < rows implies #[trigger] column_scaled(
                        m@,
                        i as int,
                        pivot,
                    )[r] =~= m@[r] by {
                        Gf8::product_with_one(m@[r][i as int]);
                        Gf8::quotient_undoes_product(m@[r][i as int], pivot);
                    }
                    assert(column_scaled(m@, i as int, pivot) =~= m@);
                }
            }
            let mut j: usize = 0;
            while j < columns
                invariant
                    j <= columns,
                    i < columns <= rows,
                    height == rows,
                    width == columns,
                    m.wf(),
                    m.rows == rows,
                    m.columns == columns,
                    column_state(m@, accumulated, w, height, width),
                    unit_rows_before(m@, width, i as int),
                    m@[i as int][i as int] == Gf8::one_value(),
                    forall|c: int|
                        0 <= c < j && c != i ==> #[trigger] m@[i as int][c] == Gf8::zero_value(),
                decreases columns - j,
            {
                if j != i {
                    let u = m.get(i, j);
                    if !u.is_zero() {
                        proof {
                            assert forall|r: int| 0 <= r < i implies (#[trigger] m@[r])[i as int]
                                == Gf8::zero_value() by {
                                assert(m@[r] == unit::<Gf8>(width, r));
                            }
                            lemma_column_state_after_eliminate(
                                m@,
                                accumulated,
                                w,
                                height,
                                width,
                                j as int,
                                u,
                                i as int,
                            );
                            lemma_product_with_zero(u);
                            Gf8::product_with_one(u);
                            lemma_minus_itself(u);
                            assert forall|r: int| 0 <= r < i implies #[trigger] column_eliminated(
                                m@,
                                j as int,
                                u,
                                i as int,
                            )[r] =~= unit::<Gf8>(width, r) by {
                                assert(m@[r] == unit::<Gf8>(width, r));
                                lemma_minus_zero(m@[r][j as int]);
                            }
                            accumulated =
                            accumulated.update(
                                j as int,
                                eliminated(accumulated[j as int], u, accumulated[i as int]),
                            );
                        }
                        m.eliminate_column(j, i, u);
                    }
                }
                j += 1;
            }
            proof {
                assert(m@[i as int] =~= unit::<Gf8>(width, i as int));
            }
            i += 1;
        }
        proof {
            lemma_systematic_form(m@, accumulated, w, height, width);
        }
        m
    }
}

} // verus!
