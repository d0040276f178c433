//! Dense matrices over a field, stored row by row, with the elimination that
//! inverts one.
use crate::elimination::{
    elimination_state, identity_before, lemma_elimination_ends, lemma_elimination_starts,
    lemma_missing_pivot, lemma_state_after_eliminate, lemma_state_after_scale,
    lemma_state_after_swap, missing_pivot_witness,
};
use crate::field::{
    lemma_minus_itself, lemma_minus_zero, lemma_product_with_zero, lemma_quotient_by_itself,
    lemma_zero_quotient, Field,
};
use crate::linalg::{
    column, column_eliminated, column_scaled, columns_swapped, dot, eliminated, identity, is_grid,
    is_kernel_vector, is_singular, product, scaled, times_vector, unit, zeros,
};
use vstd::prelude::*;

verus! {

/// A matrix of `rows` by `columns` entries; the entry of row `r` and column `c` is
/// `elements[r * columns + c]`.
#[derive(Clone, PartialEq, Debug)]
pub struct Matrix<F: Field> {
    pub rows: usize,
    pub columns: usize,
    pub elements: Vec<F>,
}

/// The position of an entry in the row-by-row storage lies within it.
pub proof fn lemma_position_in_bounds(rows: int, columns: int, r: int, c: int)
    requires
        0 <= r < rows,
        0 <= c < columns,
    ensures
        0 <= r * columns + c < rows * columns,
        0 <= r * columns,
{
    assert(0 <= r * columns && (r + 1) * columns <= rows * columns) by (nonlinear_arith)
        requires
            0 <= r < rows,
            0 <= columns,
    ;
    assert((r + 1) * columns == r * columns + columns) by (nonlinear_arith);
}

/// Two entries share a position only where they share row and column.
pub proof fn lemma_position_is_unique(columns: int, r1: int, c1: int, r2: int, c2: int)
    requires
        0 <= c1 < columns,
        0 <= c2 < columns,
        r1 * columns + c1 == r2 * columns + c2,
    ensures
        r1 == r2,
        c1 == c2,
{
    if r1 < r2 {
        assert((r1 + 1) * columns <= r2 * columns) by (nonlinear_arith)
            requires
                r1 + 1 <= r2,
                0 <= columns,
        ;
        assert((r1 + 1) * columns == r1 * columns + columns) by (nonlinear_arith);
    } else if r2 < r1 {
        assert((r2 + 1) * columns <= r1 * columns) by (nonlinear_arith)
            requires
                r2 + 1 <= r1,
                0 <= columns,
        ;
        assert((r2 + 1) * columns == r2 * columns + columns) by (nonlinear_arith);
    }
}

impl<F: Field> View for Matrix<F> {
    type V = Seq<Seq<F>>;

    /// The matrix as a sequence of rows.
    open spec fn view(&self) -> Seq<Seq<F>> {
        Seq::new(
            self.rows as nat,
            |r: int| Seq::new(self.columns as nat, |c: int| self.elements@[r * self.columns + c]),
        )
    }
}

impl<F: Field> Matrix<F> {
    /// The storage holds exactly `rows * columns` entries.
    pub open spec fn wf(&self) -> bool {
        self.elements@.len() == self.rows * self.columns
    }

    /// The matrix of the given dimensions that holds `elements`, row by row.
    pub fn from_elements(rows: usize, columns: usize, elements: Vec<F>) -> (m: Option<Matrix<F>>)
        ensures
            m.is_some() <==> elements@.len() == rows * columns,
            m matches Some(m) ==> m.wf() && m.rows == rows && m.columns == columns && m.elements@
                == elements@,
    {
        assert(elements.len() <= usize::MAX);
        match rows.checked_mul(columns) {
            Some(count) => {
                if elements.len() == count {
                    Some(Matrix { rows, columns, elements })
                } else {
                    None
                }
            },
            None => {
                None
            },
        }
    }

    /// The rows that `selection` names, in its order.
    pub fn select_rows(&self, selection: &Vec<usize>) -> (m: Matrix<F>)
        requires
            self.wf(),
            forall|i: int| 0 <= i < selection@.len() ==> #[trigger] selection@[i] < self.rows,
            selection@.len() * self.columns <= usize::MAX,
        ensures
            m.wf(),
            m.rows == selection@.len(),
            m.columns == self.columns,
            m@ == Seq::new(selection@.len(), |i: int| self@[selection@[i] as int]),
    {
        let count = selection.len();
        let mut m = Matrix::<F>::with_dimensions(count, self.columns);
        let ghost expected = Seq::new(selection@.len(), |i: int| self@[selection@[i] as int]);
        let mut i: usize = 0;
        while i < count
            invariant
                i <= count,
                count == selection@.len(),
                self.wf(),
                forall|q: int| 0 <= q < selection@.len() ==> #[trigger] selection@[q] < self.rows,
                m.wf(),
                m.rows == count,
                m.columns == self.columns,
                expected == Seq::new(selection@.len(), |q: int| self@[selection@[q] as int]),
                is_grid(m@, count as nat, self.columns as nat),
                forall|q: int| 0 <= q < i ==> #[trigger] m@[q] == expected[q],
            decreases count - i,
        {
            let source = selection[i];
            let mut c: usize = 0;
            while c < self.columns
                invariant
                    c <= self.columns,
                    i < count,
                    count == selection@.len(),
                    source == selection@[i as int],
                    source < self.rows,
                    self.wf(),
                    m.wf(),
                    m.rows == count,
                    m.columns == self.columns,
                    expected == Seq::new(selection@.len(), |q: int| self@[selection@[q] as int]),
                    is_grid(m@, count as nat, self.columns as nat),
                    forall|q: int| 0 <= q < i ==> #[trigger] m@[q] == expected[q],
                    forall|j: int| 0 <= j < c ==> #[trigger] m@[i as int][j] == expected[i as int][j],
                decreases self.columns - c,
            {
                m.set(i, c, self.get(source, c));
                c += 1;
            }
            proof {
                assert(m@[i as int] =~= expected[i as int]);
            }
            i += 1;
        }
        proof {
            assert(m@ =~= expected);
        }
        m
    }

    /// The entry of row `r` and column `c`.
    pub fn get(&self, r: usize, c: usize) -> (entry: F)
        requires
            self.wf(),
            r < self.rows,
            c < self.columns,
        ensures
            entry == self@[r as int][c as int],
    {
        proof {
            lemma_position_in_bounds(self.rows as int, self.columns as int, r as int, c as int);
            assert(self.elements.len() <= usize::MAX);
        }
        self.elements[r * self.columns + c]
    }

    /// Replaces the entry of row `r` and column `c`.
    pub fn set(&mut self, r: usize, c: usize, entry: F)
        requires
            old(self).wf(),
            r < old(self).rows,
            c < old(self).columns,
        ensures
            final(self).wf(),
            final(self).rows == old(self).rows,
            final(self).columns == old(self).columns,
            final(self)@ == old(self)@.update(r as int, old(self)@[r as int].update(c as int, entry)),
    {
        proof {
            lemma_position_in_bounds(self.rows as int, self.columns as int, r as int, c as int);
            assert(self.elements.len() <= usize::MAX);
        }
        let position = r * self.columns + c;
        self.elements.set(position, entry);
        proof {
            let columns = self.columns as int;
            let after = old(self)@.update(r as int, old(self)@[r as int].update(c as int, entry));
            assert forall|r2: int, c2: int|
                0 <= r2 < self.rows && 0 <= c2 < self.columns implies #[trigger] self@[r2][c2]
                == after[r2][c2] by {
                lemma_position_in_bounds(self.rows as int, columns, r2, c2);
                if r2 * columns + c2 == position {
                    lemma_position_is_unique(columns, r2, c2, r as int, c as int);
                }
            }
            assert forall|r2: int| 0 <= r2 < self.rows implies #[trigger] self@[r2] =~= after[r2] by {
                assert forall|c2: int| 0 <= c2 < self.columns implies self@[r2][c2]
                    == after[r2][c2] by {
                    assert(self@[r2][c2] == after[r2][c2]);
                }
            }
            assert(self@ =~= after);
        }
    }

    /// The matrix of the given dimensions that is zero everywhere.
    pub fn with_dimensions(rows: usize, columns: usize) -> (m: Matrix<F>)
        requires
            rows * columns <= usize::MAX,
        ensures
            m.wf(),
            m.rows == rows,
            m.columns == columns,
            m@ == Seq::new(rows as nat, |r: int| zeros::<F>(columns as nat)),
    {
        let count = rows * columns;
        let mut elements: Vec<F> = Vec::with_capacity(count);
        let mut filled: usize = 0;
        while filled < count
            invariant
                filled <= count,
                elements@.len() == filled,
                forall|i: int| 0 <= i < filled ==> elements@[i] == F::zero_value(),
            decreases count - filled,
        {
            elements.push(F::zero());
            filled += 1;
        }
        let m = Matrix { rows, columns, elements };
        proof {
            let all_zero = Seq::new(rows as nat, |r: int| zeros::<F>(columns as nat));
            assert forall|r: int| 0 <= r < rows implies #[trigger] m@[r] =~= all_zero[r] by {
                assert forall|c: int| 0 <= c < columns implies m@[r][c] == F::zero_value() by {
                    lemma_position_in_bounds(rows as int, columns as int, r, c);
                }
            }
            assert(m@ =~= all_zero);
        }
        m
    }

    /// The identity matrix with `rows` rows and as many columns.
    pub fn identity_matrix(rows: usize) -> (m: Matrix<F>)
        requires
            rows * rows <= usize::MAX,
        ensures
            m.wf(),
            m.rows == rows,
            m.columns == rows,
            m@ == identity::<F>(rows as nat),
    {
        let mut m = Matrix::<F>::with_dimensions(rows, rows);
        let mut i: usize = 0;
        while i < rows
            invariant
                i <= rows,
                m.wf(),
                m.rows == rows,
                m.columns == rows,
                m@.len() == rows,
                forall|r: int|
                    0 <= r < rows ==> #[trigger] m@[r] == if r < i {
                        unit::<F>(rows as nat, r)
                    } else {
                        zeros::<F>(rows as nat)
                    },
            decreases rows - i,
        {
            m.set(i, i, F::one());
            proof {
                assert(zeros::<F>(rows as nat).update(i as int, F::one_value()) =~= unit::<F>(
                    rows as nat,
                    i as int,
                ));
            }
            i += 1;
        }
        proof {
            assert(m@ =~= identity::<F>(rows as nat));
        }
        m
    }

    /// Exchanges the rows `i` and `j`.
    pub fn swap_rows(&mut self, i: usize, j: usize)
        requires
            old(self).wf(),
            i < old(self).rows,
            j < old(self).rows,
            i != j,
        ensures
            final(self).wf(),
            final(self).rows == old(self).rows,
            final(self).columns == old(self).columns,
            final(self)@ == old(self)@.update(i as int, old(self)@[j as int]).update(
                j as int,
                old(self)@[i as int],
            ),
    {
        let ghost before = self@;
        let mut c: usize = 0;
        while c < self.columns
            invariant
                c <= self.columns,
                self.wf(),
                self.rows == old(self).rows,
                self.columns == old(self).columns,
                i < self.rows,
                j < self.rows,
                i != j,
                before == old(self)@,
                is_grid(self@, self.rows as nat, self.columns as nat),
                forall|r: int, k: int|
                    0 <= r < self.rows && 0 <= k < self.columns ==> #[trigger] self@[r][k] == if r == i
                        && k < c {
                        before[j as int][k]
                    } else if r == j && k < c {
                        before[i as int][k]
                    } else {
                        before[r][k]
                    },
            decreases self.columns - c,
        {
            let upper = self.get(i, c);
            let lower = self.get(j, c);
            self.set(i, c, lower);
            self.set(j, c, upper);
            c += 1;
        }
        proof {
            let after = before.update(i as int, before[j as int]).update(j as int, before[i as int]);
            assert forall|r: int| 0 <= r < self.rows implies #[trigger] self@[r] =~= after[r] by {
                assert forall|k: int| 0 <= k < self.columns implies self@[r][k] == after[r][k] by {
                    assert(self@[r][k] == after[r][k]);
                }
            }
            assert(self@ =~= after);
        }
    }

    /// Exchanges the columns `i` and `j`.
    pub fn swap_columns(&mut self, i: usize, j: usize)
        requires
            old(self).wf(),
            i < old(self).columns,
            j < old(self).columns,
            i != j,
        ensures
            final(self).wf(),
            final(self).rows == old(self).rows,
            final(self).columns == old(self).columns,
            final(self)@ == columns_swapped(old(self)@, i as int, j as int),
    {
        let ghost before = self@;
        let mut r: usize = 0;
        while r < self.rows
            invariant
                r <= self.rows,
                self.wf(),
                self.rows == old(self).rows,
                self.columns == old(self).columns,
                i < self.columns,
                j < self.columns,
                i != j,
                before == old(self)@,
                is_grid(self@, self.rows as nat, self.columns as nat),
                forall|q: int|
                    0 <= q < self.rows ==> #[trigger] self@[q] == if q < r {
                        before[q].update(i as int, before[q][j as int]).update(j as int, before[q][i as int])
                    } else {
                        before[q]
                    },
            decreases self.rows - r,
        {
            let left = self.get(r, i);
            let right = self.get(r, j);
            self.set(r, i, right);
            self.set(r, j, left);
            r += 1;
        }
        proof {
            assert(self@ =~= columns_swapped(before, i as int, j as int));
        }
    }

    /// Divides the row `row` by `u`.
    pub fn divide_row(&mut self, row: usize, u: F)
        requires
            old(self).wf(),
            row < old(self).rows,
            u != F::zero_value(),
        ensures
            final(self).wf(),
            final(self).rows == old(self).rows,
            final(self).columns == old(self).columns,
            final(self)@ == old(self)@.update(row as int, scaled(old(self)@[row as int], u)),
    {
        let ghost before = self@;
        let mut c: usize = 0;
        while c < self.columns
            invariant
                c <= self.columns,
                self.wf(),
                self.rows == old(self).rows,
                self.columns == old(self).columns,
                row < self.rows,
                u != F::zero_value(),
                before == old(self)@,
                is_grid(self@, self.rows as nat, self.columns as nat),
                forall|r: int| 0 <= r < self.rows && r != row ==> #[trigger] self@[r] == before[r],
                forall|k: int|
                    0 <= k < self.columns ==> #[trigger] self@[row as int][k] == if k < c {
                        before[row as int][k].quotient(u)
                    } else {
                        before[row as int][k]
                    },
            decreases self.columns - c,
        {
            let entry = self.get(row, c);
            self.set(row, c, entry.div(u));
            c += 1;
        }
        proof {
            let after = before.update(row as int, scaled(before[row as int], u));
            assert(self@[row as int] =~= after[row as int]);
            assert(self@ =~= after);
        }
    }

    /// Subtracts `u` times the row `source` from the row `target`.
    pub fn eliminate_row(&mut self, target: usize, source: usize, u: F)
        requires
            old(self).wf(),
            target < old(self).rows,
            source < old(self).rows,
            target != source,
        ensures
            final(self).wf(),
            final(self).rows == old(self).rows,
            final(self).columns == old(self).columns,
            final(self)@ == old(self)@.update(
                target as int,
                eliminated(old(self)@[target as int], u, old(self)@[source as int]),
            ),
    {
        let ghost before = self@;
        let mut c: usize = 0;
        while c < self.columns
            invariant
                c <= self.columns,
                self.wf(),
                self.rows == old(self).rows,
                self.columns == old(self).columns,
                target < self.rows,
                source < self.rows,
                target != source,
                before == old(self)@,
                is_grid(self@, self.rows as nat, self.columns as nat),
                forall|r: int| 0 <= r < self.rows && r != target ==> #[trigger] self@[r] == before[r],
                forall|k: int|
                    0 <= k < self.columns ==> #[trigger] self@[target as int][k] == if k < c {
                        before[target as int][k].difference(u.product(before[source as int][k]))
                    } else {
                        before[target as int][k]
                    },
            decreases self.columns - c,
        {
            let pivot = self.get(source, c);
            let entry = self.get(target, c);
            self.set(target, c, entry.sub(u.mul(pivot)));
            c += 1;
        }
        proof {
            let after = before.update(
                target as int,
                eliminated(before[target as int], u, before[source as int]),
            );
            assert(self@[target as int] =~= after[target as int]);
            assert(self@ =~= after);
        }
    }

    /// Divides the column `i` by its entry on the diagonal, which becomes one. The
    /// column is zero above the diagonal, so only the rows below it are touched.
    pub fn normalize_column(&mut self, i: usize)
        requires
            old(self).wf(),
            i < old(self).rows,
            i < old(self).columns,
            old(self)@[i as int][i as int] != F::zero_value(),
            forall|r: int| 0 <= r < i ==> (#[trigger] old(self)@[r])[i as int] == F::zero_value(),
        ensures
            final(self).wf(),
            final(self).rows == old(self).rows,
            final(self).columns == old(self).columns,
            final(self)@ == column_scaled(old(self)@, i as int, old(self)@[i as int][i as int]),
            final(self)@[i as int][i as int] == F::one_value(),
    {
        let ghost before = self@;
        let u = self.get(i, i);
        let mut r: usize = i + 1;
        while r < self.rows
            invariant
                i < r <= self.rows,
                i < self.columns,
                self.wf(),
                self.rows == old(self).rows,
                self.columns == old(self).columns,
                before == old(self)@,
                u == before[i as int][i as int],
                u != F::zero_value(),
                is_grid(self@, self.rows as nat, self.columns as nat),
                forall|q: int|
                    0 <= q < self.rows ==> #[trigger] self@[q] == if i < q < r {
                        before[q].update(i as int, before[q][i as int].quotient(u))
                    } else {
                        before[q]
                    },
            decreases self.rows - r,
        {
            let entry = self.get(r, i);
            self.set(r, i, entry.div(u));
            r += 1;
        }
        self.set(i, i, F::one());
        proof {
            lemma_zero_quotient(u);
            lemma_quotient_by_itself(u);
            let after = column_scaled(before, i as int, u);
            assert forall|q: int| 0 <= q < self.rows implies #[trigger] self@[q] =~= after[q] by {}
            assert(self@ =~= after);
        }
    }

    /// Subtracts `u` times the column `i` from the column `j`. The column `i` is
    /// zero above the row `i`, so only the rows from there on are touched.
    pub fn eliminate_column(&mut self, j: usize, i: usize, u: F)
        requires
            old(self).wf(),
            i < old(self).rows,
            i < old(self).columns,
            j < old(self).columns,
            i != j,
            forall|r: int| 0 <= r < i ==> (#[trigger] old(self)@[r])[i as int] == F::zero_value(),
        ensures
            final(self).wf(),
            final(self).rows == old(self).rows,
            final(self).columns == old(self).columns,
            final(self)@ == column_eliminated(old(self)@, j as int, u, i as int),
    {
        let ghost before = self@;
        let mut r: usize = i;
        while r < self.rows
            invariant
                i <= r <= self.rows,
                i < self.columns,
                j < self.columns,
                i != j,
                self.wf(),
                self.rows == old(self).rows,
                self.columns == old(self).columns,
                before == old(self)@,
                is_grid(self@, self.rows as nat, self.columns as nat),
                forall|q: int|
                    0 <= q < self.rows ==> #[trigger] self@[q] == if i <= q < r {
                        before[q].update(
                            j as int,
                            before[q][j as int].difference(u.product(before[q][i as int])),
                        )
                    } else {
                        before[q]
                    },
            decreases self.rows - r,
        {
            let pivot = self.get(r, i);
            let entry = self.get(r, j);
            self.set(r, j, entry.sub(u.mul(pivot)));
            r += 1;
        }
        proof {
            lemma_product_with_zero(u);
            let after = column_eliminated(before, j as int, u, i as int);
            assert forall|q: int| 0 <= q < self.rows implies #[trigger] self@[q] =~= after[q] by {
                if q < i {
                    lemma_minus_zero(before[q][j as int]);
                }
            }
            assert(self@ =~= after);
        }
    }

    /// The product of this matrix and `other`.
    pub fn multiply(&self, other: &Matrix<F>) -> (m: Matrix<F>)
        requires
            self.wf(),
            other.wf(),
            self.columns == other.rows,
            self.rows * other.columns <= usize::MAX,
        ensures
            m.wf(),
            m.rows == self.rows,
            m.columns == other.columns,
            m@ == product(self@, other@, other.columns as nat),
    {
        let mut m = Matrix::<F>::with_dimensions(self.rows, other.columns);
        let ghost expected = product(self@, other@, other.columns as nat);
        let mut r: usize = 0;
        while r < self.rows
            invariant
                r <= self.rows,
                self.wf(),
                other.wf(),
                self.columns == other.rows,
                m.wf(),
                m.rows == self.rows,
                m.columns == other.columns,
                expected == product(self@, other@, other.columns as nat),
                is_grid(m@, m.rows as nat, m.columns as nat),
                forall|q: int| 0 <= q < r ==> #[trigger] m@[q] == expected[q],
            decreases self.rows - r,
        {
            let mut c: usize = 0;
            while c < other.columns
                invariant
                    c <= other.columns,
                    r < self.rows,
                    self.wf(),
                    other.wf(),
                    self.columns == other.rows,
                    m.wf(),
                    m.rows == self.rows,
                    m.columns == other.columns,
                    expected == product(self@, other@, other.columns as nat),
                    is_grid(m@, m.rows as nat, m.columns as nat),
                    forall|q: int| 0 <= q < r ==> #[trigger] m@[q] == expected[q],
                    forall|k: int| 0 <= k < c ==> #[trigger] m@[r as int][k] == expected[r as int][k],
                decreases other.columns - c,
            {
                let ghost left = self@[r as int];
                let ghost right = column(other@, c as int);
                let mut entry = F::zero();
                let mut i: usize = 0;
                while i < self.columns
                    invariant
                        i <= self.columns,
                        r < self.rows,
                        c < other.columns,
                        self.wf(),
                        other.wf(),
                        self.columns == other.rows,
                        left == self@[r as int],
                        right == column(other@, c as int),
                        entry == dot(left.take(i as int), right.take(i as int)),
                    decreases self.columns - i,
                {
                    proof {
                        assert(left.take(i + 1).drop_last() =~= left.take(i as int));
                        assert(right.take(i + 1).drop_last() =~= right.take(i as int));
                    }
                    entry = entry.add(self.get(r, i).mul(other.get(i, c)));
                    i += 1;
                }
                proof {
                    assert(left.take(self.columns as int) =~= left);
                    assert(right.take(self.columns as int) =~= right);
                }
                m.set(r, c, entry);
                c += 1;
            }
            proof {
                assert(m@[r as int] =~= expected[r as int]);
            }
            r += 1;
        }
        proof {
            assert(m@ =~= expected);
        }
        m
    }

    /// The inverse, by Gauss-Jordan elimination on the rows; `None` where the matrix
    /// is singular.
    pub fn invert(self) -> (inverse: Option<Matrix<F>>)
        requires
            self.wf(),
            self.rows == self.columns,
        ensures
            inverse.is_none() <==> is_singular(self@),
            inverse matches Some(inverse) ==> {
                &&& inverse.wf()
                &&& inverse.rows == self.rows
                &&& inverse.columns == self.rows
                &&& product(inverse@, self@, self.rows as nat) == identity::<F>(self.rows as nat)
                &&& product(self@, inverse@, self.rows as nat) == identity::<F>(self.rows as nat)
            },
    {
        let n = self.rows;
        let ghost size = n as nat;
        let ghost initial = self@;
        assert(self.elements.len() <= usize::MAX);
        let mut work = self;
        let mut inverse = Matrix::<F>::identity_matrix(n);
        proof {
            lemma_elimination_starts(initial, size, size);
        }
        let mut i: usize = 0;
        while i < n
            invariant
                i <= n,
                size == n,
                initial == self@,
                work.wf(),
                work.rows == n,
                work.columns == n,
                inverse.wf(),
                inverse.rows == n,
                inverse.columns == n,
                elimination_state(work@, inverse@, initial, size, size),
                identity_before(work@, size, i as int),
            decreases n - i,
        {
            let mut j: usize = i;
            while j < n && work.get(j, i).is_zero()
                invariant
                    i <= j <= n,
                    work.wf(),
                    work.rows == n,
                    work.columns == n,
                    forall|r: int| i <= r < j ==> (#[trigger] work@[r])[i as int] == F::zero_value(),
                decreases n - j,
            {
                j += 1;
            }
            if j >= n {
                proof {
                    let x = missing_pivot_witness(work@, size, i as int);
                    lemma_missing_pivot(work@, size, size, i as int);
                    assert(times_vector(work@, x) == zeros::<F>(work@.len()));
                    assert(zeros::<F>(size)[i as int] == F::zero_value());
                    assert(is_kernel_vector(initial, x));
                }
                return None;
            }
            if i != j {
                proof {
                    lemma_state_after_swap(work@, inverse@, initial, size, size, i as int, j as int);
                }
                work.swap_rows(i, j);
                inverse.swap_rows(i, j);
            }
            let pivot = work.get(i, i);
            if !pivot.is_one() {
                proof {
                    lemma_state_after_scale(work@, inverse@, initial, size, size, i as int, pivot);
                    lemma_zero_quotient(pivot);
                    lemma_quotient_by_itself(pivot);
                }
                work.divide_row(i, pivot);
                inverse.divide_row(i, pivot);
            }
            let mut k: usize = 0;
            while k < n
                invariant
                    k <= n,
                    i < n,
                    size == n,
                    work.wf(),
                    work.rows == n,
                    work.columns == n,
                    inverse.wf(),
                    inverse.rows == n,
                    inverse.columns == n,
                    elimination_state(work@, inverse@, initial, size, size),
                    identity_before(work@, size, i as int),
                    work@[i as int][i as int] == F::one_value(),
                    forall|r: int|
                        0 <= r < k && r != i ==> (#[trigger] work@[r])[i as int] == F::zero_value(),
                decreases n - k,
            {
                if k != i {
                    let u = work.get(k, i);
                    if !u.is_zero() {
                        proof {
                            lemma_state_after_eliminate(
                                work@,
                                inverse@,
                                initial,
                                size,
                                size,
                                k as int,
                                i as int,
                                u,
                            );
                            lemma_product_with_zero(u);
                            F::product_with_one(u);
                            lemma_minus_itself(u);
                            assert forall|c: int| 0 <= c < i implies (#[trigger] work@[k as int][c])
                                .difference(u.product(work@[i as int][c])) == work@[k as int][c] by {
                                lemma_minus_zero(work@[k as int][c]);
                            }
                        }
                        work.eliminate_row(k, i, u);
                        inverse.eliminate_row(k, i, u);
                    }
                }
                k += 1;
            }
            i += 1;
        }
        proof {
            assert forall|r: int| 0 <= r < n implies #[trigger] work@[r] =~= identity::<F>(size)[r] by {
                assert forall|c: int| 0 <= c < n implies work@[r][c] == identity::<F>(size)[r][c] by {
                    assert(work@[r][c] == if r == c {
                        F::one_value()
                    } else {
                        F::zero_value()
                    });
                }
            }
            assert(work@ =~= identity::<F>(size));
            lemma_elimination_ends(inverse@, initial, size);
        }
        Some(inverse)
    }
}

/// `a * b` is `a.multiply(&b)`; it asks for what `multiply` asks for.
impl<F: Field> std::ops::Mul for Matrix<F> {
    type Output = Matrix<F>;

    fn mul(self, other: Matrix<F>) -> (m: Matrix<F>)
        ensures
            m.wf(),
            m.rows == self.rows,
            m.columns == other.columns,
            m@ == product(self@, other@, other.columns as nat),
    {
        self.multiply(&other)
    }
}

impl<F: Field> vstd::std_specs::ops::MulSpecImpl for Matrix<F> {
    open spec fn obeys_mul_spec() -> bool {
        false
    }

    open spec fn mul_req(self, other: Matrix<F>) -> bool {
        &&& self.wf()
        &&& other.wf()
        &&& self.columns == other.rows
        &&& self.rows * other.columns <= usize::MAX
    }

    open spec fn mul_spec(self, other: Matrix<F>) -> Matrix<F> {
        arbitrary()
    }
}

} // verus!
