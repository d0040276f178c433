use parry::gf8::Gf8;
use parry::matrix::Matrix;

#[test]
fn inverse_identity() {
    for i in 0..20 {
        let matrix = Matrix::<Gf8>::identity_matrix(i);
        let inverse_matrix = matrix
            .clone()
            .invert()
            .expect("Identity matrix is invertible");
        assert!(matrix == inverse_matrix);
    }
}

#[test]
fn inverse() {
    let matrix = Matrix {
        rows: 3,
        columns: 3,
        elements: vec![1, 0, 3, 3, 2, 17, 2, 1, 3]
            .into_iter()
            .map(Gf8)
            .collect::<Vec<Gf8>>(),
    };

    let inverse_matrix = matrix.clone().invert().expect("Matrix is invertible");

    assert!(
        matrix.clone() * inverse_matrix.clone() == Matrix::<Gf8>::identity_matrix(3),
        "{:?}",
        matrix * inverse_matrix.clone()
    );
}

#[test]
fn encoding_matrix() {
    let matrix = Matrix::<Gf8>::encoding_matrix(4, 2);
    assert!(
        matrix
            == Matrix {
                rows: 6,
                columns: 4,
                elements: vec![
                    Gf8(0x01u8),
                    Gf8(0x00u8),
                    Gf8(0x00u8),
                    Gf8(0x00u8),
                    Gf8(0x00u8),
                    Gf8(0x01u8),
                    Gf8(0x00u8),
                    Gf8(0x00u8),
                    Gf8(0x00u8),
                    Gf8(0x00u8),
                    Gf8(0x01u8),
                    Gf8(0x00u8),
                    Gf8(0x00u8),
                    Gf8(0x00u8),
                    Gf8(0x00u8),
                    Gf8(0x01u8),
                    Gf8(0x1bu8),
                    Gf8(0x1cu8),
                    Gf8(0x12u8),
                    Gf8(0x14u8),
                    Gf8(0x1cu8),
                    Gf8(0x1bu8),
                    Gf8(0x14u8),
                    Gf8(0x12u8),
                ]
            },
        "{:?}",
        matrix
    )
}

fn matrix(rows: usize, columns: usize, bytes: &[u8]) -> Matrix<Gf8> {
    Matrix::from_elements(rows, columns, bytes.iter().map(|byte| Gf8(*byte)).collect())
        .expect("as many elements as the dimensions ask for")
}

#[test]
fn from_elements_asks_for_rows_times_columns() {
    assert!(Matrix::from_elements(2, 3, vec![Gf8(0); 6]).is_some());
    assert!(Matrix::from_elements(2, 3, vec![Gf8(0); 5]).is_none());
    assert!(Matrix::from_elements(usize::MAX, 2, vec![Gf8(0); 2]).is_none());
    assert!(Matrix::<Gf8>::from_elements(0, 7, vec![]).is_some());
}

#[test]
fn with_dimensions_is_zero_everywhere() {
    assert_eq!(Matrix::<Gf8>::with_dimensions(2, 3), matrix(2, 3, &[0; 6]));
    assert_eq!(Matrix::<Gf8>::with_dimensions(0, 3).elements.len(), 0);
}

#[test]
fn get_and_set_address_row_then_column() {
    let mut m = matrix(2, 3, &[1, 2, 3, 4, 5, 6]);
    assert_eq!(m.get(0, 2), Gf8(3));
    assert_eq!(m.get(1, 0), Gf8(4));
    m.set(1, 2, Gf8(9));
    assert_eq!(m, matrix(2, 3, &[1, 2, 3, 4, 5, 9]));
}

#[test]
fn swap_rows_and_columns() {
    let mut m = matrix(3, 2, &[1, 2, 3, 4, 5, 6]);
    m.swap_rows(0, 2);
    assert_eq!(m, matrix(3, 2, &[5, 6, 3, 4, 1, 2]));
    m.swap_columns(1, 0);
    assert_eq!(m, matrix(3, 2, &[6, 5, 4, 3, 2, 1]));
}

#[test]
fn row_and_column_operations() {
    let mut m = matrix(2, 2, &[2, 4, 1, 3]);
    m.divide_row(0, Gf8(2));
    assert_eq!(m, matrix(2, 2, &[1, 2, 1, 3]));
    m.eliminate_row(1, 0, Gf8(1));
    assert_eq!(m, matrix(2, 2, &[1, 2, 0, 1]));
    m.eliminate_column(1, 0, Gf8(2));
    assert_eq!(m, matrix(2, 2, &[1, 0, 0, 1]));
    let mut m = matrix(2, 2, &[2, 0, 4, 1]);
    m.normalize_column(0);
    assert_eq!(m, matrix(2, 2, &[1, 0, 2, 1]));
}

#[test]
fn select_rows_follows_the_selection() {
    let m = matrix(3, 2, &[1, 2, 3, 4, 5, 6]);
    assert_eq!(m.select_rows(&vec![2, 0]), matrix(2, 2, &[5, 6, 1, 2]));
    assert_eq!(m.select_rows(&vec![]), matrix(0, 2, &[]));
}

#[test]
fn multiply_is_rows_times_columns() {
    let a = matrix(2, 3, &[1, 2, 3, 4, 5, 6]);
    let b = matrix(3, 1, &[1, 1, 1]);
    // 1 + 2 + 3 and 4 + 5 + 6 in the field
    assert_eq!(a.multiply(&b), matrix(2, 1, &[0, 7]));
    let identity = Matrix::<Gf8>::identity_matrix(3);
    assert_eq!(a.multiply(&identity), a);
}

#[test]
fn invert_of_a_singular_matrix_is_none() {
    assert!(matrix(2, 2, &[1, 2, 1, 2]).invert().is_none());
    assert!(matrix(3, 3, &[1, 2, 3, 4, 5, 6, 5, 7, 5]).invert().is_none());
    assert!(matrix(1, 1, &[0]).invert().is_none());
    assert!(matrix(2, 2, &[0, 1, 1, 0]).invert().is_some());
}

#[test]
fn invert_gives_an_inverse_on_both_sides() {
    let m = matrix(3, 3, &[0, 1, 2, 3, 0, 5, 6, 7, 0]);
    let inverse = m.clone().invert().expect("the matrix is invertible");
    let identity = Matrix::<Gf8>::identity_matrix(3);
    assert_eq!(m.multiply(&inverse), identity);
    assert_eq!(inverse.multiply(&m), identity);
}

#[test]
fn vandermonde_rows_are_the_powers_of_the_row_number() {
    assert_eq!(
        Matrix::<Gf8>::vandermonde_matrix(3, 1),
        matrix(4, 3, &[1, 0, 0, 1, 1, 1, 1, 2, 4, 1, 3, 5])
    );
}

#[test]
fn encoding_matrix_times_the_top_of_vandermonde_is_vandermonde() {
    for (data_shards, parity_shards) in [(1, 0), (1, 3), (4, 2), (10, 4), (17, 3)] {
        let encoding = Matrix::<Gf8>::encoding_matrix(data_shards, parity_shards);
        let vandermonde = Matrix::<Gf8>::vandermonde_matrix(data_shards, parity_shards);
        let top = vandermonde.select_rows(&(0..data_shards).collect());
        assert_eq!(encoding.multiply(&top), vandermonde);
        assert_eq!(
            encoding.select_rows(&(0..data_shards).collect()),
            Matrix::<Gf8>::identity_matrix(data_shards)
        );
    }
}

#[test]
fn any_four_rows_of_the_encoding_matrix_are_invertible() {
    let encoding = Matrix::<Gf8>::encoding_matrix(4, 2);
    for a in 0..6 {
        for b in a + 1..6 {
            for c in b + 1..6 {
                for d in c + 1..6 {
                    assert!(encoding.select_rows(&vec![a, b, c, d]).invert().is_some());
                }
            }
        }
    }
}

#[test]
fn encoding_matrix_for_all_256_shards() {
    let encoding = Matrix::<Gf8>::encoding_matrix(200, 56);
    assert_eq!(encoding.rows, 256);
    assert_eq!(encoding.columns, 200);
    assert_eq!(
        encoding.select_rows(&(0..200).collect()),
        Matrix::<Gf8>::identity_matrix(200)
    );
}
