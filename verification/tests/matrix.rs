use fri_security::matrix::{append_columns, bit_reverse_rows, RowMajorMatrix};

#[test]
fn matrices_have_full_rows() {
    let matrix = RowMajorMatrix::new(vec![1, 2, 3, 4, 5, 6], 2).unwrap();
    assert_eq!(matrix.height, 3);
    assert!(RowMajorMatrix::new(vec![1, 2, 3], 2).is_none());
    assert!(RowMajorMatrix::new(vec![1], 0).is_none());
    assert_eq!(RowMajorMatrix::<u8>::new(vec![], 0).unwrap().height, 0);
}

#[test]
fn columns_are_appended_row_by_row() {
    let matrix = RowMajorMatrix::new(vec![1, 2, 3, 4], 2).unwrap();
    let wide = append_columns(&matrix, &[9, 8], 1);
    assert_eq!(wide.values, vec![1, 2, 9, 3, 4, 8]);
    assert_eq!(wide.width, 3);
    assert_eq!(wide.height, 2);
}

#[test]
fn rows_are_reversed_by_their_bits() {
    let matrix = RowMajorMatrix::new((0..8).collect(), 1).unwrap();
    let reversed = bit_reverse_rows(&matrix, 3);
    assert_eq!(reversed.values, vec![0, 4, 2, 6, 1, 5, 3, 7]);
    assert_eq!(bit_reverse_rows(&reversed, 3), matrix);
}
