use tesseract::matrix::transpose;

#[test]
fn transpose_swaps_rows_and_columns() {
    let m: [[i64; 4]; 4] = [[1, 2, 3, 4], [5, 6, 7, 8], [9, 10, 11, 12], [13, 14, 15, 16]];
    let t = transpose(m);
    assert_eq!(t, [[1, 5, 9, 13], [2, 6, 10, 14], [3, 7, 11, 15], [4, 8, 12, 16]]);
}

#[test]
fn transpose_twice_gives_back_the_matrix() {
    let m: [[f64; 4]; 4] = [
        [0.5, -1.0, 2.0, 0.0],
        [3.25, 4.0, -0.75, 1.0],
        [0.0, 0.0, 1.0, -2.5],
        [7.0, 8.5, 9.0, 10.0],
    ];
    assert_ne!(transpose(m), m);
    assert_eq!(transpose(transpose(m)), m);
}

#[test]
fn transpose_keeps_a_symmetric_matrix() {
    let m: [[u8; 4]; 4] = [[1, 2, 3, 4], [2, 5, 6, 7], [3, 6, 8, 9], [4, 7, 9, 0]];
    assert_eq!(transpose(m), m);
}
