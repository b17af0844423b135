use bit_matrix::BitMatrix;

fn fixture() -> BitMatrix {
    let points = &[(0, 0), (0, 1), (0, 3), (1, 0), (1, 2), (2, 0), (2, 1), (3, 1), (3, 3)];
    let mut matrix = BitMatrix::new(4, 4);
    for &(i, j) in points {
        matrix.set(i, j, true);
    }
    matrix
}

#[test]
fn test_transitive_closure() {
    let mut matrix = fixture();
    matrix.transitive_closure();

    let mut expected_matrix = BitMatrix::new(4, 4);
    for i in 0..4 {
        for j in 0..4 {
            expected_matrix.set(i, j, true);
        }
    }

    assert_eq!(matrix, expected_matrix);
}

#[test]
fn test_transitive_closure_idempotent() {
    let mut once = fixture();
    once.transitive_closure();
    let mut twice = fixture();
    twice.transitive_closure();
    twice.transitive_closure();
    assert_eq!(once, twice);

    let mut sparse_once = BitMatrix::new(3, 3);
    sparse_once.set(0, 1, true);
    let mut sparse_twice = BitMatrix::new(3, 3);
    sparse_twice.set(0, 1, true);
    sparse_once.transitive_closure();
    sparse_twice.transitive_closure();
    sparse_twice.transitive_closure();
    assert_eq!(sparse_once, sparse_twice);
}

#[test]
fn test_transitive_closure_monotonic() {
    let points = &[(0, 0), (0, 1), (0, 3), (1, 0), (1, 2), (2, 0), (2, 1), (3, 1), (3, 3)];
    let mut matrix = fixture();
    matrix.transitive_closure();
    for &(i, j) in points {
        assert_eq!(matrix.get(i, j), true);
    }
}

#[test]
fn test_transitive_closure_paths_only() {
    let mut matrix = BitMatrix::new(3, 3);
    matrix.set(0, 1, true);
    matrix.set(1, 2, true);
    matrix.transitive_closure();
    assert_eq!(matrix.get(0, 1), true);
    assert_eq!(matrix.get(1, 2), true);
    assert_eq!(matrix.get(0, 2), true);
    assert_eq!(matrix.get(2, 0), false);
    assert_eq!(matrix.get(1, 0), false);
    assert_eq!(matrix.get(0, 0), false);
    assert_eq!(matrix.get(1, 1), false);
    assert_eq!(matrix.get(2, 2), false);
}

#[test]
fn test_reflexive_closure() {
    let mut matrix = BitMatrix::new(3, 5);
    matrix.set(0, 4, true);
    matrix.reflexive_closure();
    for i in 0..3 {
        assert_eq!(matrix.get(i, i), true);
    }
    assert_eq!(matrix.get(0, 4), true);
    for row in 0..3 {
        for col in 0..5 {
            let expected = row == col || (row == 0 && col == 4);
            assert_eq!(matrix.get(row, col), expected);
        }
    }
}

#[test]
fn test_reflexive_then_transitive() {
    let mut a = BitMatrix::new(3, 3);
    a.set(0, 1, true);
    a.set(1, 2, true);
    let mut b = BitMatrix::new(3, 3);
    b.set(0, 1, true);
    b.set(1, 2, true);
    a.reflexive_closure();
    a.transitive_closure();
    b.transitive_closure();
    b.reflexive_closure();
    assert_eq!(a, b);
    for row in 0..3 {
        for col in 0..3 {
            assert_eq!(a.get(row, col), row <= col);
        }
    }
}
