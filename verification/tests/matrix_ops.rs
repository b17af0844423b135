use bit_matrix::BitMatrix;

#[test]
fn test_empty() {
    let mut matrix = BitMatrix::new(0, 0);
    for _ in 0..3 {
        assert_eq!(matrix.num_rows(), 0);
        assert_eq!(matrix.size(), (0, 0));
        matrix.transitive_closure();
    }
}

#[test]
fn test_new_all_false() {
    let matrix = BitMatrix::new(3, 70);
    assert_eq!(matrix.size(), (3, 70));
    for row in 0..3 {
        for col in 0..70 {
            assert_eq!(matrix.get(row, col), false);
        }
    }
}

#[test]
fn test_new_zero_width_has_no_rows() {
    let matrix = BitMatrix::new(7, 0);
    assert_eq!(matrix.size(), (0, 0));
}

#[test]
fn test_set_get() {
    let mut matrix = BitMatrix::new(4, 37);
    matrix.set(2, 36, true);
    assert_eq!(matrix.get(2, 36), true);
    assert_eq!(matrix.get(2, 35), false);
    assert_eq!(matrix.get(1, 36), false);
    assert_eq!(matrix.get(3, 36), false);
    matrix.set(2, 36, false);
    assert_eq!(matrix.get(2, 36), false);
}

#[test]
fn test_set_idempotent() {
    let mut once = BitMatrix::new(4, 4);
    once.set(1, 2, true);
    let mut twice = BitMatrix::new(4, 4);
    twice.set(1, 2, true);
    twice.set(1, 2, true);
    assert_eq!(once, twice);
    twice.set(1, 2, false);
    twice.set(1, 2, false);
    let empty = BitMatrix::new(4, 4);
    assert_eq!(twice, empty);
}

#[test]
fn test_set_all() {
    let mut matrix = BitMatrix::new(2, 5);
    matrix.set_all(true);
    for row in 0..2 {
        for col in 0..5 {
            assert_eq!(matrix.get(row, col), true);
        }
    }
    matrix.set_all(false);
    for row in 0..2 {
        for col in 0..5 {
            assert_eq!(matrix.get(row, col), false);
        }
    }
}

#[test]
fn test_grow_rows() {
    let mut matrix = BitMatrix::new(2, 3);
    matrix.set(0, 1, true);
    matrix.grow(2, true);
    assert_eq!(matrix.size(), (4, 3));
    assert_eq!(matrix.get(0, 1), true);
    assert_eq!(matrix.get(0, 0), false);
    assert_eq!(matrix.get(1, 2), false);
    for row in 2..4 {
        for col in 0..3 {
            assert_eq!(matrix.get(row, col), true);
        }
    }
}

#[test]
fn test_grow_then_truncate() {
    let points = &[(0, 0), (0, 1), (0, 3), (1, 0), (1, 2), (2, 0), (2, 1), (3, 1), (3, 3)];
    let mut matrix = BitMatrix::new(4, 4);
    let mut expected = BitMatrix::new(4, 4);
    for &(i, j) in points {
        matrix.set(i, j, true);
        expected.set(i, j, true);
    }
    matrix.grow(3, true);
    assert_eq!(matrix.size(), (7, 4));
    matrix.truncate(4);
    assert_eq!(matrix.size(), (4, 4));
    assert_eq!(matrix, expected);
}

#[test]
fn test_truncate_beyond_is_noop() {
    let mut matrix = BitMatrix::new(3, 4);
    matrix.set(2, 3, true);
    matrix.truncate(10);
    assert_eq!(matrix.size(), (3, 4));
    assert_eq!(matrix.get(2, 3), true);
}

#[test]
fn test_parts_round_trip() {
    let mut matrix = BitMatrix::new(5, 37);
    matrix.set(0, 0, true);
    matrix.set(4, 36, true);
    matrix.set(2, 31, true);
    matrix.set(2, 32, true);
    let (row_bits, words) = matrix.to_parts();
    assert_eq!(row_bits, 37);
    assert_eq!(words.len(), 10);
    let rebuilt = BitMatrix::from_parts(row_bits, words).unwrap();
    assert_eq!(rebuilt, matrix);
    assert_eq!(rebuilt.get(4, 36), true);
    assert_eq!(rebuilt.get(2, 31), true);
    assert_eq!(rebuilt.get(2, 32), true);
    assert_eq!(rebuilt.get(2, 33), false);
}

#[test]
fn test_parts_rejects_partial_rows() {
    assert!(BitMatrix::from_parts(33, vec![0u32; 3]).is_none());
    assert!(BitMatrix::from_parts(0, vec![1u32]).is_none());
    assert!(BitMatrix::from_parts(33, vec![0u32; 4]).is_some());
    assert!(BitMatrix::from_parts(0, Vec::new()).is_some());
}

#[test]
fn test_iter_row() {
    let mut matrix = BitMatrix::new(2, 4);
    matrix.set(1, 0, true);
    matrix.set(1, 3, true);
    let mut iter = matrix.iter_row(1);
    assert_eq!(iter.next(), Some(true));
    assert_eq!(iter.next(), Some(false));
    assert_eq!(iter.next(), Some(false));
    assert_eq!(iter.next(), Some(true));
    assert_eq!(iter.next(), None);
    assert_eq!(iter.next(), None);
}
