use bit_matrix::row::BitSlice;
use bit_matrix::submatrix::BitSubMatrixMut;
use bit_matrix::BitMatrix;

fn fixture_5x4() -> BitMatrix {
    let points = &[
        (0, 0),
        (0, 1),
        (0, 3),
        (1, 0),
        (1, 2),
        (2, 0),
        (2, 1),
        (3, 1),
        (3, 3),
        (4, 3),
    ];
    let mut matrix = BitMatrix::new(5, 4);
    for &(i, j) in points {
        matrix.set(i, j, true);
    }
    matrix
}

#[test]
fn test_submatrix() {
    let matrix = fixture_5x4();
    let submatrix = matrix.sub_matrix(1..4);
    let mut iter = submatrix.iter();
    assert_eq!(iter.next().unwrap().get(0), true);
    assert_eq!(iter.next().unwrap().get(2), false);
    assert_eq!(iter.next().unwrap().small_slice_aligned(1, 3), 0b101);
}

#[test]
fn test_submatrix_rows_match_parent() {
    let matrix = fixture_5x4();
    let submatrix = matrix.sub_matrix(1..4);
    let mut iter = submatrix.iter();
    for row in 1..4 {
        let slice = iter.next().unwrap();
        for col in 0..4 {
            assert_eq!(slice.get(col), matrix.get(row, col));
        }
    }
    assert!(iter.next().is_none());
}

#[test]
fn test_split_at() {
    let matrix = fixture_5x4();
    let (upper, lower) = matrix.split_at(2);
    let mut upper_iter = upper.iter();
    for row in 0..2 {
        let slice = upper_iter.next().unwrap();
        for col in 0..4 {
            assert_eq!(slice.get(col), matrix.get(row, col));
        }
    }
    assert!(upper_iter.next().is_none());
    let mut lower_iter = lower.iter();
    for row in 2..5 {
        let slice = lower_iter.next().unwrap();
        for col in 0..4 {
            assert_eq!(slice.get(col), matrix.get(row, col));
        }
    }
    assert!(lower_iter.next().is_none());
}

#[test]
fn test_submatrix_mut_set_get() {
    let mut view = BitSubMatrixMut::new(vec![0u32; 3], 4);
    assert_eq!(view.num_rows(), 3);
    view.set(1, 2, true);
    assert_eq!(view.get(1, 2), true);
    assert_eq!(view.get(1, 1), false);
    assert_eq!(view.get(0, 2), false);
    view.set(1, 2, false);
    assert_eq!(view.get(1, 2), false);
}

#[test]
fn test_split_at_mut() {
    let mut view = BitSubMatrixMut::new(vec![0u32; 5], 4);
    for row in 0..5 {
        view.set(row, row % 4, true);
    }
    let (mut upper, mut lower) = view.split_at_mut(2);
    assert_eq!(upper.num_rows(), 2);
    assert_eq!(lower.num_rows(), 3);
    assert_eq!(upper.get(0, 0), true);
    assert_eq!(upper.get(1, 1), true);
    assert_eq!(lower.get(0, 2), true);
    assert_eq!(lower.get(1, 3), true);
    assert_eq!(lower.get(2, 0), true);
    upper.set(0, 3, true);
    lower.set(2, 1, true);
    assert_eq!(upper.get(0, 3), true);
    assert_eq!(lower.get(2, 1), true);
}

#[test]
fn test_submatrix_mut_sub_matrix() {
    let mut view = BitSubMatrixMut::new(vec![0u32; 4], 3);
    view.set(1, 0, true);
    view.set(2, 2, true);
    let sub = view.sub_matrix(1..3);
    let mut iter = sub.iter();
    let first = iter.next().unwrap();
    assert_eq!(first.get(0), true);
    assert_eq!(first.get(1), false);
    let second = iter.next().unwrap();
    assert_eq!(second.get(2), true);
    assert!(iter.next().is_none());
}

#[test]
fn test_submatrix_mut_split_at() {
    let mut view = BitSubMatrixMut::new(vec![0u32; 3], 2);
    view.set(0, 1, true);
    view.set(2, 0, true);
    let (upper, lower) = view.split_at(1);
    let mut upper_iter = upper.iter();
    assert_eq!(upper_iter.next().unwrap().get(1), true);
    assert!(upper_iter.next().is_none());
    let mut lower_iter = lower.iter();
    assert_eq!(lower_iter.next().unwrap().get(0), false);
    assert_eq!(lower_iter.next().unwrap().get(0), true);
}

#[test]
fn test_submatrix_transitive_closure() {
    let mut view = BitSubMatrixMut::new(vec![0u32; 3], 3);
    view.set(0, 1, true);
    view.set(1, 2, true);
    view.transitive_closure();
    assert_eq!(view.get(0, 2), true);
    assert_eq!(view.get(0, 1), true);
    assert_eq!(view.get(1, 2), true);
    assert_eq!(view.get(2, 0), false);
}

#[test]
fn test_submatrix_reflexive_closure() {
    let mut view = BitSubMatrixMut::new(vec![0u32; 2], 5);
    view.reflexive_closure();
    for row in 0..2 {
        for col in 0..5 {
            assert_eq!(view.get(row, col), row == col);
        }
    }
}

#[test]
fn test_small_slice_aligned() {
    let slice = BitSlice::new(vec![0b1011_0100u32, 0xffff_ffffu32]);
    assert_eq!(slice.small_slice_aligned(2, 4), 0b1101);
    assert_eq!(slice.small_slice_aligned(0, 8), 0b1011_0100);
    assert_eq!(slice.small_slice_aligned(32, 8), 0xff);
    assert_eq!(slice.small_slice_aligned(0, 32), 0b1011_0100);
    assert_eq!(slice.small_slice_aligned(64, 7), 0);
}

#[test]
fn test_bit_slice_get_past_end() {
    let slice = BitSlice::new(vec![0b1u32]);
    assert_eq!(slice.get(0), true);
    assert_eq!(slice.get(1), false);
    assert_eq!(slice.get(31), false);
    assert_eq!(slice.get(32), false);
    assert_eq!(slice.get(1000), false);
}

#[test]
fn test_iter_bits() {
    let slice = BitSlice::new(vec![0b0110u32]);
    let mut iter = slice.iter_bits(4);
    assert_eq!(iter.next(), Some(false));
    assert_eq!(iter.next(), Some(true));
    assert_eq!(iter.next(), Some(true));
    assert_eq!(iter.next(), Some(false));
    assert_eq!(iter.next(), None);
}

#[test]
fn test_iter_blocks() {
    let slice = BitSlice::new(vec![7u32, 9u32]);
    let blocks = slice.iter_blocks();
    assert_eq!(blocks, vec![7u32, 9u32]);
}
