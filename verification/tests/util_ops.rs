use bit_matrix::util::{div_rem, round_up_to_next};

#[test]
fn test_div_rem() {
    assert_eq!(div_rem(37, 32), (1, 5));
    assert_eq!(div_rem(64, 32), (2, 0));
    assert_eq!(div_rem(0, 7), (0, 0));
    assert_eq!(div_rem(5, 8), (0, 5));
}

#[test]
fn test_round_up_to_next() {
    assert_eq!(round_up_to_next(0, 32), 0);
    assert_eq!(round_up_to_next(1, 32), 32);
    assert_eq!(round_up_to_next(32, 32), 32);
    assert_eq!(round_up_to_next(33, 32), 64);
    assert_eq!(round_up_to_next(7, 1), 7);
    assert_eq!(round_up_to_next(5, 4), 8);
}
