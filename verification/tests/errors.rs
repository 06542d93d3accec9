//! Every failure the model reports, provoked once.

use abacus::build_board;
use abacus::AbacusError;

#[test]
fn config_error_on_small_radix() {
    assert_eq!(build_board(3, 2, 5, 5, 0).unwrap_err(), AbacusError::ConfigError);
    assert_eq!(build_board(3, 2, 5, 5, 1).unwrap_err(), AbacusError::ConfigError);
    assert!(build_board(3, 2, 5, 5, 2).is_ok());
}

#[test]
fn config_error_on_unrepresentable_column_ceiling() {
    assert_eq!(build_board(1, 1, u64::MAX, 1, 10).unwrap_err(), AbacusError::ConfigError);
    // without an upper deck the same lower deck is fine
    assert!(build_board(1, 0, u64::MAX, 1, 10).is_ok());
}

#[test]
fn index_error_on_column_operations() {
    let mut board = build_board(3, 2, 5, 5, 10).unwrap();
    assert_eq!(board.get_column_value(3).unwrap_err(), AbacusError::IndexError);
    assert_eq!(board.max_value(3).unwrap_err(), AbacusError::IndexError);
    assert_eq!(board.set_column_value(3, 1).unwrap_err(), AbacusError::IndexError);
    assert_eq!(board.click_lower_bead(3, 1).unwrap_err(), AbacusError::IndexError);
    assert_eq!(board.click_upper_bead(3, 1).unwrap_err(), AbacusError::IndexError);
    assert!(board.get_column_value(2).is_ok());
}

#[test]
fn index_error_on_bead_positions() {
    let mut board = build_board(3, 2, 5, 5, 10).unwrap();
    assert_eq!(board.click_lower_bead(0, 0).unwrap_err(), AbacusError::IndexError);
    assert_eq!(board.click_lower_bead(0, 6).unwrap_err(), AbacusError::IndexError);
    assert_eq!(board.click_upper_bead(0, 0).unwrap_err(), AbacusError::IndexError);
    assert_eq!(board.click_upper_bead(0, 3).unwrap_err(), AbacusError::IndexError);
    assert!(board.click_lower_bead(0, 5).is_ok());
    assert!(board.click_upper_bead(0, 2).is_ok());
}

#[test]
fn failed_operations_leave_the_board_alone() {
    let mut board = build_board(3, 2, 5, 5, 10).unwrap();
    board.set_total_value(123);
    let before = board.get_total_value().unwrap();
    assert!(board.set_column_value(7, 9).is_err());
    assert!(board.click_lower_bead(0, 99).is_err());
    assert_eq!(board.get_total_value().unwrap(), before);
}

#[test]
fn overflow_error_on_word_overflow() {
    // 21 columns of digits up to 15 under radix 10 can show far more than a
    // machine word holds
    let mut board = build_board(21, 2, 5, 5, 10).unwrap();
    assert_eq!(board.max_total_value().unwrap_err(), AbacusError::OverflowError);
    for i in 0..21 {
        board.set_column_value(i, 9).unwrap();
    }
    let cached = board.total_value;
    assert_eq!(board.get_total_value().unwrap_err(), AbacusError::OverflowError);
    // the failed read left the cache alone
    assert_eq!(board.total_value, cached);
}

#[test]
fn writes_fit_even_when_the_ceiling_does_not() {
    // the ceiling of this board overflows a word, so no word-sized target
    // is clamped
    let mut board = build_board(21, 2, 5, 5, 10).unwrap();
    board.set_total_value(123_456_789);
    assert_eq!(board.get_total_value().unwrap(), 123_456_789);
    board.set_total_value(u64::MAX);
    assert_eq!(board.get_total_value().unwrap(), u64::MAX);
}
