//! Scenarios on a truncated suanpan: 3 columns, 5 lower beads, 2 upper
//! beads worth 5, radix 10.

use abacus::build_board;
use abacus::Abacus;

fn suanpan() -> Abacus {
    build_board(3, 2, 5, 5, 10).unwrap()
}

#[test]
fn fresh_board_shows_zero() {
    let mut board = suanpan();
    assert_eq!(board.total_value, 0);
    assert_eq!(board.get_total_value().unwrap(), 0);
    for i in 0..3 {
        assert_eq!(board.get_column_value(i).unwrap(), 0);
    }
}

#[test]
fn set_seven_uses_upper_deck() {
    let mut board = suanpan();
    board.set_total_value(7);
    assert_eq!(board.get_column_value(0).unwrap(), 7);
    assert_eq!(board.get_column_value(1).unwrap(), 0);
    assert_eq!(board.get_column_value(2).unwrap(), 0);
    assert_eq!(board.get_total_value().unwrap(), 7);
}

#[test]
fn set_one_two_three() {
    let mut board = suanpan();
    board.set_total_value(123);
    assert_eq!(board.get_column_value(0).unwrap(), 3);
    assert_eq!(board.get_column_value(1).unwrap(), 2);
    assert_eq!(board.get_column_value(2).unwrap(), 1);
    assert_eq!(board.get_total_value().unwrap(), 123);
}

#[test]
fn ceiling_and_clamping() {
    // the upper deck contributes its weight once, whatever its bead count,
    // so each column tops out at 5 + 5 and the board at 10 + 100 + 1000
    let mut board = suanpan();
    assert_eq!(board.max_total_value().unwrap(), 1110);
    board.set_total_value(9999);
    // the cache holds the clamped request; the columns, wider than the
    // radix, land below it under greedy base-10 distribution
    assert_eq!(board.total_value, 1110);
    assert_eq!(board.get_column_value(2).unwrap(), 10);
    assert_eq!(board.get_column_value(1).unwrap(), 1);
    assert_eq!(board.get_column_value(0).unwrap(), 0);
    assert_eq!(board.get_total_value().unwrap(), 1010);
}

#[test]
fn column_write_clamps_to_column_ceiling() {
    let mut board = suanpan();
    assert_eq!(board.max_value(1).unwrap(), 10);
    assert_eq!(board.set_column_value(1, 20).unwrap(), 10);
    assert_eq!(board.get_column_value(1).unwrap(), 10);
}

#[test]
fn lower_click_toggle_twice() {
    let mut board = suanpan();
    board.click_lower_bead(0, 3).unwrap();
    assert_eq!(board.get_column_value(0).unwrap(), 3);
    board.click_lower_bead(0, 3).unwrap();
    assert_eq!(board.get_column_value(0).unwrap(), 2);
}
