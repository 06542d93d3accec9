//! The value model's laws checked on concrete boards, standard and not.

use abacus::build_board;

#[test]
fn idempotence_on_standard_board() {
    let mut board = build_board(3, 2, 5, 5, 10).unwrap();
    board.set_total_value(9999);
    let a = board.get_total_value().unwrap();
    board.set_total_value(a);
    assert_eq!(board.get_total_value().unwrap(), a);
}

#[test]
fn idempotence_on_overwide_columns() {
    // two columns of ceiling 3 under radix 2: the first write of 9 cannot
    // land exactly, but re-writing the reading moves nothing
    let mut board = build_board(2, 0, 3, 1, 2).unwrap();
    assert_eq!(board.max_total_value().unwrap(), 9);
    board.set_total_value(9);
    let a = board.get_total_value().unwrap();
    assert_eq!(a, 7);
    board.set_total_value(a);
    assert_eq!(board.get_total_value().unwrap(), 7);
}

#[test]
fn round_trip_every_value_in_range() {
    // two standard base-10 columns in the soroban shape: 4 lower beads and
    // one upper bead worth 5
    let mut board = build_board(2, 1, 4, 5, 10).unwrap();
    assert_eq!(board.max_total_value().unwrap(), 99);
    for v in 0..=99u64 {
        board.set_total_value(v);
        assert_eq!(board.get_total_value().unwrap(), v);
    }
}

#[test]
fn gap_column_diverges_from_round_trip() {
    // one column with 2 lower beads and an upper bead worth 5 has ceiling 7
    // but no arrangement for 3 or 4: a write of 4 lands on 2
    let mut board = build_board(1, 1, 2, 5, 10).unwrap();
    assert_eq!(board.max_value(0).unwrap(), 7);
    board.set_total_value(4);
    assert_eq!(board.get_total_value().unwrap(), 2);
    board.set_total_value(5);
    assert_eq!(board.get_total_value().unwrap(), 5);
}

#[test]
fn clamping_beyond_ceiling() {
    let mut board = build_board(4, 1, 4, 5, 10).unwrap();
    let ceiling = board.max_total_value().unwrap();
    assert_eq!(ceiling, 9999);
    board.set_total_value(ceiling + 1);
    assert_eq!(board.get_total_value().unwrap(), ceiling);
    board.set_total_value(u64::MAX);
    assert_eq!(board.get_total_value().unwrap(), ceiling);
}

#[test]
fn column_write_is_exact_within_range() {
    let mut board = build_board(1, 2, 5, 5, 10).unwrap();
    let ceiling = board.max_value(0).unwrap();
    assert_eq!(ceiling, 10);
    for x in 0..=ceiling {
        assert_eq!(board.set_column_value(0, x).unwrap(), x);
        assert_eq!(board.get_column_value(0).unwrap(), x);
    }
    assert_eq!(board.set_column_value(0, ceiling + 7).unwrap(), ceiling);
    assert_eq!(board.get_column_value(0).unwrap(), ceiling);
}

#[test]
fn upper_click_toggles_weight() {
    let mut board = build_board(1, 2, 5, 5, 10).unwrap();
    board.click_upper_bead(0, 1).unwrap();
    assert_eq!(board.get_column_value(0).unwrap(), 5);
    board.click_upper_bead(0, 1).unwrap();
    assert_eq!(board.get_column_value(0).unwrap(), 0);
    // a click on the second bead from one active leaves two active, and the
    // even count takes the weight back off
    board.click_upper_bead(0, 1).unwrap();
    board.click_upper_bead(0, 2).unwrap();
    assert_eq!(board.get_column_value(0).unwrap(), 0);
}

#[test]
fn lower_clicks_walk_the_deck() {
    let mut board = build_board(1, 0, 5, 1, 10).unwrap();
    for p in 1..=5u64 {
        board.click_lower_bead(0, p).unwrap();
        assert_eq!(board.get_column_value(0).unwrap(), p);
    }
    board.click_lower_bead(0, 5).unwrap();
    assert_eq!(board.get_column_value(0).unwrap(), 4);
}

#[test]
fn empty_board_shows_only_zero() {
    let mut board = build_board(0, 2, 5, 5, 10).unwrap();
    assert_eq!(board.column_count(), 0);
    assert_eq!(board.max_total_value().unwrap(), 0);
    board.set_total_value(12345);
    assert_eq!(board.get_total_value().unwrap(), 0);
}

#[test]
fn single_word_sized_column() {
    let mut board = build_board(1, 0, u64::MAX, 1, 10).unwrap();
    assert_eq!(board.max_total_value().unwrap(), u64::MAX);
    board.set_total_value(u64::MAX);
    assert_eq!(board.get_total_value().unwrap(), u64::MAX);
}
