use dice_engine::expr::Limits;
use dice_engine::format::format_result;
use dice_engine::roll::{roll, RollResult};

#[test]
fn formats_two_rolls_and_total() {
    let r = RollResult { rolls: vec![3, 5], total: 8 };
    assert_eq!(format_result(&r), " 3 5 (total 8)");
}

#[test]
fn formats_single_roll() {
    let r = RollResult { rolls: vec![7], total: 7 };
    assert_eq!(format_result(&r), " 7 (total 7)");
}

#[test]
fn formats_no_rolls() {
    let r = RollResult { rolls: vec![], total: 0 };
    assert_eq!(format_result(&r), " (total 0)");
}

#[test]
fn formats_large_values() {
    let r = RollResult { rolls: vec![100000, 1, 99999], total: 200000 };
    assert_eq!(format_result(&r), " 100000 1 99999 (total 200000)");
}

#[test]
fn formats_zero_valued_total_digitwise() {
    let r = RollResult { rolls: vec![10, 20, 30], total: 60 };
    assert_eq!(format_result(&r), " 10 20 30 (total 60)");
}

#[test]
fn formatted_roll_matches_drawn_values() {
    let r = roll("2d6", &Limits::default()).unwrap();
    let expected = format!(" {} {} (total {})", r.rolls[0], r.rolls[1], r.total);
    assert_eq!(format_result(&r), expected);
}
