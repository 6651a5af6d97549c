use xenon::history::{new_history_record, update_history_record};
use xenon::types::MinerEpoches;

#[test]
fn fresh_record_holds_capped_value_in_its_slot() {
    let r = new_history_record(13, 5);
    assert_eq!(r.last_epoch, 13);
    assert_eq!(r.total_count, 5);
    assert_eq!(r.epochs, [0, 0, 0, 5, 0, 0, 0, 0, 0, 0]);
}

#[test]
fn fresh_record_caps_slot_but_not_total() {
    let r = new_history_record(20, 40);
    assert_eq!(r.epochs, [12, 0, 0, 0, 0, 0, 0, 0, 0, 0]);
    assert_eq!(r.total_count, 40);
}

#[test]
fn advancing_by_one_epoch_keeps_older_slots() {
    let rec = MinerEpoches { epochs: [1, 2, 3, 4, 5, 6, 7, 8, 9, 10], last_epoch: 11, total_count: 55 };
    let r = update_history_record(rec, 12, 7);
    assert_eq!(r.epochs, [1, 2, 7, 4, 5, 6, 7, 8, 9, 10]);
    assert_eq!(r.last_epoch, 12);
    assert_eq!(r.total_count, 59);
}

#[test]
fn skipped_epochs_are_cleared() {
    let rec = MinerEpoches { epochs: [1, 2, 3, 4, 5, 6, 7, 8, 9, 10], last_epoch: 11, total_count: 55 };
    let r = update_history_record(rec, 15, 30);
    // epochs 12, 13, 14 were skipped; epoch 15 gets the capped report
    assert_eq!(r.epochs, [1, 2, 0, 0, 0, 12, 7, 8, 9, 10]);
    assert_eq!(r.total_count, 1 + 2 + 12 + 7 + 8 + 9 + 10);
}

#[test]
fn a_long_gap_clears_the_whole_window() {
    let rec = MinerEpoches { epochs: [3; 10], last_epoch: 4, total_count: 30 };
    let r = update_history_record(rec, 40, 2);
    assert_eq!(r.epochs, [2, 0, 0, 0, 0, 0, 0, 0, 0, 0]);
    assert_eq!(r.total_count, 2);
    assert_eq!(r.last_epoch, 40);
}

#[test]
fn gap_of_exactly_the_window_clears_everything() {
    let rec = MinerEpoches { epochs: [3; 10], last_epoch: 7, total_count: 30 };
    let r = update_history_record(rec, 17, 4);
    assert_eq!(r.epochs, [0, 0, 0, 0, 0, 0, 0, 4, 0, 0]);
    assert_eq!(r.total_count, 4);
}

#[test]
fn window_slots_stay_capped_and_total_bounded() {
    let mut rec = new_history_record(1, 100);
    for e in 2..30u32 {
        rec = update_history_record(rec, e, 1000);
        assert!(rec.epochs.iter().all(|s| *s <= 12));
        assert!(rec.total_count <= 120);
    }
    assert_eq!(rec.total_count, 120);
}
