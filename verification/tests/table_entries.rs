use lattice::board::{Move, MoveType, Square};
use lattice::tt::{Bound, Miss, TranspositionTable};

fn mv(from: u8, to: u8) -> Move {
    Move::new(Square::new_unchecked(from), Square::new_unchecked(to), MoveType::Quiet)
}

#[test]
fn roundtrips_every_field() {
    let mut tt = TranspositionTable::new();
    let m = mv(12, 28);
    tt.store(0xdead_beef_1234_5678, -1234, Some(m), 7, Bound::Upper);
    let entry = tt.probe(0xdead_beef_1234_5678).expect("just stored");
    assert_eq!(entry.score, -1234);
    assert_eq!(entry.best_move, Some(m));
    assert_eq!(entry.depth, 7);
    assert_eq!(entry.bound, Bound::Upper);
}

#[test]
fn a_different_key_in_the_same_slot_misses() {
    let mut tt = TranspositionTable::new();
    let key = 0xffff_0000_0000_0000;
    let other = key | 1;
    tt.store(key, 42, Some(mv(1, 2)), 4, Bound::Exact);
    assert_eq!(tt.index(key), tt.index(other));
    assert!(tt.probe(other).is_none(), "key check must reject");
    assert!(tt.probe(key).is_some());
}

#[test]
fn a_miss_reports_whether_the_slot_was_empty_or_taken() {
    let mut tt = TranspositionTable::new();
    let key = 0xffff_0000_0000_0000;
    let other = key | 1;
    assert_eq!(tt.index(key), tt.index(other));
    assert_eq!(tt.probe_kind(key).1, Miss::Empty);
    tt.store(key, 42, Some(mv(1, 2)), 4, Bound::Exact);
    assert_eq!(tt.probe_kind(key).1, Miss::Hit);
    assert_eq!(
        tt.probe_kind(other).1,
        Miss::Collision,
        "an occupied slot holding another position is not an empty one"
    );
    tt.clear();
    assert_eq!(tt.probe_kind(key).1, Miss::Empty);
}

#[test]
fn empty_slots_and_cleared_tables_miss() {
    let mut tt = TranspositionTable::new();
    assert!(tt.probe(0x1234).is_none());
    tt.store(0x1234, 5, Some(mv(3, 4)), 2, Bound::Exact);
    assert!(tt.probe(0x1234).is_some());
    tt.clear();
    assert!(tt.probe(0x1234).is_none(), "clear must empty the table");
}

#[test]
fn a_deeper_entry_survives_a_shallower_store() {
    let mut tt = TranspositionTable::new();
    let key = 0x1234_5678_9abc_def0;
    tt.store(key, 100, Some(mv(1, 2)), 9, Bound::Exact);
    tt.store(key, 200, Some(mv(3, 4)), 2, Bound::Exact);
    let entry = tt.probe(key).expect("deep entry must remain");
    assert_eq!(entry.depth, 9);
    assert_eq!(entry.score, 100);
    tt.new_search();
    tt.store(key, 200, Some(mv(3, 4)), 2, Bound::Exact);
    assert_eq!(tt.probe(key).expect("kept").depth, 9);
    tt.store(key, 300, Some(mv(5, 6)), 9, Bound::Exact);
    assert_eq!(tt.probe(key).expect("replaced").score, 300);
}

#[test]
fn a_different_position_takes_the_slot_regardless_of_depth() {
    let mut tt = TranspositionTable::new();
    let key = 0xffff_0000_0000_0000;
    let other = key | 0xff;
    assert_eq!(tt.index(key), tt.index(other));
    tt.store(key, 100, Some(mv(1, 2)), 9, Bound::Exact);
    tt.store(other, 200, Some(mv(3, 4)), 1, Bound::Exact);
    assert!(tt.probe(key).is_none(), "evicted by the colliding key");
    assert_eq!(tt.probe(other).expect("stored").score, 200);
}

#[test]
fn equal_depth_replaces_so_bounds_can_tighten() {
    let mut tt = TranspositionTable::new();
    let key = 0xabcd_ef01_2345_6789;
    tt.store(key, 10, Some(mv(1, 2)), 5, Bound::Lower);
    tt.store(key, 20, Some(mv(3, 4)), 5, Bound::Exact);
    let entry = tt.probe(key).expect("stored");
    assert_eq!(entry.bound, Bound::Exact);
    assert_eq!(entry.score, 20);
}

#[test]
fn the_default_size_is_sixteen_mebibytes() {
    let tt = TranspositionTable::new();
    assert_eq!(tt.slot_count(), 1 << 20);
    assert_eq!(tt.index(u64::MAX), (1 << 20) - 1);
    assert_eq!(tt.size_mb(), 16);
    assert_eq!(tt.slot_count(), TranspositionTable::with_size_mb(16).slot_count());
}

#[test]
fn a_non_power_of_two_size_rounds_down() {
    let mut tt = TranspositionTable::with_size_mb(100);
    assert_eq!(tt.slot_count(), 1 << 22, "64 MiB, not 128 MiB");
    assert_eq!(tt.size_mb(), 64);
    let key = 0x1357_9bdf_2468_ace0;
    tt.store(key, 11, Some(mv(1, 2)), 3, Bound::Exact);
    assert_eq!(tt.probe(key).expect("stored").score, 11);
}

#[test]
fn a_zero_size_still_holds_one_entry() {
    let mut tt = TranspositionTable::with_size_mb(0);
    assert_eq!(tt.slot_count(), 1);
    assert_eq!(tt.size_mb(), 0);
    assert_eq!(tt.index(u64::MAX), 0);
    assert!(tt.probe(0xdead_beef).is_none());
    tt.store(0xdead_beef, 7, Some(mv(1, 2)), 2, Bound::Lower);
    assert_eq!(tt.probe(0xdead_beef).expect("stored").score, 7);
}

#[test]
fn stores_round_trip_at_every_size() {
    for mb in [1, 16, 64] {
        let mut tt = TranspositionTable::with_size_mb(mb);
        assert_eq!(tt.size_mb(), mb, "{mb}");
        let key = 0x0f1e_2d3c_4b5a_6978;
        tt.store(key, -42, Some(mv(5, 6)), 8, Bound::Lower);
        let entry = tt.probe(key).unwrap_or_else(|| panic!("{mb} MiB"));
        assert_eq!(entry.score, -42, "{mb}");
        assert_eq!(entry.depth, 8, "{mb}");
    }
}

#[test]
fn negative_and_extreme_scores_survive_the_round_trip() {
    let mut tt = TranspositionTable::new();
    for score in [-30_000, -1, 0, 1, 30_000] {
        let key = 0x5555_0000_0000_0000 ^ ((score as i64 as u64) << 8);
        tt.store(key, score, None, 3, Bound::Exact);
        assert_eq!(tt.probe(key).expect("stored").score, score, "{score}");
    }
}
