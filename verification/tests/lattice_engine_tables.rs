use lattice::lattice_board::{Move, MoveFlag, Square, ZobristHash};
use lattice::lattice_engine::tt::{Bound, TranspositionTable};
use lattice::lattice_engine::MATE;

fn sq(s: &str) -> Square {
    Square::from_ascii(s.as_bytes()).unwrap()
}

fn mv(src: &str, dst: &str) -> Move {
    Move::new(sq(src), sq(dst), MoveFlag::Quiet)
}

fn keys() -> (ZobristHash, ZobristHash) {
    let a = ZobristHash::from_raw(0x463b_9618_1691_fc9c);
    let b = ZobristHash::from_raw(a.get() ^ (1 << 63));
    (a, b)
}

#[test]
fn probe_after_store_round_trips() {
    let mut tt = TranspositionTable::new(1);
    let (k, _) = keys();
    let best = mv("e2", "e4");
    tt.store(k, Some(best), 123, 7, Bound::Exact, 0);
    let e = tt.probe(k).expect("just stored");
    assert_eq!(e.best(), Some(best));
    assert_eq!(e.score(0), 123);
    assert_eq!(e.depth(), 7);
    assert_eq!(e.bound(), Bound::Exact);
}

#[test]
fn miss_returns_none() {
    let tt = TranspositionTable::new(1);
    let (k, _) = keys();
    assert!(tt.probe(k).is_none());
}

#[test]
fn two_keys_share_a_bucket() {
    let mut tt = TranspositionTable::new(1);
    let (a, b) = keys();
    tt.store(a, Some(mv("a2", "a3")), 10, 4, Bound::Exact, 0);
    tt.store(b, Some(mv("h2", "h3")), 20, 3, Bound::Lower, 0);
    assert_eq!(tt.probe(a).map(|e| e.depth()), Some(4));
    assert_eq!(tt.probe(b).map(|e| e.depth()), Some(3));
}

#[test]
fn depth_preferred_slot_keeps_the_deeper_entry() {
    let mut tt = TranspositionTable::new(1);
    let (a, b) = keys();
    tt.store(a, None, 0, 9, Bound::Exact, 0);
    tt.store(b, None, 0, 2, Bound::Exact, 0);
    assert_eq!(tt.probe(a).map(|e| e.depth()), Some(9), "deep entry survives");
    assert_eq!(tt.probe(b).map(|e| e.depth()), Some(2));
}

#[test]
fn new_search_lets_a_shallow_entry_evict_a_stale_deep_one() {
    let mut tt = TranspositionTable::new(1);
    let (a, b) = keys();
    tt.store(a, None, 0, 9, Bound::Exact, 0);
    tt.new_search();
    tt.store(b, None, 0, 1, Bound::Exact, 0);
    assert_eq!(tt.probe(b).map(|e| e.depth()), Some(1), "stale deep entry yields");
    assert!(tt.probe(a).is_none(), "the stale entry was overwritten");
}

#[test]
fn clear_empties_the_table() {
    let mut tt = TranspositionTable::new(1);
    let (k, _) = keys();
    tt.store(k, None, 5, 3, Bound::Exact, 0);
    tt.clear();
    assert!(tt.probe(k).is_none());
}

#[test]
fn mate_score_survives_a_ply_shift() {
    let mut tt = TranspositionTable::new(1);
    let (k, _) = keys();
    let mate_in_3 = MATE - 3;
    tt.store(k, None, mate_in_3, 4, Bound::Exact, 5);
    assert_eq!(tt.probe(k).unwrap().score(5), mate_in_3);
}

#[test]
fn mate_correction_is_node_relative() {
    let mut tt = TranspositionTable::new(1);
    let (k, _) = keys();
    tt.store(k, None, MATE - 6, 4, Bound::Exact, 6);
    assert_eq!(tt.probe(k).unwrap().score(0), MATE);
}

#[test]
fn resize_keeps_the_table_usable() {
    let mut tt = TranspositionTable::new(1);
    let (k, _) = keys();
    tt.store(k, None, 5, 3, Bound::Upper, 0);
    tt.resize(2);
    assert!(tt.probe(k).is_none());
    tt.store(k, None, -5, 2, Bound::Upper, 0);
    let e = tt.probe(k).unwrap();
    assert_eq!(e.score(0), -5);
    assert_eq!(e.bound(), Bound::Upper);
}
