use lattice::lattice_board::MoveFlag;

#[test]
fn test_move_flag_is_capture() {
    assert!(!MoveFlag::Quiet.is_capture());
    assert!(MoveFlag::Capture.is_capture());
    assert!(MoveFlag::from_u8(4).is_capture());
    assert!(MoveFlag::from_u8(5).is_capture()); // EnPassant
}

#[test]
fn test_move_flag_is_promotion() {
    assert!(!MoveFlag::Quiet.is_promotion());
    assert!(MoveFlag::PromoKnight.is_promotion());
    assert!(MoveFlag::from_u8(8).is_promotion());
    assert!(MoveFlag::from_u8(9).is_promotion());
}

#[test]
fn test_promo_capture_flags() {
    let c_prom_kn = MoveFlag::from_u8(12);
    assert!(c_prom_kn.is_capture());
    assert!(c_prom_kn.is_promotion());

    let c_prom_q = MoveFlag::from_u8(15);
    assert!(c_prom_q.is_capture());
    assert!(c_prom_q.is_promotion());

    let ep_capture = MoveFlag::from_u8(5);
    assert!(ep_capture.is_capture());
    assert!(!ep_capture.is_promotion());
}
