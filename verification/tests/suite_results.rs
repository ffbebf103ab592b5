use lattice::tactics::median;
use lattice::tuner::dataset::stable_hash;

#[test]
fn median_handles_both_parities_and_empty() {
    assert_eq!(median(&[]), None);
    assert_eq!(median(&[5]), Some(5));
    assert_eq!(median(&[1, 3]), Some(2));
    assert_eq!(median(&[1, 2, 3]), Some(2));
    assert_eq!(median(&[u64::MAX - 1, u64::MAX]), Some(u64::MAX - 1));
}

#[test]
fn stable_split_hash_depends_on_seed_but_not_process_state() {
    let placement = [42; 24];
    assert_eq!(stable_hash(&placement, 7), stable_hash(&placement, 7));
    assert_ne!(stable_hash(&placement, 7), stable_hash(&placement, 8));
}

use lattice::board::Board;
use lattice::tactics::{parse_epd, run_position, Position};
use lattice::uci::parse_san;

const WAC_1: &str =
    "2rr3k/pp3pp1/1nnqbN1p/3pN3/2pP4/2P3Q1/PPB4P/R4RK1 w - - bm Qg6; id \"WAC.001\";";

fn lmr_table() -> [[u8; 64]; 64] {
    let mut table = [[0u8; 64]; 64];
    for (depth, row) in table.iter_mut().enumerate().skip(1) {
        for (index, slot) in row.iter_mut().enumerate().skip(1) {
            let reduction = 0.10 + (depth as f64).ln() * (index as f64).ln() * 0.40;
            *slot = reduction.max(0.0) as u8;
        }
    }
    table
}

fn fen_of(board: &Board) -> String {
    String::from_utf8(board.to_fen()).unwrap()
}

#[test]
fn parses_the_epd_shapes_the_suites_use() {
    let position = parse_epd(WAC_1, 1).expect("a bm line parses");
    assert_eq!(position.best, ["Qg6"]);
    assert_eq!(position.id, "WAC.001");
    assert!(position.avoid.is_empty());
    assert!(fen_of(&position.board).starts_with("2rr3k/"));

    let multi = parse_epd(
        "r1bqk2r/ppp1nppp/4p3/n5N1/2BPp3/P1P5/2P2PPP/R1BQK2R w KQkq - bm Ba2 Nxf7; id \"WAC.022\";",
        1,
    )
    .unwrap();
    assert_eq!(multi.best, ["Ba2", "Nxf7"]);

    let avoid = parse_epd(
        "6k1/5p2/P3p1p1/2Qp4/5q2/2K5/8/8 b - - am Qc1+ Qe5+; id \"E_E_T 011\";",
        1,
    )
    .unwrap();
    assert_eq!(avoid.avoid, ["Qc1+", "Qe5+"]);
    assert!(avoid.best.is_empty());

    let commented = parse_epd(
        "2rr3k/pp3pp1/1nnqbN1p/3pN3/2pP4/2P3Q1/PPB4P/R4RK1 w - - bm Qg6; c0 \"a; b\"; id \"X\";",
        1,
    )
    .unwrap();
    assert_eq!(commented.id, "X");
    assert_eq!(commented.best, ["Qg6"]);

    assert!(parse_epd("", 1).is_none());
    assert!(parse_epd("# a comment", 1).is_none());
    assert!(parse_epd("8/8/8/8/8/8/8/K6k w - - ; id \"no bm\";", 1).is_none());
    let anonymous = parse_epd(
        "2rr3k/pp3pp1/1nnqbN1p/3pN3/2pP4/2P3Q1/PPB4P/R4RK1 w - - bm Qg6;",
        7,
    )
    .unwrap();
    assert_eq!(anonymous.id, "line 7");
}

#[test]
fn avoid_moves_are_scored_the_other_way_round() {
    let position = parse_epd(WAC_1, 1).unwrap();
    let board = position.board.clone();
    let qg6 = parse_san(&board, "Qg6").unwrap();
    let other = parse_san(&board, "Qg4").unwrap();
    assert!(position.accepts(&board, qg6));
    assert!(!position.accepts(&board, other));

    let avoiding = Position {
        best: Vec::new(),
        avoid: vec!["Qg6".to_owned()],
        ..position
    };
    assert!(!avoiding.accepts(&board, qg6));
    assert!(avoiding.accepts(&board, other));
}

#[test]
fn solves_a_known_tactic_and_reports_where_it_first_saw_it() {
    let position = parse_epd(WAC_1, 1).unwrap();
    let table = lmr_table();
    let outcome = run_position(&position, 6, &table);
    assert!(outcome.solved, "WAC.001 is a mate in 3 and must be found");
    assert!(outcome.first_depth.is_some());
    assert!(outcome.first_nodes.is_some_and(|n| n > 0));
    assert!(outcome.nodes >= outcome.first_nodes.unwrap());
    assert!(!outcome.unstable);
}

use lattice::tactics::{summarize, Outcome};

#[test]
fn report_counts_what_it_says_it_counts() {
    let outcomes = vec![
        Outcome {
            id: "a".into(),
            solved: true,
            first_depth: Some(2),
            first_nodes: Some(100),
            nodes: 500,
            unstable: false,
        },
        Outcome {
            id: "b".into(),
            solved: false,
            first_depth: Some(3),
            first_nodes: Some(200),
            nodes: 700,
            unstable: true,
        },
        Outcome {
            id: "c".into(),
            solved: false,
            first_depth: None,
            first_nodes: None,
            nodes: 300,
            unstable: false,
        },
    ];
    let summary = summarize(&outcomes);
    // solved 1/3, 1500 nodes in all, one position found and then lost
    assert_eq!(summary.total, 3);
    assert_eq!(summary.solved, 1);
    assert_eq!(summary.nodes, 1500);
    assert_eq!(summary.unstable, vec!["b".to_string()]);
    // Both unsolved positions are listed, the unstable one included.
    assert_eq!(summary.failed, vec!["b".to_string(), "c".to_string()]);
}
