use std::sync::atomic::AtomicBool;

use lattice::bench::{position, run_at, POSITION_COUNT};
use lattice::board::Board;
use lattice::search::{search_inner, Limits};
use lattice::tt::TranspositionTable;

const TEST_DEPTH: u32 = 2;

fn lmr_table() -> [[u8; 64]; 64] {
    let mut table = [[0u8; 64]; 64];
    for (depth, row) in table.iter_mut().enumerate().skip(1) {
        for (index, slot) in row.iter_mut().enumerate().skip(1) {
            let reduction = 0.10 + (depth as f64).ln() * (index as f64).ln() * 0.40;
            *slot = reduction.max(0.0) as u8;
        }
    }
    table
}

#[test]
fn output_has_verifier_line_and_count_is_stable() {
    let table = lmr_table();
    let mut first = Vec::new();
    let mut second = Vec::new();
    let first_nodes = run_at(&mut first, TEST_DEPTH, &table);
    let second_nodes = run_at(&mut second, TEST_DEPTH, &table);
    assert_eq!(first_nodes, second_nodes);
    let text = String::from_utf8(first).unwrap();
    assert!(text.lines().any(|line| line == format!("Nodes searched: {first_nodes}")));
    let counts = |text: &str| {
        text.lines()
            .filter(|line| !line.starts_with("Nodes/second:"))
            .map(str::to_owned)
            .collect::<Vec<_>>()
    };
    assert_eq!(
        counts(&String::from_utf8(second).unwrap()),
        counts(&text),
        "the qnode split must be deterministic too"
    );
    let qnodes = text
        .lines()
        .find_map(|line| line.strip_prefix("Qnodes: "))
        .and_then(|rest| rest.split_whitespace().next())
        .and_then(|n| n.parse::<u64>().ok())
        .expect("bench should report a qnode count");
    assert!(qnodes > 0, "every leaf runs quiescence");
    assert!(qnodes < first_nodes, "qnodes are part of the total");
}

#[test]
fn every_position_contributes_to_the_count() {
    let table = lmr_table();
    let all = run_at(&mut Vec::new(), TEST_DEPTH, &table);
    let stop = AtomicBool::new(false);
    let mut summed = 0;
    for i in 0..POSITION_COUNT {
        let mut tt = TranspositionTable::new();
        let mut board: Board = position(i).parse().expect("bench FEN must be valid");
        let result = search_inner(
            &mut board,
            Limits {
                depth: Some(TEST_DEPTH),
                infinite: true,
                ..Limits::default()
            },
            &stop,
            &mut tt,
            &table,
            &mut (),
        );
        summed += result.nodes + result.qnodes;
    }
    assert_eq!(all, summed, "the bench must search every position once");
    assert_eq!(POSITION_COUNT, 12);
}
