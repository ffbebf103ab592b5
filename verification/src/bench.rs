//! The fixed search benchmark: a dozen positions searched to a fixed depth
//! with one shared transposition table, whose total node count is a
//! deterministic signature of the build.

use std::sync::atomic::AtomicBool;
use vstd::prelude::*;
use crate::board::Board;
use crate::board::fen::decimal;
use crate::search::clock::{elapsed_ms, instant_now};
use crate::search::tree::{searchable, search_inner};
use crate::search::Limits;
use crate::tt::TranspositionTable;

verus! {

/// The depth the benchmark searches to.
pub const DEPTH: u32 = 4;

/// The number of benchmark positions.
pub const POSITION_COUNT: usize = 12;

/// The FEN record of benchmark position `i`.
pub fn position(i: usize) -> &'static str
    requires
        i < POSITION_COUNT,
{
    match i {
        0 => "rnbqkbnr/pppppppp/8/8/8/8/PPPPPPPP/RNBQKBNR w KQkq - 0 1",
        1 => "r3k2r/p1ppqpb1/bn2pnp1/3PN3/1p2P3/2N2Q1p/PPPBBPPP/R3K2R w KQkq - 0 1",
        2 => "8/2p5/3p4/KP5r/1R3p1k/8/4P1P1/8 w - - 0 1",
        3 => "r3k2r/Pppp1ppp/1b3nbN/nP6/BBP1P3/q4N2/Pp1P2PP/R2Q1RK1 w kq - 0 1",
        4 => "r2q1rk1/pP1p2pp/Q4n2/bbp1p3/Np6/1B3NBn/pPPP1PPP/R3K2R b KQ - 0 1",
        5 => "rnbq1k1r/pp1Pbppp/2p5/8/2B5/8/PPP1NnPP/RNBQK2R w KQ - 0 1",
        6 => "r4rk1/1pp1qppp/p1np1n2/2b1p1B1/2B1P1b1/P1NP1N2/1PP1QPPP/R4RK1 w - - 0 1",
        7 => "r1bq1rk1/ppp2ppp/2np1n2/4p3/2B1P3/2NP1N2/PPP2PPP/R1BQ1RK1 w - - 0 8",
        8 => "8/5pk1/6p1/3p4/3P4/6P1/5PK1/8 w - - 0 1",
        9 => "8/8/4k3/3p4/3P4/4K3/8/8 w - - 0 1",
        10 => "8/5pk1/7p/8/8/7P/5PP1/4R1K1 w - - 0 1",
        _ => "6k1/5ppp/8/8/8/8/5PPP/6K1 w - - 0 1",
    }
}

/// The report of a benchmark run: `Nodes searched: T`, `Nodes/second: S`
/// and `Qnodes: Q (P% of total), main nodes: M`, each on a line of its own,
/// where `T` is `M + Q` (saturating at `u64::MAX`) and `P` the whole
/// percentage `Q` makes of `T`.
pub open spec fn report_text(nodes: u64, qnodes: u64, nps: u128) -> Seq<u8> {
    let total = saturated_total(nodes, qnodes);
    let share = qnodes * 100 / (if total < 1 {
        1
    } else {
        total
    });
    seq![78u8, 111, 100, 101, 115, 32, 115, 101, 97, 114, 99, 104, 101, 100, 58, 32] + decimal(
        total as nat,
    ) + seq![10u8] + seq![78u8, 111, 100, 101, 115, 47, 115, 101, 99, 111, 110, 100, 58, 32]
        + decimal(nps as nat) + seq![10u8] + seq![81u8, 110, 111, 100, 101, 115, 58, 32]
        + decimal(qnodes as nat) + seq![32u8, 40] + decimal(share as nat) + seq![
        37u8,
        32,
        111,
        102,
        32,
        116,
        111,
        116,
        97,
        108,
        41,
        44,
        32,
        109,
        97,
        105,
        110,
        32,
        110,
        111,
        100,
        101,
        115,
        58,
        32,
    ] + decimal(nodes as nat) + seq![10u8]
}

/// Nodes per second for `total` nodes in `ms` milliseconds (at least one).
pub open spec fn node_rate(total: u64, ms: u64) -> u128 {
    ((total as int * 1000) / (if ms < 1 {
        1
    } else {
        ms as int
    })) as u128
}

/// `nodes + qnodes`, saturating at `u64::MAX`.
pub open spec fn saturated_total(nodes: u64, qnodes: u64) -> int {
    if nodes + qnodes > u64::MAX {
        u64::MAX as int
    } else {
        nodes + qnodes
    }
}

/// Appends `bytes`.
fn push_bytes(out: &mut Vec<u8>, bytes: &[u8])
    ensures
        final(out)@ == old(out)@ + bytes@,
{
    let mut i: usize = 0;
    while i < bytes.len()
        invariant
            i <= bytes@.len(),
            out@ == old(out)@ + bytes@.subrange(0, i as int),
        decreases bytes@.len() - i,
    {
        out.push(bytes[i]);
        i = i + 1;
        assert(out@ =~= old(out)@ + bytes@.subrange(0, i as int));
    }
    assert(bytes@.subrange(0, bytes@.len() as int) =~= bytes@);
}

/// Appends the decimal digits of `n`.
fn push_decimal(out: &mut Vec<u8>, n: u128)
    ensures
        final(out)@ == old(out)@ + decimal(n as nat),
    decreases n,
{
    if n >= 10 {
        push_decimal(out, n / 10);
    }
    out.push(48 + (n % 10) as u8);
    proof {
        if n >= 10 {
            assert(decimal(n as nat) == decimal((n / 10) as nat).push((48 + n % 10) as u8));
        }
        assert(final(out)@ =~= old(out)@ + decimal(n as nat));
    }
}

/// Appends the report of a run that searched `nodes` main and `qnodes`
/// quiescence nodes at `nps` nodes per second (see [`report_text`]).
pub fn write_report(output: &mut Vec<u8>, nodes: u64, qnodes: u64, nps: u128)
    ensures
        final(output)@ == old(output)@ + report_text(nodes, qnodes, nps),
{
    let total = nodes.saturating_add(qnodes);
    let share = (qnodes as u128) * 100 / (if total < 1 {
        1
    } else {
        total
    }) as u128;
    push_bytes(output, &[78u8, 111, 100, 101, 115, 32, 115, 101, 97, 114, 99, 104, 101, 100, 58, 32]);
    push_decimal(output, total as u128);
    output.push(10);
    push_bytes(output, &[78u8, 111, 100, 101, 115, 47, 115, 101, 99, 111, 110, 100, 58, 32]);
    push_decimal(output, nps);
    output.push(10);
    push_bytes(output, &[81u8, 110, 111, 100, 101, 115, 58, 32]);
    push_decimal(output, qnodes as u128);
    push_bytes(output, &[32u8, 40]);
    push_decimal(output, share);
    push_bytes(
        output,
        &[
            37u8,
            32,
            111,
            102,
            32,
            116,
            111,
            116,
            97,
            108,
            41,
            44,
            32,
            109,
            97,
            105,
            110,
            32,
            110,
            111,
            100,
            101,
            115,
            58,
            32,
        ],
    );
    push_decimal(output, nodes as u128);
    output.push(10);
    assert(output@ =~= old(output)@ + report_text(nodes, qnodes, nps));
}

/// Searches every benchmark position to `depth` with one table, shared the
/// way a game shares it and empty at the start so the count is
/// reproducible, appends the report (see [`report_text`]; its rate is
/// whatever the clock gave) and returns the total node count. `lmr` is the
/// late-move reduction table. Node counts saturate at `u64::MAX`.
pub fn run_at(output: &mut Vec<u8>, depth: u32, lmr: &[[u8; 64]; 64]) -> (total: u64)
    ensures
        exists|nodes: u64, qnodes: u64, ms: u64|
            saturated_total(nodes, qnodes) == total && final(output)@ == old(output)@ + report_text(
                nodes,
                qnodes,
                node_rate(total, ms),
            ),
{
    let start = instant_now();
    let stop = AtomicBool::new(false);
    let mut tt = TranspositionTable::new();
    let mut nodes: u64 = 0;
    let mut qnodes: u64 = 0;
    let mut i: usize = 0;
    while i < POSITION_COUNT
        invariant
            tt.wf(),
        decreases POSITION_COUNT - i,
    {
        if let Ok(mut board) = Board::from_fen(position(i).as_bytes()) {
            if searchable(&board) {
                let limits = Limits {
                    depth: Some(depth),
                    nodes: None,
                    movetime: None,
                    wtime: None,
                    btime: None,
                    winc: 0,
                    binc: 0,
                    infinite: true,
                };
                let result = search_inner(&mut board, limits, &stop, &mut tt, lmr, &mut ());
                nodes = nodes.saturating_add(result.nodes);
                qnodes = qnodes.saturating_add(result.qnodes);
            }
        }
        i = i + 1;
    }
    let total = nodes.saturating_add(qnodes);
    let ms = elapsed_ms(&start);
    let nps = (total as u128) * 1000 / (if ms < 1 {
        1
    } else {
        ms
    }) as u128;
    assert(nps == node_rate(total, ms));
    write_report(output, nodes, qnodes, nps);
    total
}

/// Runs the benchmark at [`DEPTH`] (see [`run_at`]).
pub fn run(output: &mut Vec<u8>, lmr: &[[u8; 64]; 64]) -> (total: u64)
    ensures
        exists|nodes: u64, qnodes: u64, ms: u64|
            saturated_total(nodes, qnodes) == total && final(output)@ == old(output)@ + report_text(
                nodes,
                qnodes,
                node_rate(total, ms),
            ),
{
    run_at(output, DEPTH, lmr)
}

} // verus!
