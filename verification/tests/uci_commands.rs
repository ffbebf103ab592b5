use lattice::uci::{parse, Command};

fn parse_line(line: &str) -> Option<Command> {
    parse(line.as_bytes())
}

#[test]
fn ignores_unrecognised_commands() {
    assert!(parse_line("vendor extension").is_none());
}

#[test]
fn rejects_malformed_setoption() {
    assert!(parse_line("setoption Hash 64").is_none());
    assert!(parse_line("setoption").is_none());
    assert!(parse_line("setoption name").is_none());
    assert!(parse_line("setoption name value 16").is_none());
}

use lattice::board::Board;
use lattice::search::Limits;
use lattice::uci::{find_move, move_text};

fn limits(line: &str) -> Limits {
    let Some(Command::Go(limits)) = parse_line(line) else {
        panic!("expected go command");
    };
    limits
}

fn option(line: &str) -> Option<(String, Option<String>)> {
    match parse_line(line)? {
        Command::SetOption { name, value } => Some((name, value)),
        _ => None,
    }
}

fn fen_text(board: &Board) -> String {
    String::from_utf8(board.to_fen()).unwrap()
}

#[test]
fn parses_tournament_clock() {
    assert_eq!(
        limits("go wtime 300000 btime 250000 winc 3000 binc 2000"),
        Limits {
            wtime: Some(300_000),
            btime: Some(250_000),
            winc: 3_000,
            binc: 2_000,
            ..Limits::default()
        }
    );
}

#[test]
fn parses_individual_limits() {
    assert_eq!(limits("go depth 5").depth, Some(5));
    assert_eq!(limits("go nodes 10000").nodes, Some(10_000));
    assert_eq!(limits("go movetime 500").movetime, Some(500));
    assert!(limits("go infinite").infinite);
}

#[test]
fn parses_setoption_with_multi_word_name_and_value() {
    assert_eq!(
        option("setoption name Hash value 16"),
        Some(("Hash".into(), Some("16".into())))
    );
    assert_eq!(option("setoption name Clear Hash"), Some(("Clear Hash".into(), None)));
    assert_eq!(
        option("setoption name Foo Bar value baz qux"),
        Some(("Foo Bar".into(), Some("baz qux".into())))
    );
}

#[test]
fn every_keyword_maps_to_its_own_command() {
    assert!(matches!(parse_line("uci"), Some(Command::Uci)));
    assert!(matches!(parse_line("isready"), Some(Command::IsReady)));
    assert!(matches!(parse_line("ucinewgame"), Some(Command::NewGame)));
    assert!(matches!(parse_line("stop"), Some(Command::Stop)));
    assert!(matches!(parse_line("quit"), Some(Command::Quit)));
    assert!(matches!(parse_line("bench"), Some(Command::Bench)));
    assert!(matches!(parse_line("perft 3"), Some(Command::Perft(3))));
    assert!(parse_line("perft").is_none());
    assert!(parse_line("perft xyz").is_none());
}

#[test]
fn move_text_and_find_move_roundtrip_including_underpromotion() {
    for (fen, text) in [
        ("4k3/8/8/8/8/8/4P3/4K3 w - - 0 1", "e2e4"),
        ("4k3/8/8/8/8/8/4P3/4K3 w - - 0 1", "e1d1"),
        ("4k3/8/8/8/8/8/8/R3K2R w KQ - 0 1", "e1g1"),
        ("4k3/8/8/8/8/8/8/R3K2R w KQ - 0 1", "e1c1"),
        ("4k3/8/8/3pP3/8/8/8/4K3 w - d6 0 1", "e5d6"),
        ("4k3/P7/8/8/8/8/8/4K3 w - - 0 1", "a7a8q"),
        ("4k3/P7/8/8/8/8/8/4K3 w - - 0 1", "a7a8r"),
        ("4k3/P7/8/8/8/8/8/4K3 w - - 0 1", "a7a8b"),
        ("4k3/P7/8/8/8/8/8/4K3 w - - 0 1", "a7a8n"),
        ("1q2k3/P7/8/8/8/8/8/4K3 w - - 0 1", "a7b8n"),
    ] {
        let mut board: Board = fen.parse().unwrap();
        let mv = find_move(&mut board, text).unwrap_or_else(|| panic!("{text} in {fen}"));
        assert_eq!(move_text(mv), text, "{fen}");
    }
}

#[test]
fn find_move_rejects_malformed_and_illegal_moves() {
    let mut board = Board::startpos();
    for bad in ["e2e", "e2e4e5", "", "z2z4", "e9e4", "e7e5", "e2e5", "e2e4q"] {
        assert!(find_move(&mut board, bad).is_none(), "accepted {bad:?} from the start position");
    }
    let mut promo: Board = "4k3/P7/8/8/8/8/8/4K3 w - - 0 1".parse().unwrap();
    assert!(find_move(&mut promo, "a7a8qq").is_none());
}

#[test]
fn parses_startpos_and_fen_moves() {
    let Some(Command::Position(startpos)) = parse_line("position startpos moves e2e4 e7e5") else {
        panic!("expected position command");
    };
    assert_eq!(
        fen_text(&startpos),
        "rnbqkbnr/pppp1ppp/8/4p3/4P3/8/PPPP1PPP/RNBQKBNR w KQkq e6 0 2"
    );
    let Some(Command::Position(fen)) =
        parse_line("position fen 4k3/8/8/8/8/8/4P3/4K3 w - - 0 1 moves e2e4")
    else {
        panic!("expected position command");
    };
    assert_eq!(fen_text(&fen), "4k3/8/8/8/4P3/8/8/4K3 b - e3 0 1");
}

use lattice::movegen::{generate_legal, MoveList};
use lattice::uci::{parse_san, san_text};

const START: &str = "rnbqkbnr/pppppppp/8/8/8/8/PPPPPPPP/RNBQKBNR w KQkq - 0 1";
const KIWIPETE: &str = "r3k2r/p1ppqpb1/bn2pnp1/3PN3/1p2P3/2N2Q1p/PPPBBPPP/R3K2R w KQkq - 0 1";
const POSITION_3: &str = "8/2p5/3p4/KP5r/1R3p1k/8/4P1P1/8 w - - 0 1";
const POSITION_4: &str = "r3k2r/Pppp1ppp/1b3nbN/nP6/BBP1P3/q4N2/Pp1P2PP/R2Q1RK1 w kq - 0 1";
const POSITION_5: &str = "rnbq1k1r/pp1Pbppp/2p5/8/2B5/8/PPP1NnPP/RNBQK2R w KQ - 0 1";

fn san_of(fen: &str, uci: &str) -> String {
    let mut board: Board = fen.parse().unwrap();
    let mv = find_move(&mut board, uci).expect("test move must be legal");
    san_text(&board, mv)
}

#[test]
fn renders_the_san_cases_that_differ_from_uci() {
    assert_eq!(san_of(START, "g1f3"), "Nf3");
    assert_eq!(san_of(START, "e2e4"), "e4");
    let caps = "rnbqkbnr/ppp1pppp/8/3p4/4P3/8/PPPP1PPP/RNBQKBNR w KQkq d6 0 2";
    assert_eq!(san_of(caps, "e4d5"), "exd5");
    assert_eq!(san_of(KIWIPETE, "e5g6"), "Nxg6");
    assert_eq!(san_of(KIWIPETE, "e1g1"), "O-O");
    assert_eq!(san_of(KIWIPETE, "e1c1"), "O-O-O");
    let promo = "6n1/5P2/8/8/8/8/8/K6k w - - 0 1";
    assert_eq!(san_of(promo, "f7f8q"), "f8=Q");
    assert_eq!(san_of(promo, "f7g8n"), "fxg8=N");
    let ep = "4k3/8/8/3pP3/8/8/8/4K3 w - d6 0 1";
    assert_eq!(san_of(ep, "e5d6"), "exd6");
}

#[test]
fn disambiguates_by_the_shortest_hint_that_works() {
    let files = "4k3/8/8/8/8/8/8/N1N1K3 w - - 0 1";
    assert_eq!(san_of(files, "a1b3"), "Nab3");
    let ranks = "4k3/8/8/N7/8/8/8/N3K3 w - - 0 1";
    assert_eq!(san_of(ranks, "a1b3"), "N1b3");
    let both = "1k6/8/8/8/Q7/8/8/Q2QK3 w - - 0 1";
    assert_eq!(san_of(both, "a1d4"), "Qa1d4");
    assert_eq!(san_of(START, "b1c3"), "Nc3");
}

#[test]
fn parse_san_accepts_what_the_suites_write() {
    let board: Board = KIWIPETE.parse().unwrap();
    let expect = |san: &str, uci: &str| {
        let mut board: Board = KIWIPETE.parse().unwrap();
        let want = find_move(&mut board, uci).unwrap();
        assert_eq!(parse_san(&board, san), Some(want), "parsing {san}");
    };
    expect("Nxg6", "e5g6");
    expect("O-O", "e1g1");
    expect("0-0", "e1g1");
    expect("O-O-O", "e1c1");
    expect("Nxg6+", "e5g6");
    expect("Nxg6!!", "e5g6");
    expect("Nxg6?!", "e5g6");
    expect("  Nxg6  ", "e5g6");
    assert_eq!(parse_san(&board, "Nxg7"), None);
    assert_eq!(parse_san(&board, "zzz"), None);
    assert_eq!(parse_san(&board, ""), None);
}

#[test]
fn san_is_unique_and_roundtrips_for_every_legal_move() {
    for fen in [START, KIWIPETE, POSITION_3, POSITION_4, POSITION_5] {
        let mut board: Board = fen.parse().unwrap();
        let mut moves = MoveList::new();
        generate_legal(&mut board, &mut moves);
        let mut seen: Vec<String> = Vec::new();
        for &mv in moves.as_slice() {
            let san = san_text(&board, mv);
            assert!(!seen.contains(&san), "{san} rendered twice in {fen}, so it cannot be resolved");
            seen.push(san.clone());
            assert_eq!(parse_san(&board, &san), Some(mv), "{san} did not resolve back to itself in {fen}");
        }
        assert!(!seen.is_empty());
    }
}
