//! UCI command parsing and move notation.

use vstd::prelude::*;
use vstd::utf8::{decode_utf8, valid_utf8};
use vstd::string::StringSliceAdditionalSpecFns;
use crate::board::fen::{decimal, fen_board};
use crate::board::{Board, Move, PieceType};
use crate::board::board::made;
use crate::movegen::{MoveList, generate_legal};
use crate::movegen::legal::{legal_move, playable};
use crate::board::moves::type_promoted_piece;
use crate::search::{Iteration, Limits, SearchListener, mate_moves};
use crate::search::clock::duration_millis;
use crate::text::{parse_unsigned, parse_unsigned_exec, split_words, word_ranges, words, lemma_word_ranges};

pub mod san;

pub use san::{parse_san, san_text};

verus! {

broadcast use vstd::std_specs::vec::group_vec_axioms;

/// A parsed UCI command.
#[derive(Debug)]
pub enum Command {
    /// Identify the engine and enter UCI mode.
    Uci,
    /// Confirm that the engine is ready.
    IsReady,
    /// Reset state for a new game.
    NewGame,
    /// Replace the current position: the position named, with the moves
    /// listed after `moves` played on it.
    Position(Box<Board>),
    /// Start a search.
    Go(Limits),
    /// Stop the active search.
    Stop,
    /// Stop the active search and exit.
    Quit,
    /// Run a perft divide to the supplied depth.
    Perft(u32),
    /// Run the fixed search benchmark.
    Bench,
    /// Set an engine option. `value` is absent for button-type options.
    SetOption {
        /// Option name, which may contain spaces.
        name: String,
        /// Option value, which may contain spaces.
        value: Option<String>,
    },
}

/// `String::from_utf8_lossy`: the text whose UTF-8 encoding is `bytes`,
/// which it is exactly when `bytes` are valid UTF-8 (otherwise each invalid
/// sequence becomes a replacement character, which this contract leaves
/// unsaid).
#[verifier::external_body]
pub(crate) fn text_of(bytes: &[u8]) -> (s: String)
    ensures
        valid_utf8(bytes@) ==> s@ == decode_utf8(bytes@),
{
    String::from_utf8_lossy(bytes).into_owned()
}

/// The bytes of `ws[from..to]` joined with single spaces.
pub open spec fn joined(ws: Seq<Seq<u8>>, from: int, to: int) -> Seq<u8>
    decreases to - from,
{
    if to <= from {
        Seq::empty()
    } else if to == from + 1 {
        ws[from]
    } else {
        joined(ws, from, to - 1) + seq![32u8] + ws[to - 1]
    }
}

/// The words `uci`, `isready`, `ucinewgame`, `position`, `go`, `stop`,
/// `quit`, `perft`, `bench`, `setoption`, `name`, `value`, `startpos`,
/// `fen`, `moves`, `depth`, `nodes`, `movetime`, `wtime`, `btime`, `winc`,
/// `binc` and `infinite`, by number.
pub open spec fn keyword(k: int) -> Seq<u8> {
    if k == 0 {
        seq![117u8, 99, 105]
    } else if k == 1 {
        seq![105u8, 115, 114, 101, 97, 100, 121]
    } else if k == 2 {
        seq![117u8, 99, 105, 110, 101, 119, 103, 97, 109, 101]
    } else if k == 3 {
        seq![112u8, 111, 115, 105, 116, 105, 111, 110]
    } else if k == 4 {
        seq![103u8, 111]
    } else if k == 5 {
        seq![115u8, 116, 111, 112]
    } else if k == 6 {
        seq![113u8, 117, 105, 116]
    } else if k == 7 {
        seq![112u8, 101, 114, 102, 116]
    } else if k == 8 {
        seq![98u8, 101, 110, 99, 104]
    } else if k == 9 {
        seq![115u8, 101, 116, 111, 112, 116, 105, 111, 110]
    } else if k == 10 {
        seq![110u8, 97, 109, 101]
    } else if k == 11 {
        seq![118u8, 97, 108, 117, 101]
    } else if k == 12 {
        seq![115u8, 116, 97, 114, 116, 112, 111, 115]
    } else if k == 13 {
        seq![102u8, 101, 110]
    } else if k == 14 {
        seq![109u8, 111, 118, 101, 115]
    } else if k == 15 {
        seq![100u8, 101, 112, 116, 104]
    } else if k == 16 {
        seq![110u8, 111, 100, 101, 115]
    } else if k == 17 {
        seq![109u8, 111, 118, 101, 116, 105, 109, 101]
    } else if k == 18 {
        seq![119u8, 116, 105, 109, 101]
    } else if k == 19 {
        seq![98u8, 116, 105, 109, 101]
    } else if k == 20 {
        seq![119u8, 105, 110, 99]
    } else if k == 21 {
        seq![98u8, 105, 110, 99]
    } else {
        seq![105u8, 110, 102, 105, 110, 105, 116, 101]
    }
}

/// Keyword numbers.
pub const UCI: u8 = 0;
/// Keyword numbers.
pub const ISREADY: u8 = 1;
/// Keyword numbers.
pub const UCINEWGAME: u8 = 2;
/// Keyword numbers.
pub const POSITION: u8 = 3;
/// Keyword numbers.
pub const GO: u8 = 4;
/// Keyword numbers.
pub const STOP: u8 = 5;
/// Keyword numbers.
pub const QUIT: u8 = 6;
/// Keyword numbers.
pub const PERFT: u8 = 7;
/// Keyword numbers.
pub const BENCH: u8 = 8;
/// Keyword numbers.
pub const SETOPTION: u8 = 9;
/// Keyword numbers.
pub const NAME: u8 = 10;
/// Keyword numbers.
pub const VALUE: u8 = 11;
/// Keyword numbers.
pub const STARTPOS: u8 = 12;
/// Keyword numbers.
pub const FEN: u8 = 13;
/// Keyword numbers.
pub const MOVES: u8 = 14;
/// Keyword numbers.
pub const DEPTH: u8 = 15;
/// Keyword numbers.
pub const NODES: u8 = 16;
/// Keyword numbers.
pub const MOVETIME: u8 = 17;
/// Keyword numbers.
pub const WTIME: u8 = 18;
/// Keyword numbers.
pub const BTIME: u8 = 19;
/// Keyword numbers.
pub const WINC: u8 = 20;
/// Keyword numbers.
pub const BINC: u8 = 21;
/// Keyword numbers.
pub const INFINITE: u8 = 22;

/// The bytes of keyword `k`.
fn keyword_bytes(k: u8) -> (b: Vec<u8>)
    requires
        k <= 22,
    ensures
        b@ == keyword(k as int),
{
    let b = match k {
        0 => vec![117u8, 99, 105],
        1 => vec![105u8, 115, 114, 101, 97, 100, 121],
        2 => vec![117u8, 99, 105, 110, 101, 119, 103, 97, 109, 101],
        3 => vec![112u8, 111, 115, 105, 116, 105, 111, 110],
        4 => vec![103u8, 111],
        5 => vec![115u8, 116, 111, 112],
        6 => vec![113u8, 117, 105, 116],
        7 => vec![112u8, 101, 114, 102, 116],
        8 => vec![98u8, 101, 110, 99, 104],
        9 => vec![115u8, 101, 116, 111, 112, 116, 105, 111, 110],
        10 => vec![110u8, 97, 109, 101],
        11 => vec![118u8, 97, 108, 117, 101],
        12 => vec![115u8, 116, 97, 114, 116, 112, 111, 115],
        13 => vec![102u8, 101, 110],
        14 => vec![109u8, 111, 118, 101, 115],
        15 => vec![100u8, 101, 112, 116, 104],
        16 => vec![110u8, 111, 100, 101, 115],
        17 => vec![109u8, 111, 118, 101, 116, 105, 109, 101],
        18 => vec![119u8, 116, 105, 109, 101],
        19 => vec![98u8, 116, 105, 109, 101],
        20 => vec![119u8, 105, 110, 99],
        21 => vec![98u8, 105, 110, 99],
        _ => vec![105u8, 110, 102, 105, 110, 105, 116, 101],
    };
    assert(b@ =~= keyword(k as int));
    b
}

/// Whether bytes `a..b` of `s` spell keyword `k`.
fn is_keyword(s: &[u8], a: usize, b: usize, k: u8) -> (r: bool)
    requires
        a <= b <= s@.len(),
        k <= 22,
    ensures
        r == (s@.subrange(a as int, b as int) =~= keyword(k as int)),
{
    let kw = keyword_bytes(k);
    if b - a != kw.len() {
        return false;
    }
    let mut i: usize = 0;
    while i < kw.len()
        invariant
            i <= kw@.len(),
            b - a == kw@.len(),
            a <= b <= s@.len(),
            kw@ == keyword(k as int),
            forall|j: int| 0 <= j < i ==> s@[a + j] == kw@[j],
        decreases kw@.len() - i,
    {
        if s[a + i] != kw[i] {
            assert(s@.subrange(a as int, b as int)[i as int] != keyword(k as int)[i as int]);
            return false;
        }
        i = i + 1;
    }
    assert(s@.subrange(a as int, b as int) =~= keyword(k as int));
    true
}

/// The limits a `go` command's words from `i` on set, on top of `l`: each of
/// `depth`, `nodes`, `movetime`, `wtime`, `btime`, `winc` and `binc` takes
/// the next word as its number, `infinite` sets the flag, and other words
/// are skipped; none when a number is missing or malformed.
pub open spec fn go_from(ws: Seq<Seq<u8>>, i: int, l: Limits) -> Option<Limits>
    decreases ws.len() - i,
{
    if i >= ws.len() || i < 0 {
        Some(l)
    } else if ws[i] =~= keyword(INFINITE as int) {
        go_from(ws, i + 1, Limits { infinite: true, ..l })
    } else if ws[i] =~= keyword(DEPTH as int) || ws[i] =~= keyword(NODES as int) || ws[i]
        =~= keyword(MOVETIME as int) || ws[i] =~= keyword(WTIME as int) || ws[i] =~= keyword(
        BTIME as int,
    ) || ws[i] =~= keyword(WINC as int) || ws[i] =~= keyword(BINC as int) {
        if i + 1 >= ws.len() {
            None
        } else {
            let max = if ws[i] =~= keyword(DEPTH as int) {
                u32::MAX as int
            } else {
                u64::MAX as int
            };
            match parse_unsigned(ws[i + 1], max) {
                None => None,
                Some(v) => go_from(
                    ws,
                    i + 2,
                    if ws[i] =~= keyword(DEPTH as int) {
                        Limits { depth: Some(v as u32), ..l }
                    } else if ws[i] =~= keyword(NODES as int) {
                        Limits { nodes: Some(v as u64), ..l }
                    } else if ws[i] =~= keyword(MOVETIME as int) {
                        Limits { movetime: Some(v as u64), ..l }
                    } else if ws[i] =~= keyword(WTIME as int) {
                        Limits { wtime: Some(v as u64), ..l }
                    } else if ws[i] =~= keyword(BTIME as int) {
                        Limits { btime: Some(v as u64), ..l }
                    } else if ws[i] =~= keyword(WINC as int) {
                        Limits { winc: v as u64, ..l }
                    } else {
                        Limits { binc: v as u64, ..l }
                    },
                ),
            }
        }
    } else {
        go_from(ws, i + 1, l)
    }
}

/// Limits with nothing set.
pub open spec fn no_limits() -> Limits {
    Limits {
        depth: None,
        nodes: None,
        movetime: None,
        wtime: None,
        btime: None,
        winc: 0,
        binc: 0,
        infinite: false,
    }
}

/// The limits of a `go` command whose words after `go` start at word 1.
fn parse_go(line: &[u8], r: &Vec<(usize, usize)>) -> (l: Option<Limits>)
    requires
        r@.len() >= 1,
        forall|k: int| 0 <= k < r@.len() ==> (#[trigger] r@[k]).0 <= r@[k].1 <= line@.len(),
    ensures
        l == go_from(
            r@.map_values(|p: (usize, usize)| line@.subrange(p.0 as int, p.1 as int)),
            1,
            no_limits(),
        ),
{
    let ghost ws = r@.map_values(|p: (usize, usize)| line@.subrange(p.0 as int, p.1 as int));
    let mut limits = Limits {
        depth: None,
        nodes: None,
        movetime: None,
        wtime: None,
        btime: None,
        winc: 0,
        binc: 0,
        infinite: false,
    };
    let mut i: usize = 1;
    while i < r.len()
        invariant
            1 <= i,
            r@.len() >= 1,
            forall|k: int| 0 <= k < r@.len() ==> (#[trigger] r@[k]).0 <= r@[k].1 <= line@.len(),
            ws == r@.map_values(|p: (usize, usize)| line@.subrange(p.0 as int, p.1 as int)),
            go_from(ws, 1, no_limits()) == go_from(ws, i as int, limits),
        decreases r@.len() - i,
    {
        let (a, b) = r[i];
        assert(ws[i as int] == line@.subrange(a as int, b as int));
        if is_keyword(line, a, b, INFINITE) {
            limits.infinite = true;
            i = i + 1;
        } else {
            let mut which: u8 = 0;
            let mut k: u8 = DEPTH;
            while k <= BINC
                invariant
                    DEPTH <= k <= BINC + 1,
                    a <= b <= line@.len(),
                    which == 0 ==> forall|j: int|
                        DEPTH <= j < k ==> !(line@.subrange(a as int, b as int) =~= keyword(j)),
                    which != 0 ==> DEPTH <= which < k && line@.subrange(a as int, b as int)
                        =~= keyword(which as int),
                decreases BINC + 1 - k,
            {
                if which == 0 && is_keyword(line, a, b, k) {
                    which = k;
                }
                k = k + 1;
            }
            if which == 0 {
                i = i + 1;
            } else {
                if i + 1 >= r.len() {
                    return None;
                }
                let (c, d) = r[i + 1];
                assert(ws[i + 1] == line@.subrange(c as int, d as int));
                let max: u64 = if which == DEPTH {
                    0xffff_ffff
                } else {
                    0xffff_ffff_ffff_ffff
                };
                let v = match parse_unsigned_exec(line, c, d, max) {
                    Some(v) => v,
                    None => {
                        return None;
                    },
                };
                if which == DEPTH {
                    limits.depth = Some(v as u32);
                } else if which == NODES {
                    limits.nodes = Some(v);
                } else if which == MOVETIME {
                    limits.movetime = Some(v);
                } else if which == WTIME {
                    limits.wtime = Some(v);
                } else if which == BTIME {
                    limits.btime = Some(v);
                } else if which == WINC {
                    limits.winc = v;
                } else {
                    limits.binc = v;
                }
                i = i + 2;
            }
        }
    }
    Some(limits)
}

/// The position of the first `value` word at or after `i`, or the end.
pub open spec fn first_value(ws: Seq<Seq<u8>>, i: int) -> int
    decreases ws.len() - i,
{
    if i >= ws.len() || i < 0 {
        ws.len() as int
    } else if ws[i] =~= keyword(VALUE as int) {
        i
    } else {
        first_value(ws, i + 1)
    }
}

/// Whether the words after a position's description at `index` are empty or
/// a `moves` list.
pub open spec fn moves_ok(ws: Seq<Seq<u8>>, index: int) -> bool {
    index == ws.len() || (index < ws.len() && ws[index] =~= keyword(MOVES as int))
}

/// Whether a `position` command's words describe a position: `startpos`, or
/// `fen` and six words that are a FEN record, then nothing or a move list.
pub open spec fn position_ok(ws: Seq<Seq<u8>>) -> bool {
    ws.len() >= 2 && ((ws[1] =~= keyword(STARTPOS as int) && moves_ok(ws, 2)) || (ws[1]
        =~= keyword(FEN as int) && ws.len() >= 8 && crate::board::fen::fen_ok(joined(ws, 2, 8))
        && moves_ok(ws, 8)))
}

/// The move words of a `position` command: those after `moves`.
pub open spec fn move_words(ws: Seq<Seq<u8>>) -> Seq<Seq<u8>> {
    let index = if ws[1] =~= keyword(STARTPOS as int) {
        2int
    } else {
        8
    };
    if index >= ws.len() {
        Seq::empty()
    } else {
        ws.subrange(index + 1, ws.len() as int)
    }
}

/// `b` is the position a `position` command's words name before any move:
/// the start position, or the position of its FEN record.
pub open spec fn named_start(ws: Seq<Seq<u8>>, b: Board) -> bool {
    &&& (ws[1] =~= keyword(STARTPOS as int) ==> b.is_startpos())
    &&& (ws[1] =~= keyword(FEN as int) ==> fen_board(b, joined(ws, 2, 8)))
}

/// `text` names `mv` in UCI notation.
pub open spec fn names(text: Seq<u8>, mv: Move) -> bool {
    move_bytes_of(mv) == text
}

/// `after` is `b` with the moves written in `ms` played in turn, each the
/// legal move its text names.
pub open spec fn plays(b: Board, ms: Seq<Seq<u8>>, after: Board) -> bool
    decreases ms.len(),
{
    if ms.len() == 0 {
        after == b
    } else {
        exists|mid: Board, mv: Move|
            #![trigger made(mid, mv, after)]
            plays(b, ms.drop_last(), mid) && playable(mid) && legal_move(
                mid.spec_mailbox(),
                mid.spec_state(),
                mv.from_idx(),
                mv.to_idx(),
                mv.spec_type(),
            ) && names(ms.last(), mv) && made(mid, mv, after)
    }
}

/// No move written as `text` can be played on `b`: the move generators
/// cannot play on it, or no legal move has that name.
pub open spec fn refuses(b: Board, text: Seq<u8>) -> bool {
    !playable(b) || forall|mv: Move|
        legal_move(
            b.spec_mailbox(),
            b.spec_state(),
            mv.from_idx(),
            mv.to_idx(),
            mv.spec_type(),
        ) ==> !#[trigger] names(text, mv)
}

/// `b` is the position a `position` command's words describe: the named
/// position with the listed moves played.
pub open spec fn position_played(ws: Seq<Seq<u8>>, b: Board) -> bool {
    &&& position_ok(ws)
    &&& exists|start: Board| named_start(ws, start) && plays(start, move_words(ws), b)
}

/// A `position` command's moves cannot all be played: after some of them,
/// the next one names no move that can be played.
pub open spec fn position_stuck(ws: Seq<Seq<u8>>) -> bool {
    exists|start: Board, k: int, mid: Board|
        named_start(ws, start) && 0 <= k < move_words(ws).len() && plays(
            start,
            move_words(ws).take(k),
            mid,
        ) && refuses(mid, move_words(ws)[k])
}

/// Whether the words are a command: one of the command keywords first,
/// with what that command needs after it.
pub open spec fn command_ok(ws: Seq<Seq<u8>>) -> bool {
    let n = ws.len();
    n > 0 && {
        let w = ws[0];
        ||| w =~= keyword(UCI as int)
        ||| w =~= keyword(ISREADY as int)
        ||| w =~= keyword(UCINEWGAME as int)
        ||| w =~= keyword(STOP as int)
        ||| w =~= keyword(QUIT as int)
        ||| w =~= keyword(BENCH as int)
        ||| w =~= keyword(GO as int) && go_from(ws, 1, no_limits()) is Some
        ||| w =~= keyword(PERFT as int) && n >= 2 && parse_unsigned(ws[1], u32::MAX as int) is Some
        ||| w =~= keyword(SETOPTION as int) && n >= 2 && ws[1] =~= keyword(NAME as int)
            && first_value(ws, 2) > 2
        ||| w =~= keyword(POSITION as int) && position_ok(ws)
    }
}

/// The words of `s` are the byte ranges `split_words` returns.
pub(crate) proof fn lemma_words_of(s: Seq<u8>, r: Seq<(usize, usize)>)
    requires
        r.len() == word_ranges(s).len(),
        forall|k: int|
            0 <= k < r.len() ==> (#[trigger] r[k]).0 as int == word_ranges(s)[k].0 && r[k].1 as int
                == word_ranges(s)[k].1,
    ensures
        words(s) == r.map_values(|p: (usize, usize)| s.subrange(p.0 as int, p.1 as int)),
{
    lemma_word_ranges(s);
    assert(words(s) =~= r.map_values(|p: (usize, usize)| s.subrange(p.0 as int, p.1 as int)));
}

/// The words `from..to` joined with single spaces.
pub(crate) fn join_words(line: &[u8], r: &Vec<(usize, usize)>, from: usize, to: usize) -> (j: Vec<u8>)
    requires
        from <= to <= r@.len(),
        forall|k: int| 0 <= k < r@.len() ==> (#[trigger] r@[k]).0 <= r@[k].1 <= line@.len(),
    ensures
        j@ == joined(
            r@.map_values(|p: (usize, usize)| line@.subrange(p.0 as int, p.1 as int)),
            from as int,
            to as int,
        ),
{
    let ghost ws = r@.map_values(|p: (usize, usize)| line@.subrange(p.0 as int, p.1 as int));
    let mut out: Vec<u8> = Vec::new();
    let mut k = from;
    while k < to
        invariant
            from <= k <= to <= r@.len(),
            forall|q: int| 0 <= q < r@.len() ==> (#[trigger] r@[q]).0 <= r@[q].1 <= line@.len(),
            ws == r@.map_values(|p: (usize, usize)| line@.subrange(p.0 as int, p.1 as int)),
            out@ == joined(ws, from as int, k as int),
        decreases to - k,
    {
        let ghost before = out@;
        if k > from {
            out.push(32);
        }
        let (a, b) = r[k];
        let mut i = a;
        while i < b
            invariant
                a <= i <= b <= line@.len(),
                out@ == (if k > from {
                    before + seq![32u8]
                } else {
                    before
                }) + line@.subrange(a as int, i as int),
            decreases b - i,
        {
            out.push(line[i]);
            proof {
                assert(line@.subrange(a as int, i + 1) =~= line@.subrange(a as int, i as int).push(
                    line@[i as int],
                ));
            }
            i = i + 1;
        }
        proof {
            assert(ws[k as int] == line@.subrange(a as int, b as int));
            if k == from {
                assert(joined(ws, from as int, k + 1) == ws[from as int]);
                assert(before =~= Seq::<u8>::empty());
            }
            assert(out@ =~= joined(ws, from as int, k + 1));
        }
        k = k + 1;
    }
    out
}

/// Parses one line of UCI input, given as its UTF-8 bytes: `None` exactly
/// for the lines [`command_ok`] refuses (empty or unrecognised lines among
/// them).
pub fn parse(line: &[u8]) -> (c: Option<Command>)
    ensures
        c is Some ==> command_ok(words(line@)),
        !command_ok(words(line@)) ==> c is None,
        c is None && command_ok(words(line@)) ==> words(line@)[0] =~= keyword(POSITION as int),
        ({
            let ws = words(line@);
            &&& ws.len() > 0 && ws[0] =~= keyword(UCI as int) ==> (c matches Some(Command::Uci))
            &&& ws.len() > 0 && ws[0] =~= keyword(ISREADY as int) ==> (c matches Some(Command::IsReady))
            &&& ws.len() > 0 && ws[0] =~= keyword(UCINEWGAME as int) ==> (c matches Some(Command::NewGame))
            &&& ws.len() > 0 && ws[0] =~= keyword(STOP as int) ==> (c matches Some(Command::Stop))
            &&& ws.len() > 0 && ws[0] =~= keyword(QUIT as int) ==> (c matches Some(Command::Quit))
            &&& ws.len() > 0 && ws[0] =~= keyword(BENCH as int) ==> (c matches Some(Command::Bench))
            &&& c matches Some(Command::Go(l)) ==> ws[0] =~= keyword(GO as int) && go_from(
                ws,
                1,
                no_limits(),
            ) == Some(l)
            &&& c matches Some(Command::Perft(d)) ==> ws[0] =~= keyword(PERFT as int)
                && parse_unsigned(ws[1], u32::MAX as int) == Some(d as int)
            &&& c matches Some(Command::SetOption { name, value }) ==> {
                let v = first_value(ws, 2);
                &&& ws[0] =~= keyword(SETOPTION as int)
                &&& (valid_utf8(joined(ws, 2, v)) ==> name@ == decode_utf8(joined(ws, 2, v)))
                &&& (value is Some <==> v < ws.len())
                &&& (value matches Some(t) ==> (valid_utf8(joined(ws, v + 1, ws.len() as int))
                    ==> t@ == decode_utf8(joined(ws, v + 1, ws.len() as int))))
            }
            &&& c matches Some(Command::Position(b)) ==> ws[0] =~= keyword(POSITION as int)
                && position_played(ws, *b)
            &&& c is None && ws.len() > 0 && ws[0] =~= keyword(POSITION as int) && position_ok(ws)
                ==> position_stuck(ws)
        }),
{
    let r = split_words(line);
    let ghost ws = r@.map_values(|p: (usize, usize)| line@.subrange(p.0 as int, p.1 as int));
    proof {
        lemma_words_of(line@, r@);
    }
    if r.len() == 0 {
        return None;
    }
    let (a, b) = r[0];
    assert(ws[0] == line@.subrange(a as int, b as int));
    if is_keyword(line, a, b, UCI) {
        return Some(Command::Uci);
    }
    if is_keyword(line, a, b, ISREADY) {
        return Some(Command::IsReady);
    }
    if is_keyword(line, a, b, UCINEWGAME) {
        return Some(Command::NewGame);
    }
    if is_keyword(line, a, b, STOP) {
        return Some(Command::Stop);
    }
    if is_keyword(line, a, b, QUIT) {
        return Some(Command::Quit);
    }
    if is_keyword(line, a, b, BENCH) {
        return Some(Command::Bench);
    }
    if is_keyword(line, a, b, GO) {
        return match parse_go(line, &r) {
            Some(l) => Some(Command::Go(l)),
            None => None,
        };
    }
    if is_keyword(line, a, b, PERFT) {
        if r.len() < 2 {
            return None;
        }
        let (c, d) = r[1];
        assert(ws[1] == line@.subrange(c as int, d as int));
        return match parse_unsigned_exec(line, c, d, 0xffff_ffff) {
            Some(v) => Some(Command::Perft(v as u32)),
            None => None,
        };
    }
    if is_keyword(line, a, b, SETOPTION) {
        return parse_setoption(line, &r);
    }
    if is_keyword(line, a, b, POSITION) {
        return parse_position(line, &r);
    }
    None
}

/// A `setoption name <name...> [value <value...>]` command: both parts may
/// span several words, so they are delimited by the keywords.
fn parse_setoption(line: &[u8], r: &Vec<(usize, usize)>) -> (c: Option<Command>)
    requires
        r@.len() >= 1,
        forall|k: int| 0 <= k < r@.len() ==> (#[trigger] r@[k]).0 <= r@[k].1 <= line@.len(),
    ensures
        ({
            let ws = r@.map_values(|p: (usize, usize)| line@.subrange(p.0 as int, p.1 as int));
            let v = first_value(ws, 2);
            &&& c is Some <==> (ws.len() >= 2 && ws[1] =~= keyword(NAME as int) && v > 2)
            &&& c is Some ==> (c matches Some(Command::SetOption { name, value }) && (valid_utf8(
                joined(ws, 2, v),
            ) ==> name@ == decode_utf8(joined(ws, 2, v))) && (value is Some <==> v < ws.len()) && (
            value matches Some(t) ==> (valid_utf8(joined(ws, v + 1, ws.len() as int)) ==> t@
                == decode_utf8(joined(ws, v + 1, ws.len() as int)))))
        }),
{
    let ghost ws = r@.map_values(|p: (usize, usize)| line@.subrange(p.0 as int, p.1 as int));
    if r.len() < 2 {
        return None;
    }
    let (a, b) = r[1];
    assert(ws[1] == line@.subrange(a as int, b as int));
    if !is_keyword(line, a, b, NAME) {
        return None;
    }
    let mut v: usize = 2;
    while v < r.len()
        invariant
            2 <= v <= r@.len(),
            forall|k: int| 0 <= k < r@.len() ==> (#[trigger] r@[k]).0 <= r@[k].1 <= line@.len(),
            ws == r@.map_values(|p: (usize, usize)| line@.subrange(p.0 as int, p.1 as int)),
            first_value(ws, 2) == first_value(ws, v as int),
        ensures
            first_value(ws, 2) == v as int,
            v <= r@.len(),
        decreases r@.len() - v,
    {
        let (c, d) = r[v];
        assert(ws[v as int] == line@.subrange(c as int, d as int));
        if is_keyword(line, c, d, VALUE) {
            break;
        }
        v = v + 1;
    }
    if v == 2 {
        return None;
    }
    let name = text_of(join_words(line, r, 2, v).as_slice());
    let value = if v < r.len() {
        Some(text_of(join_words(line, r, v + 1, r.len()).as_slice()))
    } else {
        None
    };
    Some(Command::SetOption { name, value })
}

/// Whether the word `line[a..b]` is `text`.
fn word_is(line: &[u8], a: usize, b: usize, text: &Vec<u8>) -> (r: bool)
    requires
        a <= b <= line@.len(),
    ensures
        r == (line@.subrange(a as int, b as int) == text@),
{
    if b - a != text.len() {
        proof {
            if line@.subrange(a as int, b as int) == text@ {
                assert(line@.subrange(a as int, b as int).len() == text@.len());
            }
        }
        return false;
    }
    let mut i: usize = 0;
    while i < text.len()
        invariant
            a <= b <= line@.len(),
            b - a == text@.len(),
            i <= text@.len(),
            forall|j: int| 0 <= j < i ==> line@[a + j] == text@[j],
        decreases text@.len() - i,
    {
        if line[a + i] != text[i] {
            proof {
                assert(line@.subrange(a as int, b as int)[i as int] != text@[i as int]);
            }
            return false;
        }
        i = i + 1;
    }
    assert(line@.subrange(a as int, b as int) =~= text@);
    true
}

/// The legal move of `board` that `line[a..b]` names in UCI notation: the
/// origin and destination squares, then the promotion piece's letter for a
/// promotion. `None` when the move generators cannot play on the board or
/// no legal move has that name.
pub fn find_move_in(board: &mut Board, line: &[u8], a: usize, b: usize) -> (m: Option<Move>)
    requires
        old(board).wf(),
        a <= b <= line@.len(),
    ensures
        Board::same_position(*final(board), *old(board)),
        final(board).wf(),
        m is None <==> refuses(*old(board), line@.subrange(a as int, b as int)),
        m matches Some(mv) ==> playable(*old(board)) && legal_move(
            old(board).spec_mailbox(),
            old(board).spec_state(),
            mv.from_idx(),
            mv.to_idx(),
            mv.spec_type(),
        ) && names(line@.subrange(a as int, b as int), mv),
{
    let ghost b0 = *board;
    let ghost text = line@.subrange(a as int, b as int);
    if !crate::movegen::legal::is_playable(board) {
        return None;
    }
    let mut list = MoveList::new();
    generate_legal(board, &mut list);
    let n = list.len();
    let mut i: usize = 0;
    while i < n
        invariant
            i <= n,
            n == list@.len(),
            a <= b <= line@.len(),
            text == line@.subrange(a as int, b as int),
            playable(b0),
            b0 == *old(board),
            Board::same_position(*board, b0),
            board.wf(),
            crate::movegen::legal::legal_generated(b0, Seq::empty(), list@),
            forall|j: int| 0 <= j < i ==> !names(text, #[trigger] list@[j]),
        decreases n - i,
    {
        let mv = list.get(i);
        let bytes = move_bytes(mv);
        if word_is(line, a, b, &bytes) {
            proof {
                assert(list@[i as int] == mv);
                assert(legal_move(
                    b0.spec_mailbox(),
                    b0.spec_state(),
                    mv.from_idx(),
                    mv.to_idx(),
                    mv.spec_type(),
                ));
                assert(names(text, mv));
                assert(!refuses(b0, text));
            }
            return Some(mv);
        }
        i = i + 1;
    }
    proof {
        assert forall|mv: Move|
            legal_move(
                b0.spec_mailbox(),
                b0.spec_state(),
                mv.from_idx(),
                mv.to_idx(),
                mv.spec_type(),
            ) implies !#[trigger] names(text, mv) by {
            assert(crate::movegen::list::holds_move(list@, 0, n as int, mv.from_idx(), mv.to_idx(), mv.spec_type()));
            let j = choose|j: int|
                0 <= j < n && #[trigger] list@[j].from_idx() == mv.from_idx() && list@[j].to_idx()
                    == mv.to_idx() && list@[j].spec_type() == mv.spec_type();
            assert(move_bytes_of(list@[j]) == move_bytes_of(mv));
        }
    }
    None
}

/// The legal move of `board` that `text` names in UCI notation (see
/// [`find_move_in`]).
pub fn find_move(board: &mut Board, text: &str) -> (m: Option<Move>)
    requires
        old(board).wf(),
    ensures
        Board::same_position(*final(board), *old(board)),
        final(board).wf(),
        m is None <==> refuses(*old(board), text.spec_bytes()),
        m matches Some(mv) ==> playable(*old(board)) && legal_move(
            old(board).spec_mailbox(),
            old(board).spec_state(),
            mv.from_idx(),
            mv.to_idx(),
            mv.spec_type(),
        ) && names(text.spec_bytes(), mv),
{
    let bytes = text.as_bytes();
    proof {
        assert(bytes@.subrange(0, bytes@.len() as int) =~= bytes@);
    }
    find_move_in(board, bytes, 0, bytes.len())
}

/// Plays the move words `line[r[from..]]` on `board` in turn; `false` (and
/// the board left part-way) at the first one that cannot be played.
fn play_words(board: &mut Board, line: &[u8], r: &Vec<(usize, usize)>, from: usize) -> (ok: bool)
    requires
        old(board).wf(),
        from <= r@.len(),
        forall|k: int| 0 <= k < r@.len() ==> (#[trigger] r@[k]).0 <= r@[k].1 <= line@.len(),
    ensures
        final(board).wf(),
        ({
            let ws = r@.map_values(|p: (usize, usize)| line@.subrange(p.0 as int, p.1 as int));
            let ms = ws.subrange(from as int, ws.len() as int);
            &&& ok ==> plays(*old(board), ms, *final(board))
            &&& !ok ==> exists|k: int, mid: Board|
                0 <= k < ms.len() && plays(*old(board), ms.take(k), mid) && refuses(mid, ms[k])
        }),
{
    let ghost b0 = *board;
    let ghost ws = r@.map_values(|p: (usize, usize)| line@.subrange(p.0 as int, p.1 as int));
    let ghost ms = ws.subrange(from as int, ws.len() as int);
    let mut k = from;
    proof {
        assert(ms.take(0) =~= Seq::<Seq<u8>>::empty());
    }
    while k < r.len()
        invariant
            from <= k <= r@.len(),
            forall|q: int| 0 <= q < r@.len() ==> (#[trigger] r@[q]).0 <= r@[q].1 <= line@.len(),
            ws == r@.map_values(|p: (usize, usize)| line@.subrange(p.0 as int, p.1 as int)),
            ms == ws.subrange(from as int, ws.len() as int),
            board.wf(),
            b0 == *old(board),
            plays(b0, ms.take(k - from), *board),
        decreases r@.len() - k,
    {
        let (c, d) = r[k];
        assert(ws[k as int] == line@.subrange(c as int, d as int));
        assert(ms[k - from] == ws[k as int]);
        let ghost mid = *board;
        match find_move_in(board, line, c, d) {
            None => {
                proof {
                    assert(refuses(mid, ms[k - from]));
                    assert(plays(b0, ms.take(k - from), mid) && refuses(mid, ms[k - from]));
                }
                return false;
            },
            Some(mv) => {
                proof {
                    lemma_pseudo_of_legal(mid, mv);
                    crate::movegen::legal::lemma_pseudo_playable(mid, mv);
                }
                board.make(mv);
                proof {
                    let next = ms.take(k + 1 - from);
                    assert(next.drop_last() =~= ms.take(k - from));
                    assert(next.last() == ms[k - from]);
                    assert(made(mid, mv, *board));
                }
            },
        }
        k = k + 1;
    }
    proof {
        assert(ms.take(r@.len() - from) =~= ms);
    }
    true
}

/// A legal move is pseudo-legal.
proof fn lemma_pseudo_of_legal(b: Board, mv: Move)
    requires
        legal_move(b.spec_mailbox(), b.spec_state(), mv.from_idx(), mv.to_idx(), mv.spec_type()),
    ensures
        crate::movegen::gen::pseudo_move(
            b.spec_mailbox(),
            b.spec_state(),
            true,
            true,
            mv.from_idx(),
            mv.to_idx(),
            mv.spec_type(),
        ),
{
}

/// A `position` command: `startpos` or `fen` and six FEN fields, then
/// nothing or `moves` and the moves, each played in turn.
fn parse_position(line: &[u8], r: &Vec<(usize, usize)>) -> (c: Option<Command>)
    requires
        r@.len() >= 1,
        forall|k: int| 0 <= k < r@.len() ==> (#[trigger] r@[k]).0 <= r@[k].1 <= line@.len(),
    ensures
        ({
            let ws = r@.map_values(|p: (usize, usize)| line@.subrange(p.0 as int, p.1 as int));
            &&& c is Some ==> position_ok(ws)
            &&& !position_ok(ws) ==> c is None
            &&& c is Some ==> (c matches Some(Command::Position(_)))
            &&& c matches Some(Command::Position(b)) ==> position_played(ws, *b)
            &&& c is None && position_ok(ws) ==> position_stuck(ws)
        }),
{
    let ghost ws = r@.map_values(|p: (usize, usize)| line@.subrange(p.0 as int, p.1 as int));
    if r.len() < 2 {
        return None;
    }
    let (a, b) = r[1];
    assert(ws[1] == line@.subrange(a as int, b as int));
    let (mut board, index) = if is_keyword(line, a, b, STARTPOS) {
        (Board::startpos(), 2)
    } else if is_keyword(line, a, b, FEN) && r.len() >= 8 {
        let text = join_words(line, r, 2, 8);
        match Board::from_fen(text.as_slice()) {
            Ok(board) => (board, 8),
            Err(_) => {
                return None;
            },
        }
    } else {
        return None;
    };
    let ghost start = board;
    proof {
        assert(named_start(ws, start));
    }
    if index < r.len() {
        let (c, d) = r[index];
        assert(ws[index as int] == line@.subrange(c as int, d as int));
        if !is_keyword(line, c, d, MOVES) {
            return None;
        }
        let ok = play_words(&mut board, line, r, index + 1);
        proof {
            assert(move_words(ws) =~= ws.subrange(index + 1, ws.len() as int));
        }
        if !ok {
            return None;
        }
    } else {
        proof {
            assert(move_words(ws) =~= Seq::<Seq<u8>>::empty());
        }
    }
    Some(Command::Position(Box::new(board)))
}

/// The UCI long algebraic notation of a move: origin and destination square
/// names, then the promotion piece's letter (`n`, `b`, `r`, `q`).
pub open spec fn move_bytes_of(mv: Move) -> Seq<u8> {
    let f = mv.from_idx();
    let t = mv.to_idx();
    let base = seq![
        (97 + f % 8) as u8,
        (49 + f / 8) as u8,
        (97 + t % 8) as u8,
        (49 + t / 8) as u8,
    ];
    match type_promoted_piece(mv.spec_type()) {
        Some(PieceType::Knight) => base.push(110u8),
        Some(PieceType::Bishop) => base.push(98u8),
        Some(PieceType::Rook) => base.push(114u8),
        Some(PieceType::Queen) => base.push(113u8),
        _ => base,
    }
}

/// The bytes of a move in UCI long algebraic notation.
pub fn move_bytes(mv: Move) -> (b: Vec<u8>)
    ensures
        b@ == move_bytes_of(mv),
{
    let (from, to) = (mv.from(), mv.to());
    let mut b: Vec<u8> = Vec::new();
    b.push(97 + from.file());
    b.push(49 + from.rank());
    b.push(97 + to.file());
    b.push(49 + to.rank());
    match mv.promoted_piece() {
        Some(PieceType::Knight) => b.push(110),
        Some(PieceType::Bishop) => b.push(98),
        Some(PieceType::Rook) => b.push(114),
        Some(PieceType::Queen) => b.push(113),
        _ => {},
    }
    assert(b@ =~= move_bytes_of(mv));
    b
}

/// Returns a move in UCI long algebraic notation.
pub fn move_text(mv: Move) -> (s: String)
    ensures
        valid_utf8(move_bytes_of(mv)) ==> s@ == decode_utf8(move_bytes_of(mv)),
{
    text_of(move_bytes(mv).as_slice())
}

/// Renders a search as UCI `info` and `bestmove` lines on its output.
pub struct UciListener<W> {
    output: W,
}

impl<W> UciListener<W> {
    /// The wrapped writer.
    pub closed spec fn spec_output(self) -> W {
        self.output
    }

    /// Wraps a writer, normally stdout.
    pub fn new(output: W) -> (l: Self)
        ensures
            l.spec_output() == output,
    {
        UciListener { output }
    }

    /// Returns the wrapped writer, for callers that captured into a buffer.
    pub fn into_inner(self) -> (w: W)
        ensures
            w == self.spec_output(),
    {
        self.output
    }
}


/// The decimal text of a signed number: a minus sign before the digits of a
/// negative one.
pub open spec fn signed_decimal(n: int) -> Seq<u8> {
    if n < 0 {
        seq![45u8] + decimal((-n) as nat)
    } else {
        decimal(n as nat)
    }
}

/// The score field of an info line: the moves to mate where the score
/// encodes a mate, else centipawns (the lowest `i32`, whose magnitude has
/// no `i32`, is shown in centipawns).
pub open spec fn score_text(score: int) -> Seq<u8> {
    match (if score == i32::MIN {
        None
    } else {
        mate_moves(score)
    }) {
        Some(m) => seq![115u8, 99, 111, 114, 101, 32, 109, 97, 116, 101, 32] + signed_decimal(m),
        None => seq![115u8, 99, 111, 114, 101, 32, 99, 112, 32] + signed_decimal(score),
    }
}

/// The UCI info line for an iteration, without its newline: `info depth D
/// score ... nodes N nps S time T`, then ` pv M` when it found a move.
pub open spec fn info_text(
    depth: u32,
    score: i32,
    nodes: u64,
    nps: u128,
    ms: u128,
    best_move: Option<Move>,
) -> Seq<u8> {
    seq![105u8, 110, 102, 111, 32, 100, 101, 112, 116, 104, 32] + decimal(depth as nat) + seq![32u8]
        + score_text(score as int) + seq![32u8, 110, 111, 100, 101, 115, 32] + decimal(nodes as nat)
        + seq![32u8, 110, 112, 115, 32] + decimal(nps as nat) + seq![32u8, 116, 105, 109, 101, 32]
        + decimal(ms as nat) + match best_move {
        Some(m) => seq![32u8, 112, 118, 32] + move_bytes_of(m),
        None => Seq::empty(),
    }
}

/// The UCI bestmove line, without its newline: the move, or `0000` when
/// there is none.
pub open spec fn bestmove_text(best_move: Option<Move>) -> Seq<u8> {
    seq![98u8, 101, 115, 116, 109, 111, 118, 101, 32] + match best_move {
        Some(m) => move_bytes_of(m),
        None => seq![48u8, 48, 48, 48],
    }
}

/// Appends `bytes`.
pub(crate) fn push_bytes(out: &mut Vec<u8>, bytes: &[u8])
    ensures
        final(out)@ == old(out)@ + bytes@,
{
    let mut i: usize = 0;
    while i < bytes.len()
        invariant
            i <= bytes@.len(),
            out@ == old(out)@ + bytes@.subrange(0, i as int),
        decreases bytes@.len() - i,
    {
        out.push(bytes[i]);
        i = i + 1;
        assert(out@ =~= old(out)@ + bytes@.subrange(0, i as int));
    }
    assert(bytes@.subrange(0, bytes@.len() as int) =~= bytes@);
}

/// Appends the decimal digits of `n`.
fn push_decimal(out: &mut Vec<u8>, n: u128)
    ensures
        final(out)@ == old(out)@ + decimal(n as nat),
    decreases n,
{
    if n >= 10 {
        push_decimal(out, n / 10);
    }
    out.push(48 + (n % 10) as u8);
    proof {
        if n >= 10 {
            assert(decimal(n as nat) == decimal((n / 10) as nat).push((48 + n % 10) as u8));
        }
        assert(final(out)@ =~= old(out)@ + decimal(n as nat));
    }
}

/// Appends the decimal text of `n` (see [`signed_decimal`]).
fn push_signed(out: &mut Vec<u8>, n: i64)
    requires
        n > i64::MIN,
    ensures
        final(out)@ == old(out)@ + signed_decimal(n as int),
{
    if n < 0 {
        out.push(45);
        let ghost mid = out@;
        push_decimal(out, (-n) as u128);
        assert(final(out)@ =~= old(out)@ + signed_decimal(n as int));
    } else {
        push_decimal(out, n as u128);
    }
}

/// The info line for an iteration with `nps` nodes per second after `ms`
/// milliseconds (see [`info_text`]).
pub fn info_bytes(depth: u32, score: i32, nodes: u64, nps: u128, ms: u128, best_move: Option<Move>) -> (b: Vec<u8>)
    ensures
        b@ == info_text(depth, score, nodes, nps, ms, best_move),
{
    let mut out: Vec<u8> = Vec::new();
    push_bytes(&mut out, &[105u8, 110, 102, 111, 32, 100, 101, 112, 116, 104, 32]);
    push_decimal(&mut out, depth as u128);
    out.push(32);
    let mate = if score > i32::MIN {
        crate::search::mate_in(score)
    } else {
        None
    };
    let ghost before_score = out@;
    match mate {
        Some(m) => {
            push_bytes(&mut out, &[115u8, 99, 111, 114, 101, 32, 109, 97, 116, 101, 32]);
            push_signed(&mut out, m as i64);
        },
        None => {
            push_bytes(&mut out, &[115u8, 99, 111, 114, 101, 32, 99, 112, 32]);
            push_signed(&mut out, score as i64);
        },
    }
    proof {
        assert(mate_moves(score as int) is None ==> mate is None);
        assert(out@ =~= before_score + score_text(score as int));
    }
    push_bytes(&mut out, &[32u8, 110, 111, 100, 101, 115, 32]);
    push_decimal(&mut out, nodes as u128);
    push_bytes(&mut out, &[32u8, 110, 112, 115, 32]);
    push_decimal(&mut out, nps);
    push_bytes(&mut out, &[32u8, 116, 105, 109, 101, 32]);
    push_decimal(&mut out, ms);
    let ghost before_pv = out@;
    if let Some(mv) = best_move {
        push_bytes(&mut out, &[32u8, 112, 118, 32]);
        let text = move_bytes(mv);
        push_bytes(&mut out, text.as_slice());
    }
    proof {
        assert(out@ =~= info_text(depth, score, nodes, nps, ms, best_move));
    }
    out
}

/// The bestmove line (see [`bestmove_text`]).
pub fn bestmove_bytes(best_move: Option<Move>) -> (b: Vec<u8>)
    ensures
        b@ == bestmove_text(best_move),
{
    let mut out: Vec<u8> = Vec::new();
    push_bytes(&mut out, &[98u8, 101, 115, 116, 109, 111, 118, 101, 32]);
    match best_move {
        Some(mv) => {
            let text = move_bytes(mv);
            push_bytes(&mut out, text.as_slice());
        },
        None => push_bytes(&mut out, &[48u8, 48, 48, 48]),
    }
    assert(out@ =~= bestmove_text(best_move));
    out
}

/// The info line for an iteration, with its rate and time read from the
/// iteration's clock (see [`info_text`]; those two fields are whatever the
/// clock gave).
pub fn info_line(iteration: &Iteration) -> (b: Vec<u8>)
    ensures
        exists|nps: u128, ms: u128|
            b@ == info_text(
                iteration.depth,
                iteration.score,
                iteration.nodes,
                nps,
                ms,
                iteration.best_move,
            ),
{
    let ms = duration_millis(&iteration.elapsed);
    let nps = iteration.nps();
    info_bytes(iteration.depth, iteration.score, iteration.nodes, nps, ms, iteration.best_move)
}

impl UciListener<Vec<u8>> {
    /// Writes the info line of an iteration and a newline.
    pub fn write_iteration(&mut self, iteration: &Iteration)
        ensures
            exists|nps: u128, ms: u128|
                final(self).spec_output()@ == old(self).spec_output()@ + info_text(
                    iteration.depth,
                    iteration.score,
                    iteration.nodes,
                    nps,
                    ms,
                    iteration.best_move,
                ) + seq![10u8],
    {
        let line = info_line(iteration);
        push_bytes(&mut self.output, line.as_slice());
        self.output.push(10);
        proof {
            let (nps, ms) = choose|nps: u128, ms: u128|
                line@ == info_text(
                    iteration.depth,
                    iteration.score,
                    iteration.nodes,
                    nps,
                    ms,
                    iteration.best_move,
                );
            assert(self.output@ =~= old(self).output@ + info_text(
                iteration.depth,
                iteration.score,
                iteration.nodes,
                nps,
                ms,
                iteration.best_move,
            ) + seq![10u8]);
        }
    }

    /// Writes the bestmove line and a newline.
    pub fn write_bestmove(&mut self, best_move: Option<Move>)
        ensures
            final(self).spec_output()@ == old(self).spec_output()@ + bestmove_text(best_move) + seq![
                10u8,
            ],
    {
        let line = bestmove_bytes(best_move);
        push_bytes(&mut self.output, line.as_slice());
        self.output.push(10);
        assert(self.output@ =~= old(self).output@ + bestmove_text(best_move) + seq![10u8]);
    }
}

/// Renders each iteration as an info line and the result as a bestmove
/// line, into the buffer.
impl SearchListener for UciListener<Vec<u8>> {
    fn iteration(&mut self, iteration: &Iteration)
        ensures
            exists|nps: u128, ms: u128|
                final(self).spec_output()@ == old(self).spec_output()@ + info_text(
                    iteration.depth,
                    iteration.score,
                    iteration.nodes,
                    nps,
                    ms,
                    iteration.best_move,
                ) + seq![10u8],
    {
        self.write_iteration(iteration);
    }

    fn finished(&mut self, best_move: Option<Move>)
        ensures
            final(self).spec_output()@ == old(self).spec_output()@ + bestmove_text(best_move) + seq![
                10u8,
            ],
    {
        self.write_bestmove(best_move);
    }
}

} // verus!
