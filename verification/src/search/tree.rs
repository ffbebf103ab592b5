//! The search tree: iterative-deepening alpha-beta negamax with a
//! transposition table, null-move pruning, reverse futility pruning,
//! late-move reductions, principal-variation search, check extensions and
//! quiescence, its moves ordered by the transposition table, MVV-LVA,
//! killers and history.
use std::sync::atomic::AtomicBool;
use std::time::{Duration, Instant};
use vstd::prelude::*;
use crate::board::{Bitboard, Board, Color, Move, MoveType, Piece, PieceType, Square};
use crate::board::board::{
    can_make, lemma_make_unmake, lemma_null_round_trip, made, make_mailbox, null_made, repeats,
    reversible,
};
use crate::board::moves::{type_is_capture, type_is_promotion, type_promoted_piece};
use crate::board::piece::other;
use crate::eval::position::{evaluate, pawns_placed};
use crate::movegen::attacks::{attacked, attackers, attackers_to, is_attacked, pawn_attacks, pawn_step};
use crate::board::bitboard::is_lowest;
use crate::movegen::legal::{has_king, is_playable, lemma_pseudo_playable, lowest_king, playable};
use crate::movegen::gen::pseudo_move;
use crate::movegen::legal::{king_safe_after, legal_move};
use crate::movegen::{MoveList, generate_captures, generate_legal, generate_pseudo, generate_quiets};
use crate::eval::TEMPO;
use crate::search::{DRAW, INFINITY, MATE, MATE_BOUND, Limits, score_from_tt, score_to_tt};
use crate::tt::{Bound, TranspositionTable};
use crate::search::minimax::{
    lemma_value_same,
    lemma_quiescence_of, lemma_value_of,
    lemma_move_of,
    capture_of, lemma_capture_child, lemma_capture_lower, lemma_capture_upper, quiescence_of,
    searched_in_quiescence,
    fail_soft, lemma_child_value, lemma_reply_lower, lemma_reply_upper, legal_on, reply_of, value_of,
};
use crate::search::clock::{duration_millis, elapsed_ms, elapsed_since, instant_now, stop_requested};

verus! {

/// Nodes between clock checks.
pub const CHECK_INTERVAL: u64 = 256;

/// Halfmove clock at which the fifty-move rule applies: 50 full moves each.
pub const FIFTY_MOVE_PLIES: u8 = 100;

/// Quiescence ply ceiling.
pub const MAX_QPLY: u32 = 8;

/// Null-move floor.
pub const MIN_NULL_DEPTH: u32 = 3;

/// Per-ply reverse futility margin, in centipawns.
pub const RFP_MARGIN: i32 = 300;

/// Half-width of the aspiration window, in centipawns.
pub const ASPIRATION_DELTA: i32 = 45;

/// Depth at which aspiration starts.
pub const ASPIRATION_MIN_DEPTH: u32 = 4;

/// Killer ply ceiling; past it the killer slots are skipped.
pub const MAX_PLY: u32 = 64;

/// The deepest iteration a search runs. The clock ends any real search long
/// before it.
pub const MAX_DEPTH: u32 = 1000;

/// Every score a search returns, and every window it searches, lies within
/// this many centipawns of zero: far beyond any evaluation, which keeps the
/// window arithmetic clear of overflow.
pub const WINDOW: i32 = 10_000_000;

/// No static score reaches this far from zero: the evaluation, mate
/// scores and stored scores all stay within it.
pub const SCORE_LIMIT: i32 = 1_100_000;

/// Ordering values by piece type, separate from the evaluation's.
pub const ORDER_VALUES: [i32; 6] = [100, 320, 330, 500, 900, 10_000];

/// The sort key of the transposition table's move, below every capture key.
pub const TT_MOVE_KEY: i32 = -100_000;

/// A search abandoned because the clock, the node budget or the stop flag
/// ran out.
#[derive(Debug, Clone, Copy, PartialEq, Eq, Structural)]
pub struct Aborted;

/// `n`, or `u64::MAX` where it is larger: how the node counters add up.
pub open spec fn saturated_count(n: int) -> int {
    if n > u64::MAX {
        u64::MAX as int
    } else {
        n
    }
}

/// Mutable search state threaded through the recursion.
pub struct Ctx<'a> {
    limits: Limits,
    stop: &'a AtomicBool,
    start: Instant,
    /// Milliseconds from `start` after which the search stops.
    deadline: Option<u64>,
    nodes: u64,
    qnodes: u64,
    iteration_depth: u32,
    /// Two quiet moves per ply that last caused a beta cutoff there.
    killers: Vec<[Option<Move>; 2]>,
    /// Cutoff counts by side, origin and destination: `side * 4096 + from *
    /// 64 + to`.
    history: Vec<i32>,
    /// Late-move reductions by depth and move number.
    lmr: &'a [[u8; 64]; 64],
    /// Whether the main search's leaves are resolved by quiescence (else
    /// they take the static evaluation).
    quiesce_leaves: bool,
    /// Whether moves after the first are probed on a null window.
    pvs: bool,
    /// Whether later iterations start on a narrow window.
    aspiration: bool,
    /// Whether null-move pruning is tried.
    nmp: bool,
    /// Whether reverse futility pruning is tried.
    rfp: bool,
    /// Whether checking moves are extended.
    check_extension: bool,
    /// Whether late quiet moves are reduced.
    reduce_late: bool,
    /// Whether the transposition table is probed and filled.
    use_table: bool,
    /// How many late-move reductions were made.
    reductions: u64,
}

impl<'a> Ctx<'a> {
    /// The tables have their sizes.
    pub closed spec fn wf(&self) -> bool {
        &&& self.killers@.len() == MAX_PLY
        &&& self.history@.len() == 8192
        &&& forall|i: int| 0 <= i < 8192 ==> #[trigger] self.history@[i] >= 0
    }

    /// The iteration being searched.
    pub closed spec fn spec_iteration(&self) -> u32 {
        self.iteration_depth
    }

    /// The killer slots of `ply`, empty past [`MAX_PLY`].
    pub closed spec fn spec_killers(&self, ply: int) -> [Option<Move>; 2] {
        if 0 <= ply < MAX_PLY {
            self.killers@[ply]
        } else {
            [None, None]
        }
    }

    /// The history counts, by [`history_slot`].
    pub closed spec fn spec_history(&self) -> Seq<i32> {
        self.history@
    }

    /// `after` is this state with counters and tables updated, still on the
    /// same iteration.
    pub open spec fn same_run(&self, after: &Ctx) -> bool {
        &&& after.wf()
        &&& after.spec_iteration() == self.spec_iteration()
        &&& after.spec_nodes() >= self.spec_nodes()
        &&& after.spec_qnodes() >= self.spec_qnodes()
        &&& after.spec_switches() == self.spec_switches()
    }

    /// Which features are on: quiescence at the leaves, principal-variation
    /// probing, aspiration, null-move pruning, reverse futility pruning,
    /// check extensions, late-move reductions and the table.
    pub closed spec fn spec_switches(&self) -> (bool, bool, bool, bool, bool, bool, bool, bool) {
        (
            self.quiesce_leaves,
            self.pvs,
            self.aspiration,
            self.nmp,
            self.rfp,
            self.check_extension,
            self.reduce_late,
            self.use_table,
        )
    }

    /// Plain alpha-beta: null-move pruning, reverse futility pruning, check
    /// extensions, late-move reductions and the table are off (quiescence
    /// at the leaves, principal-variation probing and aspiration may stay
    /// on).
    pub open spec fn plain(&self) -> bool {
        let w = self.spec_switches();
        !w.3 && !w.4 && !w.5 && !w.6 && !w.7
    }

    /// Fresh state for a search.
    pub fn new(
        limits: Limits,
        stop: &'a AtomicBool,
        start: Instant,
        deadline: Option<u64>,
        lmr: &'a [[u8; 64]; 64],
    ) -> (c: Ctx<'a>)
        ensures
            c.wf(),
            c.spec_iteration() == 1,
    {
        let mut killers: Vec<[Option<Move>; 2]> = Vec::new();
        let mut i: u32 = 0;
        while i < MAX_PLY
            invariant
                i <= MAX_PLY,
                killers@.len() == i,
            decreases MAX_PLY - i,
        {
            killers.push([None, None]);
            i = i + 1;
        }
        let mut history: Vec<i32> = Vec::new();
        let mut j: usize = 0;
        while j < 8192
            invariant
                j <= 8192,
                history@.len() == j,
                forall|k: int| 0 <= k < j ==> #[trigger] history@[k] >= 0,
            decreases 8192 - j,
        {
            history.push(0);
            j = j + 1;
        }
        Ctx {
            limits,
            stop,
            start,
            deadline,
            nodes: 0,
            qnodes: 0,
            iteration_depth: 1,
            killers,
            history,
            lmr,
            quiesce_leaves: true,
            pvs: true,
            aspiration: true,
            nmp: true,
            rfp: true,
            check_extension: true,
            reduce_late: true,
            use_table: true,
            reductions: 0,
        }
    }

    /// Turns quiescence at the main search's leaves on or off (on by
    /// default); off, a leaf takes the static evaluation.
    pub fn set_quiesce_leaves(&mut self, on: bool)
        requires
            old(self).wf(),
        ensures
            final(self).wf(),
            final(self).spec_iteration() == old(self).spec_iteration(),
            final(self).spec_nodes() == old(self).spec_nodes(),
            final(self).spec_qnodes() == old(self).spec_qnodes(),
    {
        self.quiesce_leaves = on;
    }

    /// Turns principal-variation probing on or off (on by default); off,
    /// every move is searched on the full window.
    pub fn set_pvs(&mut self, on: bool)
        requires
            old(self).wf(),
        ensures
            final(self).wf(),
            final(self).spec_iteration() == old(self).spec_iteration(),
            final(self).spec_nodes() == old(self).spec_nodes(),
            final(self).spec_qnodes() == old(self).spec_qnodes(),
    {
        self.pvs = on;
    }

    /// Turns aspiration windows on or off (on by default).
    pub fn set_aspiration(&mut self, on: bool)
        requires
            old(self).wf(),
        ensures
            final(self).wf(),
            final(self).spec_iteration() == old(self).spec_iteration(),
            final(self).spec_nodes() == old(self).spec_nodes(),
            final(self).spec_qnodes() == old(self).spec_qnodes(),
    {
        self.aspiration = on;
    }

    /// Turns null-move pruning on or off (on by default).
    pub fn set_null_move(&mut self, on: bool)
        requires
            old(self).wf(),
        ensures
            final(self).wf(),
            final(self).spec_iteration() == old(self).spec_iteration(),
            final(self).spec_nodes() == old(self).spec_nodes(),
            final(self).spec_qnodes() == old(self).spec_qnodes(),
    {
        self.nmp = on;
    }

    /// Turns reverse futility pruning on or off (on by default).
    pub fn set_reverse_futility(&mut self, on: bool)
        requires
            old(self).wf(),
        ensures
            final(self).wf(),
            final(self).spec_iteration() == old(self).spec_iteration(),
            final(self).spec_nodes() == old(self).spec_nodes(),
            final(self).spec_qnodes() == old(self).spec_qnodes(),
    {
        self.rfp = on;
    }

    /// Turns check extensions on or off (on by default).
    pub fn set_check_extension(&mut self, on: bool)
        requires
            old(self).wf(),
        ensures
            final(self).wf(),
            final(self).spec_iteration() == old(self).spec_iteration(),
            final(self).spec_nodes() == old(self).spec_nodes(),
            final(self).spec_qnodes() == old(self).spec_qnodes(),
    {
        self.check_extension = on;
    }

    /// Turns the transposition table on or off (on by default); off, it is
    /// neither probed nor filled.
    pub fn set_table(&mut self, on: bool)
        requires
            old(self).wf(),
        ensures
            final(self).wf(),
            final(self).spec_iteration() == old(self).spec_iteration(),
            final(self).spec_nodes() == old(self).spec_nodes(),
            final(self).spec_qnodes() == old(self).spec_qnodes(),
            final(self).spec_switches().7 == on,
    {
        self.use_table = on;
    }

    /// Turns late-move reductions on or off (on by default).
    pub fn set_late_move_reductions(&mut self, on: bool)
        requires
            old(self).wf(),
        ensures
            final(self).wf(),
            final(self).spec_iteration() == old(self).spec_iteration(),
            final(self).spec_nodes() == old(self).spec_nodes(),
            final(self).spec_qnodes() == old(self).spec_qnodes(),
    {
        self.reduce_late = on;
    }

    /// The late-move reductions counted so far.
    pub closed spec fn spec_reductions(&self) -> u64 {
        self.reductions
    }

    /// How many late-move reductions the search has made.
    pub fn lmr_reductions(&self) -> (n: u64)
        ensures
            n == self.spec_reductions(),
    {
        self.reductions
    }

    /// Counts a late-move reduction.
    fn count_reduction(&mut self)
        requires
            old(self).wf(),
        ensures
            old(self).same_run(final(self)),
            final(self).reduce_late == old(self).reduce_late,
            final(self).pvs == old(self).pvs,
    {
        self.reductions = self.reductions.saturating_add(1);
    }

    /// The limits the search runs under.
    pub closed spec fn spec_limits(&self) -> Limits {
        self.limits
    }

    /// The main-search nodes counted so far.
    pub closed spec fn spec_nodes(&self) -> u64 {
        self.nodes
    }

    /// The quiescence nodes counted so far.
    pub closed spec fn spec_qnodes(&self) -> u64 {
        self.qnodes
    }

    /// Every node visited, main and quiescence (saturating at `u64::MAX`),
    /// so never fewer than either count.
    pub fn total(&self) -> (t: u64)
        ensures
            t == (if self.spec_nodes() + self.spec_qnodes() > u64::MAX {
                u64::MAX as int
            } else {
                self.spec_nodes() + self.spec_qnodes()
            }),
            t >= self.spec_qnodes(),
            t >= self.spec_nodes(),
    {
        self.nodes.saturating_add(self.qnodes)
    }

    /// Main-search nodes visited.
    pub fn nodes(&self) -> (n: u64)
        ensures
            n == self.spec_nodes(),
    {
        self.nodes
    }

    /// Quiescence nodes visited.
    pub fn qnodes(&self) -> (n: u64)
        ensures
            n == self.spec_qnodes(),
    {
        self.qnodes
    }

    /// Whether the stop flag, the node budget or the clock has run out.
    pub fn out_of_time(&self) -> (r: bool)
        ensures
            (self.spec_limits().nodes matches Some(limit) && self.spec_nodes() + self.spec_qnodes()
                >= limit) ==> r,
    {
        if stop_requested(self.stop) {
            return true;
        }
        if let Some(limit) = self.limits.nodes {
            if self.total() >= limit {
                return true;
            }
        }
        match self.deadline {
            Some(ms) => elapsed_ms(&self.start) >= ms,
            None => false,
        }
    }

    /// Aborts every `CHECK_INTERVAL` nodes once out of time, never during the
    /// first iteration, which must always complete.
    fn check_abort(&self) -> (r: Result<(), Aborted>)
        ensures
            self.spec_iteration() == 1 ==> r is Ok,
    {
        if self.iteration_depth == 1 || self.total() % CHECK_INTERVAL != 0 {
            return Ok(());
        }
        if self.out_of_time() {
            Err(Aborted)
        } else {
            Ok(())
        }
    }

    /// Starts the iteration of `depth` plies.
    pub fn set_iteration(&mut self, depth: u32)
        requires
            old(self).wf(),
        ensures
            final(self).wf(),
            final(self).spec_iteration() == depth,
            final(self).spec_nodes() == old(self).spec_nodes(),
            final(self).spec_qnodes() == old(self).spec_qnodes(),
    {
        self.iteration_depth = depth;
    }

    /// Counts a main-search node.
    fn count_node(&mut self)
        requires
            old(self).wf(),
        ensures
            old(self).same_run(final(self)),
            final(self).spec_nodes() == saturated_count(old(self).spec_nodes() + 1),
            final(self).spec_qnodes() == old(self).spec_qnodes(),
    {
        self.nodes = self.nodes.saturating_add(1);
    }

    /// Counts a quiescence node.
    fn count_qnode(&mut self)
        requires
            old(self).wf(),
        ensures
            old(self).same_run(final(self)),
            final(self).spec_qnodes() == saturated_count(old(self).spec_qnodes() + 1),
            final(self).spec_nodes() == old(self).spec_nodes(),
    {
        self.qnodes = self.qnodes.saturating_add(1);
    }

    /// The late-move reduction for the move at `index` in a `depth`-ply
    /// search.
    fn reduction(&self, depth: u32, index: usize) -> (r: u32)
        requires
            depth >= 3,
        ensures
            1 <= r <= depth - 2,
    {
        crate::search::lmr_reduction(self.lmr, depth, index)
    }

    /// The killer slots for `ply`, empty past `MAX_PLY`.
    pub fn killers_at(&self, ply: u32) -> (k: [Option<Move>; 2])
        requires
            self.wf(),
        ensures
            k == self.spec_killers(ply as int),
    {
        if ply < MAX_PLY {
            self.killers[ply as usize]
        } else {
            [None, None]
        }
    }

    /// Makes `mv` the first killer at `ply`, the old first the second,
    /// unless it is the first already; past [`MAX_PLY`] nothing is kept.
    pub fn store_killer(&mut self, ply: u32, mv: Move)
        requires
            old(self).wf(),
        ensures
            old(self).same_run(final(self)),
            final(self).spec_history() == old(self).spec_history(),
            forall|p: int| p != ply ==> #[trigger] final(self).spec_killers(p) == old(self).spec_killers(p),
            final(self).spec_killers(ply as int) == (if ply < MAX_PLY && old(self).spec_killers(
                ply as int,
            )[0] != Some(mv) {
                [Some(mv), old(self).spec_killers(ply as int)[0]]
            } else {
                old(self).spec_killers(ply as int)
            }),
    {
        if ply >= MAX_PLY {
            return;
        }
        let slot = self.killers[ply as usize];
        if slot[0] == Some(mv) {
            return;
        }
        self.killers.set(ply as usize, [Some(mv), slot[0]]);
    }

    /// The history count of a quiet move by `side` from `from` to `to`.
    pub fn history_at(&self, side: Color, from: Square, to: Square) -> (h: i32)
        requires
            self.wf(),
        ensures
            h == self.spec_history()[history_slot(side, from.idx(), to.idx())],
            h >= 0,
    {
        let i = side.index() as usize * 4096 + from.index() as usize * 64 + to.index() as usize;
        self.history[i]
    }

    /// Raises the history count of a cutoff move by `depth * depth`,
    /// saturating.
    pub fn bump_history(&mut self, side: Color, from: Square, to: Square, depth: u32)
        requires
            old(self).wf(),
            depth * depth <= i32::MAX,
        ensures
            old(self).same_run(final(self)),
            forall|p: int| #[trigger] final(self).spec_killers(p) == old(self).spec_killers(p),
            final(self).spec_history() == old(self).spec_history().update(
                history_slot(side, from.idx(), to.idx()),
                (if old(self).spec_history()[history_slot(side, from.idx(), to.idx())] + depth
                    * depth > i32::MAX {
                    i32::MAX as int
                } else {
                    old(self).spec_history()[history_slot(side, from.idx(), to.idx())] + depth
                        * depth
                }) as i32,
            ),
    {
        let i = side.index() as usize * 4096 + from.index() as usize * 64 + to.index() as usize;
        let v = self.history[i];
        let inc = (depth * depth) as i32;
        let bumped = if v > i32::MAX - inc {
            i32::MAX
        } else {
            v + inc
        };
        self.history.set(i, bumped);
    }
}

/// Where the history count of a quiet move by `side` from `from` to `to`
/// is kept.
pub open spec fn history_slot(side: Color, from: int, to: int) -> int {
    (if side == Color::White {
        0int
    } else {
        1int
    }) * 4096 + from * 64 + to
}

/// Whether `side`'s king is on the board and attacked.
pub open spec fn checked(mb: Seq<Option<Piece>>, side: Color) -> bool {
    exists|k: int| lowest_king(mb, side, k) && attacked(mb, k, other(side))
}

/// The lowest king square is the only one.
proof fn lemma_lowest_unique(mb: Seq<Option<Piece>>, side: Color, k: int, k2: int)
    requires
        lowest_king(mb, side, k),
        lowest_king(mb, side, k2),
    ensures
        k == k2,
{
    if k2 < k {
        assert(mb[k2] != Some(Piece::of(side, PieceType::King)));
    } else if k2 > k {
        assert(mb[k] != Some(Piece::of(side, PieceType::King)));
    }
}

/// Whether `side`'s king is on the board and attacked.
pub fn in_check(board: &Board, side: Color) -> (r: bool)
    requires
        board.layout_ok(),
    ensures
        r == checked(board.spec_mailbox(), side),
{
    let ghost mb = board.spec_mailbox();
    let ghost king = Piece::of(side, PieceType::King);
    let kings = board.pieces(PieceType::King).and(board.color(side));
    proof {
        board.lemma_valid_pieces();
        board.lemma_mailbox_len();
        assert forall|i: int| #[trigger] kings@.contains(i) == (0 <= i < 64 && mb[i] == Some(king)) by {
            if 0 <= i < 64 && mb[i] is Some {
                let p = mb[i]->0;
                p.lemma_of(king, side, PieceType::King);
                king.lemma_of(p, side, PieceType::King);
            }
        }
    }
    if kings.is_empty() {
        proof {
            if checked(mb, side) {
                let k = choose|k: int| lowest_king(mb, side, k) && attacked(mb, k, other(side));
                assert(kings@.contains(k));
            }
        }
        return false;
    }
    proof {
        crate::movegen::attacks::lemma_witness(kings@);
    }
    let k = board.king_square(side);
    let r = is_attacked(board, k, side.flip());
    proof {
        assert(lowest_king(mb, side, k.idx()));
        if checked(mb, side) {
            let k2 = choose|k2: int| lowest_king(mb, side, k2) && attacked(mb, k2, other(side));
            lemma_lowest_unique(mb, side, k.idx(), k2);
        }
    }
    r
}

/// The position is drawn by the fifty-move rule or by repetition.
pub open spec fn drawn(b: Board) -> bool {
    b.spec_state().spec_halfmove() >= FIFTY_MOVE_PLIES || repeats(b)
}

/// Whether the position is drawn by the fifty-move rule or by repetition.
pub fn is_draw(board: &Board) -> (r: bool)
    ensures
        r == drawn(*board),
{
    board.state().halfmove_clock() >= FIFTY_MOVE_PLIES || board.is_repetition()
}

/// The score of a position without a legal move: mated (at `ply` plies from
/// the root) when in check, else stalemate.
pub fn terminal_score(board: &Board, ply: u32) -> (r: i32)
    requires
        board.layout_ok(),
        ply <= i32::MAX,
    ensures
        r == (if checked(board.spec_mailbox(), board.spec_state().spec_side()) {
            -MATE + ply
        } else {
            DRAW as int
        }),
{
    let side = board.state().side_to_move();
    if in_check(board, side) {
        -MATE + ply as i32
    } else {
        DRAW
    }
}

/// Whether the search can work on the position: the move generators can
/// play on it (see [`playable`]) and no pawn stands on its promotion rank.
pub fn searchable(board: &Board) -> (r: bool)
    requires
        board.wf(),
    ensures
        r == (playable(*board) && pawns_placed(board.spec_mailbox())),
{
    proof {
        board.lemma_wf_layout();
        board.lemma_mailbox_len();
    }
    if !is_playable(board) {
        return false;
    }
    let pawns = board.pieces(PieceType::Pawn);
    let top = pawns.and(board.color(Color::White)).and(Bitboard::new(u64::MAX << 56u64));
    let bottom = pawns.and(board.color(Color::Black)).and(Bitboard::new(u64::MAX >> 56u64));
    proof {
        let mb = board.spec_mailbox();
        assert forall|j: int| 0 <= j < 64 implies (crate::bits::bit(u64::MAX << 56u64, j) == (j >= 56)
            && crate::bits::bit(u64::MAX >> 56u64, j) == (j < 8)) by {
            crate::bits::lemma_mask_bits(0, 56, j as u64);
        }
        if top@ != Set::<int>::empty() {
            crate::movegen::attacks::lemma_witness(top@);
            let i = choose|i: int| top@.contains(i);
            assert(crate::movegen::gen::owns(mb, i, Color::White, PieceType::Pawn));
            assert(i >= 56);
        }
        if bottom@ != Set::<int>::empty() {
            crate::movegen::attacks::lemma_witness(bottom@);
            let i = choose|i: int| bottom@.contains(i);
            assert(crate::movegen::gen::owns(mb, i, Color::Black, PieceType::Pawn));
            assert(i < 8);
        }
        if !pawns_placed(mb) {
            if exists|i: int| crate::movegen::gen::owns(mb, i, Color::White, PieceType::Pawn) && !(i / 8 < 7) {
                let i = choose|i: int| crate::movegen::gen::owns(mb, i, Color::White, PieceType::Pawn) && !(i / 8 < 7);
                assert(top@.contains(i));
            } else {
                let i = choose|i: int| crate::movegen::gen::owns(mb, i, Color::Black, PieceType::Pawn) && !(i / 8 > 0);
                assert(bottom@.contains(i));
            }
        }
    }
    top.is_empty() && bottom.is_empty()
}

/// Whether sort key `a` orders after `b`.
fn key_after(a: (i32, i32), b: (i32, i32)) -> (r: bool)
    ensures
        r == !key_le(pair(a), pair(b)),
{
    a.0 > b.0 || (a.0 == b.0 && a.1 > b.1)
}

/// The square a move's victim stands on: beside the mover for en passant,
/// the destination for any other capture, none for a quiet move.
pub open spec fn victim_index(mv: Move) -> Option<int> {
    if mv.spec_type() == MoveType::EnPassant {
        Some(8 * (mv.from_idx() / 8) + mv.to_idx() % 8)
    } else if type_is_capture(mv.spec_type()) {
        Some(mv.to_idx())
    } else {
        None
    }
}

/// The square a captured piece stands on: `to` for every capture except en
/// passant, where the victim stands beside the mover.
pub fn victim_square(mv: Move) -> (s: Option<Square>)
    ensures
        s is Some <==> victim_index(mv) is Some,
        s matches Some(q) ==> q.idx() == victim_index(mv)->0,
{
    match mv.move_type() {
        MoveType::EnPassant => Square::new(mv.to().file(), mv.from().rank()),
        _ => if mv.is_capture() {
            Some(mv.to())
        } else {
            None
        },
    }
}

/// The ordering value of a piece type (see [`ORDER_VALUES`]).
pub open spec fn order_value_of(kind: PieceType) -> int {
    match kind {
        PieceType::Pawn => 100,
        PieceType::Knight => 320,
        PieceType::Bishop => 330,
        PieceType::Rook => 500,
        PieceType::Queen => 900,
        PieceType::King => 10_000,
    }
}

/// The ordering value of the piece on square `i`, 0 for an empty one.
pub open spec fn value_on(mb: Seq<Option<Piece>>, i: int) -> int {
    match mb[i] {
        Some(p) => order_value_of(p.spec_kind()),
        None => 0,
    }
}

/// The sort key of `mv` on `mb` with `side` to move, ascending: the
/// transposition table's move first, then captures and promotions by gain
/// (victim plus promoted piece) descending and attacker ascending, then the
/// first and the second killer, then the other quiets by history descending.
pub open spec fn key_of(
    mb: Seq<Option<Piece>>,
    side: Color,
    mv: Move,
    tt_move: Option<Move>,
    killers: [Option<Move>; 2],
    history: Seq<i32>,
) -> (int, int) {
    let victim = match victim_index(mv) {
        Some(i) => value_on(mb, i),
        None => 0,
    };
    let promoted = match type_promoted_piece(mv.spec_type()) {
        Some(k) => order_value_of(k),
        None => 0,
    };
    if tt_move == Some(mv) {
        (TT_MOVE_KEY as int, 0)
    } else if victim == 0 && promoted == 0 {
        if killers[0] == Some(mv) {
            (-2, 0)
        } else if killers[1] == Some(mv) {
            (-1, 0)
        } else {
            (0, -history[history_slot(side, mv.from_idx(), mv.to_idx())])
        }
    } else {
        (-(victim + promoted), value_on(mb, mv.from_idx()))
    }
}

/// The ordering value of a piece type.
fn order_value(kind: PieceType) -> (v: i32)
    ensures
        v == order_value_of(kind),
        100 <= v <= 10_000,
{
    ORDER_VALUES[kind.index() as usize]
}

/// The sort key of a move (see [`key_of`]), with the history of `ctx`.
pub fn order_key(
    board: &Board,
    mv: Move,
    tt_move: Option<Move>,
    killers: [Option<Move>; 2],
    ctx: &Ctx,
) -> (k: (i32, i32))
    requires
        ctx.wf(),
    ensures
        (k.0 as int, k.1 as int) == key_of(
            board.spec_mailbox(),
            board.spec_state().spec_side(),
            mv,
            tt_move,
            killers,
            ctx.spec_history(),
        ),
{
    if tt_move == Some(mv) {
        return (TT_MOVE_KEY, 0);
    }
    let victim = match victim_square(mv) {
        Some(square) => match board.piece_on(square) {
            Some(piece) => order_value(piece.piece_type()),
            None => 0,
        },
        None => 0,
    };
    let promoted = match mv.promoted_piece() {
        Some(kind) => order_value(kind),
        None => 0,
    };
    if victim == 0 && promoted == 0 {
        if killers[0] == Some(mv) {
            return (-2, 0);
        }
        if killers[1] == Some(mv) {
            return (-1, 0);
        }
        let side = board.state().side_to_move();
        return (0, -ctx.history_at(side, mv.from(), mv.to()));
    }
    let attacker = match board.piece_on(mv.from()) {
        Some(piece) => order_value(piece.piece_type()),
        None => 0,
    };
    (-(victim + promoted), attacker)
}

/// The moves from `start` on are the moves that stood there before, each
/// still present, and those before `start` are unchanged.
pub open spec fn reordered(old: Seq<Move>, new: Seq<Move>, start: int) -> bool {
    &&& new.len() == old.len()
    &&& forall|j: int| 0 <= j < start ==> new[j] == old[j]
    &&& forall|j: int|
        start <= j < new.len() ==> old.subrange(start, old.len() as int).contains(#[trigger] new[j])
    &&& forall|j: int|
        start <= j < old.len() ==> new.subrange(start, new.len() as int).contains(#[trigger] old[j])
}

/// A list is a reordering of itself.
proof fn lemma_reordered_refl(s: Seq<Move>, start: int)
    requires
        0 <= start,
    ensures
        reordered(s, s, start),
{
    assert forall|j: int| start <= j < s.len() implies s.subrange(start, s.len() as int).contains(
        #[trigger] s[j],
    ) by {
        assert(s.subrange(start, s.len() as int)[j - start] == s[j]);
    }
}

/// Exchanging two moves from `start` on keeps a reordering a reordering.
proof fn lemma_reordered_swap(orig: Seq<Move>, before: Seq<Move>, start: int, a: int, b: int)
    requires
        reordered(orig, before, start),
        0 <= start <= a < before.len(),
        start <= b < before.len(),
    ensures
        reordered(orig, before.update(a, before[b]).update(b, before[a]), start),
{
    let after = before.update(a, before[b]).update(b, before[a]);
    let n = orig.len() as int;
    assert forall|x: int| start <= x < after.len() implies orig.subrange(start, n).contains(
        #[trigger] after[x],
    ) by {
        if x == b {
            assert(before[a] == after[x]);
            assert(orig.subrange(start, n).contains(before[a]));
        } else if x == a {
            assert(before[b] == after[x]);
            assert(orig.subrange(start, n).contains(before[b]));
        } else {
            assert(before[x] == after[x]);
            assert(orig.subrange(start, n).contains(before[x]));
        }
    }
    assert forall|x: int| start <= x < n implies after.subrange(start, n).contains(
        #[trigger] orig[x],
    ) by {
        assert(before.subrange(start, n).contains(orig[x]));
        let k = choose|k: int| 0 <= k < n - start && before.subrange(start, n)[k] == orig[x];
        let p = start + k;
        assert(before[p] == orig[x]);
        let q = if p == a {
            b
        } else if p == b {
            a
        } else {
            p
        };
        assert(after[q] == orig[x]);
        assert(after.subrange(start, n)[q - start] == orig[x]);
    }
}

/// Sort keys are ordered first by their first part, then by their second.
pub open spec fn key_le(a: (int, int), b: (int, int)) -> bool {
    a.0 < b.0 || (a.0 == b.0 && a.1 <= b.1)
}

/// A sort key as a pair of integers.
pub open spec fn pair(k: (i32, i32)) -> (int, int) {
    (k.0 as int, k.1 as int)
}

/// `keys[lo..hi]` is in ascending order.
pub open spec fn keys_sorted(keys: Seq<(i32, i32)>, lo: int, hi: int) -> bool {
    forall|x: int, y: int|
        lo <= x <= y < hi ==> key_le(pair(#[trigger] keys[x]), pair(#[trigger] keys[y]))
}

/// The moves from `start` on are in ascending order of their sort keys
/// (see [`key_of`]).
#[verifier::opaque]
pub open spec fn sorted_by_key(
    moves: Seq<Move>,
    start: int,
    mb: Seq<Option<Piece>>,
    side: Color,
    tt_move: Option<Move>,
    killers: [Option<Move>; 2],
    history: Seq<i32>,
) -> bool {
    forall|x: int, y: int|
        start <= x <= y < moves.len() ==> key_le(
            key_of(mb, side, #[trigger] moves[x], tt_move, killers, history),
            key_of(mb, side, #[trigger] moves[y], tt_move, killers, history),
        )
}

/// Sorts the moves from `start` on by [`order_key`] (see [`key_of`]),
/// stably, leaving the earlier ones alone.
pub fn order_moves(
    board: &Board,
    moves: &mut MoveList,
    start: usize,
    tt_move: Option<Move>,
    killers: [Option<Move>; 2],
    ctx: &Ctx,
)
    requires
        ctx.wf(),
        start <= old(moves)@.len(),
    ensures
        reordered(old(moves)@, final(moves)@, start as int),
        sorted_by_key(
            final(moves)@,
            start as int,
            board.spec_mailbox(),
            board.spec_state().spec_side(),
            tt_move,
            killers,
            ctx.spec_history(),
        ),
{
    let ghost mb = board.spec_mailbox();
    let ghost side = board.spec_state().spec_side();
    let ghost hist = ctx.spec_history();
    let n = moves.len();
    let mut keys: Vec<(i32, i32)> = Vec::new();
    let mut i = start;
    while i < n
        invariant
            start <= i <= n,
            n == moves@.len(),
            keys@.len() == i - start,
            ctx.wf(),
            hist == ctx.spec_history(),
            mb == board.spec_mailbox(),
            side == board.spec_state().spec_side(),
            forall|k: int|
                0 <= k < keys@.len() ==> pair(#[trigger] keys@[k]) == key_of(
                    mb,
                    side,
                    moves@[start + k],
                    tt_move,
                    killers,
                    hist,
                ),
        decreases n - i,
    {
        let ghost before = keys@;
        let mv = moves.get(i);
        let k = order_key(board, mv, tt_move, killers, ctx);
        keys.push(k);
        proof {
            assert forall|x: int| 0 <= x < keys@.len() implies pair(#[trigger] keys@[x]) == key_of(
                mb,
                side,
                moves@[start + x],
                tt_move,
                killers,
                hist,
            ) by {
                if x < before.len() {
                    assert(keys@[x] == before[x]);
                    assert(pair(before[x]) == key_of(mb, side, moves@[start + x], tt_move, killers, hist));
                } else {
                    assert(keys@[x] == k);
                    assert(start + x == i);
                    assert(moves@[start + x] == moves@[i as int]);
                }
            }
        }
        i = i + 1;
    }
    let ghost orig = moves@;
    proof {
        lemma_reordered_refl(orig, start as int);
    }
    if n <= start {
        proof {
            reveal(sorted_by_key);
        }
        return;
    }
    let mut i = start + 1;
    while i < n
        invariant
            start + 1 <= i <= n,
            n == moves@.len(),
            keys@.len() == n - start,
            reordered(orig, moves@, start as int),
            keys_sorted(keys@, 0, i - start),
            forall|k: int|
                0 <= k < keys@.len() ==> pair(#[trigger] keys@[k]) == key_of(
                    mb,
                    side,
                    moves@[start + k],
                    tt_move,
                    killers,
                    hist,
                ),
        decreases n - i,
    {
        let mut j = i;
        while j > start && key_after(keys[j - 1 - start], keys[j - start])
            invariant
                start <= j <= i < n,
                n == moves@.len(),
                keys@.len() == n - start,
                reordered(orig, moves@, start as int),
                keys_sorted(keys@, 0, j - start),
                keys_sorted(keys@, j - start, i - start + 1),
                forall|x: int, y: int|
                    0 <= x < j - start < y <= i - start ==> key_le(
                        pair(#[trigger] keys@[x]),
                        pair(#[trigger] keys@[y]),
                    ),
                forall|k: int|
                    0 <= k < keys@.len() ==> pair(#[trigger] keys@[k]) == key_of(
                        mb,
                        side,
                        moves@[start + k],
                        tt_move,
                        killers,
                        hist,
                    ),
            decreases j,
        {
            proof {
                lemma_reordered_swap(orig, moves@, start as int, j - 1, j as int);
            }
            let ghost before = keys@;
            let ghost moves_before = moves@;
            moves.swap(j - 1, j);
            let a = keys[j - 1 - start];
            let b = keys[j - start];
            keys.set(j - 1 - start, b);
            keys.set(j - start, a);
            proof {
                let jj = j - start;
                assert(!key_le(pair(before[jj - 1]), pair(before[jj])));
                assert forall|k: int| 0 <= k < keys@.len() implies pair(#[trigger] keys@[k]) == key_of(
                    mb,
                    side,
                    moves@[start + k],
                    tt_move,
                    killers,
                    hist,
                ) by {
                    if k == jj - 1 {
                        assert(moves@[start + k] == moves_before[start + jj]);
                        assert(pair(before[jj]) == key_of(mb, side, moves_before[start + jj], tt_move, killers, hist));
                    } else if k == jj {
                        assert(moves@[start + k] == moves_before[start + jj - 1]);
                        assert(pair(before[jj - 1]) == key_of(mb, side, moves_before[start + jj - 1], tt_move, killers, hist));
                    } else {
                        assert(moves@[start + k] == moves_before[start + k]);
                        assert(pair(before[k]) == key_of(mb, side, moves_before[start + k], tt_move, killers, hist));
                    }
                }
                assert forall|x: int, y: int| jj - 1 <= x <= y < i - start + 1 implies key_le(
                    pair(#[trigger] keys@[x]),
                    pair(#[trigger] keys@[y]),
                ) by {
                    if x == jj - 1 {
                        if y == jj - 1 {
                        } else if y == jj {
                        } else {
                            assert(key_le(pair(before[jj]), pair(before[y])));
                        }
                    } else if x == jj {
                        if y > jj {
                            assert(key_le(pair(before[jj - 1]), pair(before[y])));
                        }
                    } else {
                        assert(key_le(pair(before[x]), pair(before[y])));
                    }
                }
                assert forall|x: int, y: int| 0 <= x < jj - 1 < y <= i - start implies key_le(
                    pair(#[trigger] keys@[x]),
                    pair(#[trigger] keys@[y]),
                ) by {
                    if y == jj {
                        assert(key_le(pair(before[x]), pair(before[jj - 1])));
                    } else {
                        assert(key_le(pair(before[x]), pair(before[y])));
                    }
                }
                assert forall|x: int, y: int| 0 <= x <= y < jj - 1 implies key_le(
                    pair(#[trigger] keys@[x]),
                    pair(#[trigger] keys@[y]),
                ) by {
                    assert(key_le(pair(before[x]), pair(before[y])));
                }
            }
            j = j - 1;
        }
        proof {
            let jj = j - start;
            assert forall|x: int, y: int| 0 <= x <= y < i - start + 1 implies key_le(
                pair(#[trigger] keys@[x]),
                pair(#[trigger] keys@[y]),
            ) by {
                if x < jj && y == jj {
                    assert(key_le(pair(keys@[x]), pair(keys@[jj - 1])));
                    assert(key_le(pair(keys@[jj - 1]), pair(keys@[jj])));
                }
            }
        }
        i = i + 1;
    }
    proof {
        reveal(sorted_by_key);
        assert forall|x: int, y: int| start <= x <= y < moves@.len() implies key_le(
            key_of(mb, side, #[trigger] moves@[x], tt_move, killers, hist),
            key_of(mb, side, #[trigger] moves@[y], tt_move, killers, hist),
        ) by {
            assert(key_le(pair(keys@[x - start]), pair(keys@[y - start])));
        }
    }
}

/// The piece types in the order recaptures reach for them, cheapest first.
pub open spec fn kind_at(k: int) -> PieceType {
    if k == 0 {
        PieceType::Pawn
    } else if k == 1 {
        PieceType::Knight
    } else if k == 2 {
        PieceType::Bishop
    } else if k == 3 {
        PieceType::Rook
    } else if k == 4 {
        PieceType::Queen
    } else {
        PieceType::King
    }
}

/// The squares of `att` holding a piece of `side` of kind `kind`.
pub open spec fn attackers_of(mb: Seq<Option<Piece>>, att: Set<int>, side: Color, kind: PieceType) -> Set<int> {
    att.filter(
        |i: int| 0 <= i < 64 && mb[i] is Some && mb[i]->0.spec_color() == side && mb[i]->0.spec_kind() == kind,
    )
}

/// The cheapest attacker of `side` in `att`, looking at the kinds from
/// [`kind_at`]`(k)` on: the lowest square holding the cheapest kind present.
pub open spec fn cheapest_from(mb: Seq<Option<Piece>>, att: Set<int>, side: Color, k: int) -> Option<(int, PieceType)>
    decreases 6 - k,
{
    if k >= 6 || k < 0 {
        None
    } else {
        let s = attackers_of(mb, att, side, kind_at(k));
        if s == Set::<int>::empty() {
            cheapest_from(mb, att, side, k + 1)
        } else {
            Some((choose|i: int| is_lowest(s, i), kind_at(k)))
        }
    }
}

/// The lowest square of a set is unique.
proof fn lemma_lowest_one(s: Set<int>, a: int, b: int)
    requires
        is_lowest(s, a),
        is_lowest(s, b),
        0 <= a,
        0 <= b,
    ensures
        a == b,
{
}

/// The least valuable of `attackers` belonging to `side`, with its square
/// (see [`cheapest_from`]).
fn cheapest_attacker(board: &Board, attackers: Bitboard, side: Color) -> (r: Option<(Square, PieceType)>)
    requires
        board.layout_ok(),
    ensures
        r matches Some((sq, _)) ==> attackers@.contains(sq.idx()),
        r matches Some((sq, kind)) ==> cheapest_from(board.spec_mailbox(), attackers@, side, 0) == Some((sq.idx(), kind)),
        r is None ==> cheapest_from(board.spec_mailbox(), attackers@, side, 0) is None,
{
    let ghost mb = board.spec_mailbox();
    let ours = attackers.and(board.color(side));
    let kinds = [
        PieceType::Pawn,
        PieceType::Knight,
        PieceType::Bishop,
        PieceType::Rook,
        PieceType::Queen,
        PieceType::King,
    ];
    proof {
        assert forall|k: int| 0 <= k < 6 implies kinds@[k] == kind_at(k) by {
        }
    }
    let mut i: usize = 0;
    while i < 6
        invariant
            i <= 6,
            board.layout_ok(),
            mb == board.spec_mailbox(),
            ours@.subset_of(attackers@),
            ours@ == attackers@.intersect(Set::new(|j: int| 0 <= j < 64 && mb[j] is Some && mb[j]->0.spec_color() == side)),
            forall|k: int| 0 <= k < 6 ==> kinds@[k] == kind_at(k),
            cheapest_from(mb, attackers@, side, 0) == cheapest_from(mb, attackers@, side, i as int),
        decreases 6 - i,
    {
        let kind = kinds[i];
        let here = ours.and(board.pieces(kind));
        proof {
            assert(here@ =~= attackers_of(mb, attackers@, side, kind_at(i as int)));
        }
        match here.lsb() {
            Some(square) => {
                proof {
                    let s = attackers_of(mb, attackers@, side, kind_at(i as int));
                    assert(s != Set::<int>::empty()) by {
                        assert(s.contains(square.idx()));
                    }
                    let c = choose|j: int| is_lowest(s, j);
                    assert(is_lowest(s, square.idx()));
                    assert(is_lowest(s, c));
                    assert(s.contains(c));
                    lemma_lowest_one(s, c, square.idx());
                }
                return Some((square, kind));
            },
            None => {},
        }
        i = i + 1;
    }
    None
}

/// The most `side` gains by carrying on the exchange on `target`, where
/// the piece standing there is worth `on_square`, the pieces on `occ` take
/// part and at most `budget` more captures are made: the side to capture
/// takes with its cheapest attacker (see [`cheapest_from`]) when that gains
/// anything once the other side has answered the same way, and stops (for
/// nothing) otherwise. Removing each capturer from `occ` lets the pieces
/// behind it join in.
pub open spec fn exchange(
    mb: Seq<Option<Piece>>,
    target: int,
    occ: Set<int>,
    side: Color,
    on_square: int,
    budget: nat,
) -> int
    decreases budget,
{
    if budget == 0 {
        0
    } else {
        match cheapest_from(mb, attackers(mb, target, occ).intersect(occ), side, 0) {
            None => 0,
            Some((from, kind)) => {
                let s = on_square - exchange(
                    mb,
                    target,
                    occ.remove(from),
                    other(side),
                    order_value_of(kind),
                    (budget - 1) as nat,
                );
                if s > 0 {
                    s
                } else {
                    0
                }
            },
        }
    }
}

/// The static exchange value of `mv` for `side` on `mb`: the victim's value
/// less what the other side wins back by recapturing (see [`exchange`]), at
/// most 31 recaptures deep; zero for a move that captures nothing.
pub open spec fn see_value(mb: Seq<Option<Piece>>, side: Color, mv: Move) -> int {
    match victim_index(mv) {
        None => 0,
        Some(v) => if mb[v] is None || mb[mv.from_idx()] is None {
            0
        } else {
            order_value_of(mb[v]->0.spec_kind()) - exchange(
                mb,
                mv.to_idx(),
                Set::new(|i: int| 0 <= i < 64 && mb[i] is Some).remove(mv.from_idx()).remove(v),
                other(side),
                order_value_of(mb[mv.from_idx()]->0.spec_kind()),
                31,
            )
        },
    }
}

/// Gains `ps` taken in turn from the front, each side stopping when going
/// on would lose, ending on `x`.
pub open spec fn nest(ps: Seq<int>, x: int) -> int
    decreases ps.len(),
{
    if ps.len() == 0 {
        x
    } else {
        let s = ps[0] - nest(ps.drop_first(), x);
        if s > 0 {
            s
        } else {
            0
        }
    }
}

/// Taking one more gain at the end of the chain.
proof fn lemma_nest_push(ps: Seq<int>, p: int, x: int)
    ensures
        nest(ps.push(p), x) == nest(ps, if p - x > 0 {
            p - x
        } else {
            0
        }),
    decreases ps.len(),
{
    let m = if p - x > 0 {
        p - x
    } else {
        0
    };
    let q = ps.push(p);
    if ps.len() > 0 {
        assert(q.drop_first() =~= ps.drop_first().push(p));
        assert(q[0] == ps[0]);
        lemma_nest_push(ps.drop_first(), p, x);
        assert(nest(q.drop_first(), x) == nest(ps.drop_first(), m));
        assert(nest(q, x) == nest(ps, m));
    } else {
        assert(q.drop_first() =~= Seq::<int>::empty());
        assert(q[0] == p);
        assert(nest(q.drop_first(), x) == x);
        assert(nest(ps, m) == m);
    }
}

/// Returns the material a capture wins or loses once both sides have finished
/// recapturing on the destination square, each always with its cheapest
/// attacker, in centipawns (static exchange evaluation; see [`see_value`]).
pub fn see(board: &Board, mv: Move) -> (r: i32)
    requires
        board.layout_ok(),
    ensures
        -320_000 <= r <= 320_000,
        r == see_value(board.spec_mailbox(), board.spec_state().spec_side(), mv),
{
    let ghost mb = board.spec_mailbox();
    let target = mv.to();
    let victim = match victim_square(mv) {
        Some(square) => match board.piece_on(square) {
            Some(p) => p,
            None => {
                return 0;
            },
        },
        None => {
            return 0;
        },
    };
    let attacker = match board.piece_on(mv.from()) {
        Some(p) => p,
        None => {
            return 0;
        },
    };
    let mut occ = board.occupied();
    occ.clear(mv.from());
    if let Some(square) = victim_square(mv) {
        occ.clear(square);
    }
    let mut gain: Vec<i32> = Vec::new();
    let mut k: usize = 0;
    while k < 32
        invariant
            k <= 32,
            gain@.len() == k,
            forall|x: int| 0 <= x < k ==> #[trigger] gain@[x] == 0,
        decreases 32 - k,
    {
        gain.push(0);
        k = k + 1;
    }
    gain.set(0, order_value(victim.piece_type()));
    let mut on_square = order_value(attacker.piece_type());
    let mut side = board.state().side_to_move().flip();
    let mut depth: usize = 1;
    let ghost occ0 = occ@;
    let ghost side0 = side;
    let ghost p1 = on_square as int;
    let ghost mut ps: Seq<int> = Seq::empty();
    proof {
        assert(occ0 =~= Set::new(|i: int| 0 <= i < 64 && mb[i] is Some).remove(mv.from_idx()).remove(
            victim_index(mv)->0,
        ));
    }
    while depth < 32
        invariant
            1 <= depth <= 32,
            gain@.len() == 32,
            board.layout_ok(),
            mb == board.spec_mailbox(),
            100 <= on_square <= 10_000,
            forall|x: int| 0 <= x < depth ==> -10_000 * (x + 1) <= #[trigger] gain@[x] <= 10_000 * (x + 1),
            ps.len() == depth - 1,
            gain@[0] == order_value_of(victim.spec_kind()),
            forall|d: int| 1 <= d < depth ==> #[trigger] gain@[d] == ps[d - 1] - gain@[d - 1],
            exchange(mb, target.idx(), occ0, side0, p1, 31) == nest(
                ps,
                exchange(mb, target.idx(), occ@, side, on_square as int, (32 - depth) as nat),
            ),
        ensures
            1 <= depth <= 32,
            gain@.len() == 32,
            ps.len() == depth - 1,
            gain@[0] == order_value_of(victim.spec_kind()),
            forall|d: int| 1 <= d < depth ==> #[trigger] gain@[d] == ps[d - 1] - gain@[d - 1],
            forall|x: int| 0 <= x < depth ==> -10_000 * (x + 1) <= #[trigger] gain@[x] <= 10_000 * (x + 1),
            exchange(mb, target.idx(), occ0, side0, p1, 31) == nest(ps, 0),
        decreases 32 - depth,
    {
        let attackers = attackers_to(board, target, occ).and(occ);
        let (from, piece) = match cheapest_attacker(board, attackers, side) {
            Some(found) => found,
            None => {
                break;
            },
        };
        let previous = gain[depth - 1];
        let ghost gain_before = gain@;
        gain.set(depth, on_square - previous);
        proof {
            let next = exchange(mb, target.idx(), occ@.remove(from.idx()), other(side), order_value_of(piece), (31 - depth) as nat);
            assert(exchange(mb, target.idx(), occ@, side, on_square as int, (32 - depth) as nat) == (if on_square - next > 0 {
                on_square - next
            } else {
                0
            }));
            lemma_nest_push(ps, on_square as int, next);
            assert forall|d: int| 1 <= d < depth + 1 implies #[trigger] gain@[d] == ps.push(on_square as int)[d - 1] - gain@[d - 1] by {
                if d < depth {
                    assert(gain@[d] == gain_before[d]);
                    assert(gain@[d - 1] == gain_before[d - 1]);
                }
            }
            ps = ps.push(on_square as int);
        }
        on_square = order_value(piece);
        occ.clear(from);
        side = side.flip();
        depth = depth + 1;
    }
    let ghost g = gain@;
    let ghost top = depth;
    let ghost n = ps.len();
    proof {
        assert(ps.subrange(n as int, n as int) =~= Seq::<int>::empty());
    }
    while depth > 1
        invariant
            1 <= depth <= top <= 32,
            gain@.len() == 32,
            g.len() == 32,
            n == top - 1,
            ps.len() == n,
            forall|x: int| 0 <= x < depth ==> -320_000 <= #[trigger] gain@[x] <= 320_000,
            forall|x: int| 0 <= x < depth - 1 ==> #[trigger] gain@[x] == g[x],
            gain@[depth - 1] == g[depth - 1] - nest(ps.subrange(depth - 1, n as int), 0),
            forall|d: int| 1 <= d < top ==> #[trigger] g[d] == ps[d - 1] - g[d - 1],
        decreases depth,
    {
        depth = depth - 1;
        let here = gain[depth - 1];
        let next = gain[depth];
        let best = if -here > next {
            -here
        } else {
            next
        };
        gain.set(depth - 1, -best);
        proof {
            let sub = ps.subrange(depth - 1, n as int);
            assert(sub.drop_first() =~= ps.subrange(depth as int, n as int));
            assert(sub[0] == ps[depth - 1]);
            assert(g[depth as int] == ps[depth - 1] - g[depth - 1]);
        }
    }
    proof {
        assert(ps.subrange(0, n as int) =~= ps);
    }
    gain[0]
}

/// The checks [`is_pseudo_legal`] makes of `mv` on `mb` with state `st`:
/// the mover is the side to move's, a promotion is made by a pawn, en
/// passant is made by a pawn attacking the state's en passant square and
/// lands on it, castling is refused, a
/// capture lands on an enemy piece and any other move on an empty square.
pub open spec fn screened(mb: Seq<Option<Piece>>, st: crate::board::State, mv: Move) -> bool {
    let us = st.spec_side();
    let f = mv.from_idx();
    let t = mv.to_idx();
    let ty = mv.spec_type();
    &&& mb[f] is Some
    &&& mb[f]->0.spec_color() == us
    &&& type_is_promotion(ty) ==> mb[f]->0.spec_kind() == PieceType::Pawn
    &&& if ty == MoveType::EnPassant {
        &&& st.spec_ep() matches Some(e) && e.idx() == t
        &&& mb[f]->0.spec_kind() == PieceType::Pawn
        &&& pawn_step(us, f, t)
    } else if ty == MoveType::KingCastle || ty == MoveType::QueenCastle {
        false
    } else if type_is_capture(ty) {
        mb[t] is Some && mb[t]->0.spec_color() != us
    } else {
        mb[t] is None
    }
}

/// Whether `mv` is safe to play on this position: a move from the
/// transposition table may be stale, so it is screened (see [`screened`])
/// rather than trusted.
pub fn is_pseudo_legal(board: &Board, mv: Move) -> (r: bool)
    ensures
        r == screened(board.spec_mailbox(), board.spec_state(), mv),
{
    let us = board.state().side_to_move();
    let mover = match board.piece_on(mv.from()) {
        Some(p) => p,
        None => {
            return false;
        },
    };
    if mover.color() != us {
        return false;
    }
    if mv.is_promotion() && mover.piece_type() != PieceType::Pawn {
        return false;
    }
    match mv.move_type() {
        MoveType::EnPassant => match board.state().en_passant() {
            Some(e) => e.index() == mv.to().index() && mover.piece_type() == PieceType::Pawn
                && pawn_attacks(us, mv.from()).contains(mv.to()),
            None => false,
        },
        MoveType::KingCastle | MoveType::QueenCastle => false,
        _ => if mv.is_capture() {
            match board.piece_on(mv.to()) {
                Some(piece) => piece.color() != us,
                None => false,
            }
        } else {
            board.piece_on(mv.to()).is_none()
        },
    }
}

/// A screened move on a playable board can be made and taken back, and
/// leaves the mover's king on the board.
pub proof fn lemma_screened_playable(b: Board, mv: Move)
    requires
        playable(b),
        screened(b.spec_mailbox(), b.spec_state(), mv),
    ensures
        can_make(b.spec_mailbox(), mv),
        reversible(b.spec_mailbox(), b.spec_state().spec_side(), mv),
        has_king(make_mailbox(b.spec_mailbox(), mv), b.spec_state().spec_side()),
{
    let mb = b.spec_mailbox();
    let st = b.spec_state();
    let us = st.spec_side();
    let f = mv.from_idx();
    let t = mv.to_idx();
    let ty = mv.spec_type();
    b.lemma_mailbox_len();
    b.lemma_wf_layout();
    b.lemma_valid_pieces();
    let king = Piece::of(us, PieceType::King);
    let moving = mb[f]->0;
    moving.lemma_of(king, us, PieceType::King);
    moving.lemma_of(moving, us, PieceType::Pawn);
    king.lemma_of(king, us, PieceType::King);
    if ty == MoveType::EnPassant {
        let pawn = Piece::of(other(us), PieceType::Pawn);
        pawn.lemma_of(moving, other(us), PieceType::Pawn);
        assert(crate::movegen::gen::owns(mb, f, us, PieceType::Pawn) && pawn_step(us, f, t));
        assert(crate::movegen::legal::ep_reachable(mb, us, t));
        assert(mb[crate::board::board::ep_victim(us, t)] == Some(pawn));
    }
    let i = choose|i: int| 0 <= i < 64 && mb[i] == Some(king);
    let after = make_mailbox(mb, mv);
    if f == i {
        assert(crate::board::board::placed_by(mb, mv) == king);
        assert(after[t] == Some(king));
    } else {
        assert(mb[t] != Some(king));
        if crate::board::board::captured_by(mb, mv) is Some {
            let cap = crate::board::board::capture_square(mb, mv);
            if ty == MoveType::EnPassant {
                let pawn = Piece::of(other(us), PieceType::Pawn);
                pawn.lemma_of(king, other(us), PieceType::Pawn);
                assert(pawn.byte() != king.byte());
            }
            assert(cap != i);
        }
        assert(after[i] == Some(king));
    }
}


/// A move the search can play on `b` and take back: it can be made, it is
/// reversible, and it leaves the mover's king on the board.
pub open spec fn movable(b: Board, mv: Move) -> bool {
    &&& can_make(b.spec_mailbox(), mv)
    &&& reversible(b.spec_mailbox(), b.spec_state().spec_side(), mv)
    &&& has_king(make_mailbox(b.spec_mailbox(), mv), b.spec_state().spec_side())
}

/// A pseudo-legal move of either kind is a pseudo-legal move.
proof fn lemma_pseudo_any(
    mb: Seq<Option<Piece>>,
    st: crate::board::State,
    captures: bool,
    quiets: bool,
    f: int,
    t: int,
    ty: MoveType,
)
    requires
        pseudo_move(mb, st, captures, quiets, f, t, ty),
    ensures
        pseudo_move(mb, st, true, true, f, t, ty),
{
}

/// Every move of a generated list from `start` on is movable.
proof fn lemma_generated_movable(b: Board, list: Seq<Move>, start: int, captures: bool, quiets: bool)
    requires
        playable(b),
        0 <= start <= list.len(),
        forall|j: int|
            #![trigger list[j]]
            start <= j < list.len() ==> pseudo_move(
                b.spec_mailbox(),
                b.spec_state(),
                captures,
                quiets,
                list[j].from_idx(),
                list[j].to_idx(),
                list[j].spec_type(),
            ),
    ensures
        forall|j: int| start <= j < list.len() ==> movable(b, #[trigger] list[j]),
{
    assert forall|j: int| start <= j < list.len() implies movable(b, #[trigger] list[j]) by {
        let m = list[j];
        lemma_pseudo_any(
            b.spec_mailbox(),
            b.spec_state(),
            captures,
            quiets,
            m.from_idx(),
            m.to_idx(),
            m.spec_type(),
        );
        lemma_pseudo_playable(b, m);
    }
}

/// Every move of `moves` from `start` on is pseudo-legal on `b`.
pub open spec fn all_pseudo(b: Board, moves: Seq<Move>, start: int) -> bool {
    forall|j: int|
        #![trigger moves[j]]
        start <= j < moves.len() ==> pseudo_move(
            b.spec_mailbox(),
            b.spec_state(),
            true,
            true,
            moves[j].from_idx(),
            moves[j].to_idx(),
            moves[j].spec_type(),
        )
}

/// A generated list of either kind is pseudo-legal from `start` on.
proof fn lemma_generated_pseudo(b: Board, list: Seq<Move>, start: int, captures: bool, quiets: bool)
    requires
        0 <= start <= list.len(),
        forall|j: int|
            #![trigger list[j]]
            start <= j < list.len() ==> pseudo_move(
                b.spec_mailbox(),
                b.spec_state(),
                captures,
                quiets,
                list[j].from_idx(),
                list[j].to_idx(),
                list[j].spec_type(),
            ),
    ensures
        all_pseudo(b, list, start),
{
    assert forall|j: int| start <= j < list.len() implies pseudo_move(
        b.spec_mailbox(),
        b.spec_state(),
        true,
        true,
        (#[trigger] list[j]).from_idx(),
        list[j].to_idx(),
        list[j].spec_type(),
    ) by {
        let m = list[j];
        lemma_pseudo_any(b.spec_mailbox(), b.spec_state(), captures, quiets, m.from_idx(), m.to_idx(), m.spec_type());
    }
}

/// Reordering moves from `start` on keeps every one of them pseudo-legal.
proof fn lemma_reordered_pseudo(b: Board, old: Seq<Move>, new: Seq<Move>, start: int)
    requires
        reordered(old, new, start),
        0 <= start <= old.len(),
        all_pseudo(b, old, start),
    ensures
        all_pseudo(b, new, start),
{
    assert forall|j: int| start <= j < new.len() implies pseudo_move(
        b.spec_mailbox(),
        b.spec_state(),
        true,
        true,
        (#[trigger] new[j]).from_idx(),
        new[j].to_idx(),
        new[j].spec_type(),
    ) by {
        let sub = old.subrange(start, old.len() as int);
        assert(sub.contains(new[j]));
        let k = choose|k: int| 0 <= k < sub.len() && sub[k] == new[j];
        assert(old[start + k] == sub[k]);
    }
}

/// The transposition table holds no entry for the position whose key is
/// `key`.
pub open spec fn unknown(tt: TranspositionTable, key: u64) -> bool {
    crate::tt::probe_result(tt.spec_slots(), tt.spec_bits(), key).0 is None
}

/// Reordering moves from `start` on keeps every one of them movable.
proof fn lemma_reordered_movable(b: Board, old: Seq<Move>, new: Seq<Move>, start: int)
    requires
        reordered(old, new, start),
        0 <= start <= old.len(),
        forall|j: int| start <= j < old.len() ==> movable(b, #[trigger] old[j]),
    ensures
        forall|j: int| start <= j < new.len() ==> movable(b, #[trigger] new[j]),
{
    assert forall|j: int| start <= j < new.len() implies movable(b, #[trigger] new[j]) by {
        let sub = old.subrange(start, old.len() as int);
        assert(sub.contains(new[j]));
        let k = choose|k: int| 0 <= k < sub.len() && sub[k] == new[j];
        assert(old[start + k] == sub[k]);
    }
}

/// Takes back `mv`, made on `b0` to give `mid`, once the search below it
/// has left the board as it found it.
fn take_back(board: &mut Board, mv: Move, Ghost(b0): Ghost<Board>, Ghost(mid): Ghost<Board>)
    requires
        b0.wf(),
        movable(b0, mv),
        made(b0, mv, mid),
        Board::same_position(*old(board), mid),
        old(board).wf(),
    ensures
        Board::same_position(*final(board), b0),
        final(board).wf(),
{
    proof {
        lemma_make_unmake(b0, mv, mid, mid);
        board.lemma_wf_layout();
    }
    board.unmake(mv);
    proof {
        lemma_make_unmake(b0, mv, mid, *board);
    }
}

/// Takes back a pass made on `b0` to give `mid`.
fn pass_back(board: &mut Board, Ghost(b0): Ghost<Board>, Ghost(mid): Ghost<Board>)
    requires
        b0.wf(),
        null_made(b0, mid),
        Board::same_position(*old(board), mid),
        old(board).wf(),
    ensures
        Board::same_position(*final(board), b0),
        final(board).wf(),
{
    proof {
        board.lemma_wf_layout();
    }
    board.unmake_null();
    proof {
        lemma_null_round_trip(b0, mid, *board);
    }
}

/// A score a search of the window `(alpha, beta)` may return: above `alpha`
/// wherever it lies below every static score, and below `beta` wherever it
/// lies above them.
pub open spec fn within(score: int, alpha: int, beta: int) -> bool {
    &&& score >= (if alpha + 1 < -SCORE_LIMIT {
        alpha + 1
    } else {
        -SCORE_LIMIT as int
    })
    &&& score <= (if beta - 1 > SCORE_LIMIT {
        beta - 1
    } else {
        SCORE_LIMIT as int
    })
}

/// The side to move has a pseudo-legal capture (en passant and capturing
/// promotions included).
pub open spec fn has_capture(b: Board) -> bool {
    exists|f: int, t: int, ty: MoveType| #[trigger] pseudo_move(b.spec_mailbox(), b.spec_state(), true, false, f, t, ty)
}

/// Resolves the captures left hanging at a leaf until the position is quiet,
/// so the score reflects settled material: standing pat on the static score
/// when not in check, answering every check with every legal move, and
/// skipping captures that lose material. `qply` counts plies since the leaf
/// and stops at [`MAX_QPLY`]; `ply` continues from the main search so mate
/// scores keep their distance. For a window within `-INFINITY..=INFINITY`
/// the score is a fail-soft bound of the quiescence value (see
/// [`crate::search::minimax::quiescence`]), equal to it inside the window.
pub fn qsearch(board: &mut Board, ply: u32, qply: u32, alpha: i32, beta: i32, ctx: &mut Ctx) -> (r: Result<i32, Aborted>)
    requires
        old(board).wf(),
        old(ctx).wf(),
        qply <= MAX_QPLY,
        ply <= MAX_DEPTH + MAX_PLY + qply,
        -WINDOW <= alpha < beta <= WINDOW,
    ensures
        Board::same_position(*final(board), *old(board)),
        final(board).wf(),
        old(ctx).same_run(final(ctx)),
        old(ctx).spec_iteration() == 1 ==> r is Ok,
        r matches Ok(s) ==> within(s as int, alpha as int, beta as int),
        r matches Ok(s) ==> qply >= MAX_QPLY && playable(*old(board)) && pawns_placed(
            old(board).spec_mailbox(),
        ) ==> s == crate::eval::position::evaluation(
            old(board).spec_mailbox(),
            old(board).spec_state().spec_side(),
        ),
        r matches Ok(s) ==> {
            let mb = old(board).spec_mailbox();
            let side = old(board).spec_state().spec_side();
            playable(*old(board)) && pawns_placed(mb) && !checked(mb, side) ==> {
                &&& s >= crate::eval::position::evaluation(mb, side)
                &&& !has_capture(*old(board)) ==> s == crate::eval::position::evaluation(mb, side)
            }
        },
        r matches Ok(s) ==> {
            let mb = old(board).spec_mailbox();
            let side = old(board).spec_state().spec_side();
            qply < MAX_QPLY && playable(*old(board)) && pawns_placed(mb) && checked(mb, side)
                && !has_legal_move(*old(board)) ==> s == -MATE + ply
        },
        final(ctx).spec_qnodes() >= 1,
        r matches Ok(s) ==> (-INFINITY <= alpha && beta <= INFINITY ==> fail_soft(
            s as int,
            alpha as int,
            beta as int,
            quiescence_of(*old(board), qply as nat, ply as int),
        )),
        r is Ok ==> {
            let mb = old(board).spec_mailbox();
            let side = old(board).spec_state().spec_side();
            let leaf = {
                ||| !(playable(*old(board)) && pawns_placed(mb))
                ||| qply >= MAX_QPLY
                ||| !checked(mb, side) && (crate::eval::position::evaluation(mb, side) >= beta
                    || !has_capture(*old(board)))
                ||| checked(mb, side) && !has_legal_move(*old(board))
            };
            leaf ==> final(ctx).spec_qnodes() == saturated_count(old(ctx).spec_qnodes() + 1)
                && final(ctx).spec_nodes() == old(ctx).spec_nodes()
        },
    decreases 0int, 1int, MAX_QPLY - qply,
{
    let ghost b0 = *board;
    proof {
        lemma_quiescence_of(b0, qply as nat, ply as int);
    }
    ctx.count_qnode();
    let ghost counted_q = ctx.spec_qnodes();
    let ghost counted_n = ctx.spec_nodes();
    ctx.check_abort()?;
    if !searchable(board) {
        return Ok(DRAW);
    }
    proof {
        board.lemma_wf_layout();
    }
    if qply >= MAX_QPLY {
        return Ok(evaluate(board));
    }
    let us = board.state().side_to_move();
    let checked_now = in_check(board, us);
    let ghost alpha0 = alpha;
    let mut alpha = alpha;
    let mut best = -INFINITY;
    if !checked_now {
        best = evaluate(board);
        if best >= beta {
            return Ok(best);
        }
        if best > alpha {
            alpha = best;
        }
    }
    let mut moves = MoveList::new();
    let ghost eval0 = best;
    let ghost qp = -INFINITY <= alpha0 && beta <= INFINITY;
    if checked_now {
        generate_legal(board, &mut moves);
        if moves.is_empty() {
            proof {
                board.lemma_wf_layout();
                assert forall|f: int, t: int, ty: MoveType| !#[trigger] crate::search::minimax::quiescence_move(b0.spec_mailbox(), b0.spec_state(), f, t, ty) by {
                    if crate::search::minimax::quiescence_move(b0.spec_mailbox(), b0.spec_state(), f, t, ty) {
                        assert(crate::movegen::list::holds_move(moves@, 0, moves@.len() as int, f, t, ty));
                    }
                }
                crate::search::minimax::lemma_best_capture(b0.spec_mailbox(), b0.spec_state(), b0.spec_history(), qply as nat, ply as int, 0);
                if let Some(v) = crate::search::minimax::best_capture(b0.spec_mailbox(), b0.spec_state(), b0.spec_history(), qply as nat, ply as int, 0) {
                    let j = choose|j: int|
                        0 <= j < 65536 && #[trigger] crate::search::minimax::quiescence_move(b0.spec_mailbox(), b0.spec_state(), crate::search::minimax::triple(j).0, crate::search::minimax::triple(j).1, crate::search::minimax::triple(j).2)
                            && crate::search::minimax::capture_value(b0.spec_mailbox(), b0.spec_state(), b0.spec_history(), qply as nat, ply as int, crate::search::minimax::triple(j).0, crate::search::minimax::triple(j).1, crate::search::minimax::triple(j).2) == v;
                    let (f, t, ty) = crate::search::minimax::triple(j);
                    assert(crate::search::minimax::quiescence_move(b0.spec_mailbox(), b0.spec_state(), f, t, ty));
                }
            }
            return Ok(terminal_score(board, ply));
        }
        proof {
            let m = moves@[0];
            assert(legal_move(b0.spec_mailbox(), b0.spec_state(), m.from_idx(), m.to_idx(), m.spec_type()));
        }
        proof {
            assert forall|j: int| 0 <= j < moves@.len() implies movable(b0, #[trigger] moves@[j]) by {
                let m = moves@[j];
                assert(legal_move(b0.spec_mailbox(), b0.spec_state(), m.from_idx(), m.to_idx(), m.spec_type()));
                lemma_pseudo_playable(b0, m);
            }
        }
    } else {
        generate_captures(board, &mut moves);
        proof {
            lemma_generated_movable(b0, moves@, 0, true, false);
            if moves@.len() > 0 {
                let m = moves@[0];
                assert(pseudo_move(b0.spec_mailbox(), b0.spec_state(), true, false, m.from_idx(), m.to_idx(), m.spec_type()));
            }
        }
    }
    let ghost listed = moves@;
    order_moves(board, &mut moves, 0, None, [None, None], ctx);
    proof {
        lemma_reordered_movable(b0, listed, moves@, 0);
        if qp {
            lemma_quiescence_cover(b0, listed, moves@, checked_now);
        }
    }
    let n = moves.len();
    let mut i: usize = 0;
    while i < n
        invariant_except_break
            alpha < beta,
        invariant
            i <= n,
            n == moves@.len(),
            b0.wf(),
            playable(b0),
            forall|j: int| 0 <= j < n ==> movable(b0, #[trigger] moves@[j]),
            Board::same_position(*board, b0),
            board.wf(),
            old(ctx).same_run(ctx),
            us == b0.spec_state().spec_side(),
            b0 == *old(board),
            qply < MAX_QPLY,
            ply <= MAX_DEPTH + MAX_PLY + qply,
            -WINDOW <= alpha0 <= alpha <= WINDOW,
            beta <= WINDOW,
            within(best as int, alpha0 as int, beta as int),
            checked_now == checked(b0.spec_mailbox(), us),
            !checked_now ==> best >= eval0 && eval0 == crate::eval::position::evaluation(b0.spec_mailbox(), us),
            !checked_now && !has_capture(b0) ==> n == 0,
            !checked_now && i == 0 ==> best == eval0,
            i == 0 ==> ctx.spec_qnodes() == counted_q && ctx.spec_nodes() == counted_n,
            ctx.spec_qnodes() >= 1,
            checked_now ==> has_legal_move(b0),
            qp == (-INFINITY <= alpha0 && beta <= INFINITY),
            eval0 == -INFINITY || !checked_now,
            qp && checked_now ==> forall|j: int| 0 <= j < n ==> #[trigger] legal_on(b0, moves@[j]),
            qp && !checked_now ==> all_captures(b0, moves@),
            qp ==> alpha == (if best > alpha0 { best } else { alpha0 }),
            qp ==> q_sound(b0, moves@, i as int, qply as nat, ply as int, alpha0 as int, beta as int, best as int, alpha as int, checked_now, eval0 as int),
            qp ==> forall|f: int, t: int, ty: MoveType|
                #[trigger] crate::search::minimax::quiescence_move(b0.spec_mailbox(), b0.spec_state(), f, t, ty)
                    ==> crate::movegen::list::holds_move(moves@, 0, n as int, f, t, ty),
        ensures
            i <= n,
            n == moves@.len(),
            b0.wf(),
            playable(b0),
            forall|j: int| 0 <= j < n ==> movable(b0, #[trigger] moves@[j]),
            Board::same_position(*board, b0),
            board.wf(),
            old(ctx).same_run(ctx),
            us == b0.spec_state().spec_side(),
            b0 == *old(board),
            qply < MAX_QPLY,
            ply <= MAX_DEPTH + MAX_PLY + qply,
            -WINDOW <= alpha0 <= alpha <= WINDOW,
            beta <= WINDOW,
            within(best as int, alpha0 as int, beta as int),
            checked_now == checked(b0.spec_mailbox(), us),
            !checked_now ==> best >= eval0 && eval0 == crate::eval::position::evaluation(b0.spec_mailbox(), us),
            !checked_now && !has_capture(b0) ==> n == 0,
            !checked_now && i == 0 ==> best == eval0,
            i == 0 ==> ctx.spec_qnodes() == counted_q && ctx.spec_nodes() == counted_n,
            ctx.spec_qnodes() >= 1,
            checked_now ==> has_legal_move(b0),
            qp == (-INFINITY <= alpha0 && beta <= INFINITY),
            eval0 == -INFINITY || !checked_now,
            qp && checked_now ==> forall|j: int| 0 <= j < n ==> #[trigger] legal_on(b0, moves@[j]),
            qp && !checked_now ==> all_captures(b0, moves@),
            qp ==> alpha == (if best > alpha0 { best } else { alpha0 }),
            qp ==> q_sound(b0, moves@, i as int, qply as nat, ply as int, alpha0 as int, beta as int, best as int, alpha as int, checked_now, eval0 as int),
            qp ==> forall|f: int, t: int, ty: MoveType|
                #[trigger] crate::search::minimax::quiescence_move(b0.spec_mailbox(), b0.spec_state(), f, t, ty)
                    ==> crate::movegen::list::holds_move(moves@, 0, n as int, f, t, ty),
            alpha < beta ==> i == n,
        decreases n - i,
    {
        let mv = moves.get(i);
        i = i + 1;
        proof {
            board.lemma_wf_layout();
        }
        if !checked_now && !mv.is_promotion() && see(board, mv) < 0 {
            proof {
                if qp {
                    lemma_move_of(mv);
                    lemma_q_skip(b0, moves@, i - 1, qply as nat, ply as int, alpha0 as int, beta as int, best as int, alpha as int, checked_now, eval0 as int);
                }
            }
            continue;
        }
        proof {
            assert(movable(b0, moves@[i - 1]));
        }
        board.make(mv);
        let ghost mid = *board;
        proof {
            board.lemma_wf_layout();
        }
        let legal = checked_now || !in_check(board, us);
        let mut result: Result<i32, Aborted> = Ok(0);
        if legal {
            result = qsearch(board, ply + 1, qply + 1, -beta, -alpha, ctx);
        }
        take_back(board, mv, Ghost(b0), Ghost(mid));
        if !legal {
            proof {
                if qp {
                    lemma_illegal(b0, mv);
                    lemma_q_skip(b0, moves@, i - 1, qply as nat, ply as int, alpha0 as int, beta as int, best as int, alpha as int, checked_now, eval0 as int);
                }
            }
            continue;
        }
        let ghost old_best = best;
        let ghost old_alpha = alpha;
        let score = -result?;
        if score > best {
            best = score;
        }
        if best > alpha {
            alpha = best;
        }
        proof {
            if qp {
                lemma_capture_child(b0, mv, mid, qply as nat, ply as int);
                if !checked_now {
                    lemma_pseudo_any(b0.spec_mailbox(), b0.spec_state(), true, false, mv.from_idx(), mv.to_idx(), mv.spec_type());
                    lemma_legal(b0, mv);
                }
                assert(mv == moves@[i - 1]);
                if checked_now {
                    assert(legal_on(b0, moves@[i - 1]));
                } else {
                    assert(pseudo_move(b0.spec_mailbox(), b0.spec_state(), true, false, moves@[i - 1].from_idx(), moves@[i - 1].to_idx(), moves@[i - 1].spec_type()));
                }
                assert(searched_in_quiescence(b0, mv));
                lemma_q_step(b0, moves@, i - 1, qply as nat, ply as int, alpha0 as int, beta as int, old_best as int, old_alpha as int, best as int, alpha as int, score as int, checked_now, eval0 as int);
            }
        }
        if alpha >= beta {
            break;
        }
    }
    proof {
        if qp {
            lemma_q_value(b0, moves@, i as int, qply as nat, ply as int, alpha0 as int, beta as int, best as int, alpha as int, checked_now, eval0 as int);
        }
    }
    Ok(best)
}


/// A `depth`-ply search at `ply` stays inside the depth and ply ceilings:
/// check extensions hold the depth only below [`MAX_PLY`], so depth plus
/// the ply beyond that never grows.
pub open spec fn fits(depth: int, ply: int) -> bool {
    depth + (if ply > MAX_PLY {
        ply
    } else {
        MAX_PLY as int
    }) <= MAX_DEPTH + MAX_PLY
}

/// The plies left before check extensions stop.
pub open spec fn headroom(ply: u32) -> int {
    if ply < MAX_PLY {
        MAX_PLY - ply
    } else {
        0
    }
}

/// The running state of one node's move loop.
struct Node {
    /// The window's lower edge, raised by each better move.
    alpha: i32,
    /// The best score so far.
    best: i32,
    /// The move that scored it.
    best_move: Option<Move>,
    /// The legal moves searched so far.
    legal: usize,
    /// The move that reached beta, if one did.
    cutoff: Option<Move>,
}

/// Every legal move among the first `hi` of `s` is worth at most `best` on
/// `b0`.
pub open spec fn bounded_by(b0: Board, s: Seq<Move>, hi: int, depth: nat, ply: int, best: int, quiesce: bool) -> bool {
    forall|j: int|
        0 <= j < hi && legal_on(b0, #[trigger] s[j]) ==> reply_of(b0, s[j], depth, ply, quiesce) <= best
}

/// Some legal move on `b0` is worth at least `x`.
pub open spec fn reaches(b0: Board, depth: nat, ply: int, x: int, quiesce: bool) -> bool {
    exists|m: Move| legal_on(b0, m) && #[trigger] reply_of(b0, m, depth, ply, quiesce) >= x
}

/// Some legal move on `b0` is worth exactly `x`.
pub open spec fn attains(b0: Board, depth: nat, ply: int, x: int, quiesce: bool) -> bool {
    exists|m: Move| legal_on(b0, m) && #[trigger] reply_of(b0, m, depth, ply, quiesce) == x
}

/// What a node's move loop knows of the true values once the first `hi`
/// moves of `s` are behind it: without a cutoff its best bounds every legal
/// one of them, a best above the window's lower edge is reached by a legal
/// move, one inside the window is attained, and a legal move among them
/// was counted.
spec fn node_sound(node: Node, b0: Board, s: Seq<Move>, hi: int, depth: nat, ply: int, alpha0: int, beta: int, quiesce: bool) -> bool {
    &&& node.cutoff is None ==> bounded_by(b0, s, hi, depth, ply, node.best as int, quiesce)
    &&& node.best > alpha0 ==> node.legal > 0 && reaches(b0, depth, ply, node.best as int, quiesce)
    &&& alpha0 < node.best < beta ==> attains(b0, depth, ply, node.best as int, quiesce)
    &&& forall|j: int| 0 <= j < hi && legal_on(b0, #[trigger] s[j]) ==> node.legal > 0
}

/// Searching one more legal move keeps a node's knowledge sound.
proof fn lemma_node_step(
    before: Node,
    after: Node,
    b0: Board,
    s: Seq<Move>,
    i: int,
    score: int,
    depth: nat,
    ply: int,
    alpha0: int,
    beta: int,
    quiesce: bool,
)
    requires
        node_sound(before, b0, s, i, depth, ply, alpha0, beta, quiesce),
        0 <= i < s.len(),
        before.alpha == (if before.best > alpha0 { before.best as int } else { alpha0 }),
        before.cutoff is None,
        before.alpha < beta,
        legal_on(b0, s[i]),
        fail_soft(score, before.alpha as int, beta, reply_of(b0, s[i], depth, ply, quiesce)),
        after.legal == before.legal + 1,
        after.best == (if score > before.best { score } else { before.best as int }),
        after.alpha == (if after.best > before.alpha { after.best } else { before.alpha }),
        after.cutoff is None ==> after.alpha < beta,
    ensures
        node_sound(after, b0, s, i + 1, depth, ply, alpha0, beta, quiesce),
{
    let mv = s[i];
    let v = reply_of(b0, mv, depth, ply, quiesce);
    if score > before.best {
        if after.best > alpha0 {
            assert(v >= after.best);
            assert(reaches(b0, depth, ply, after.best as int, quiesce));
        }
        if alpha0 < after.best < beta {
            assert(v == after.best);
            assert(attains(b0, depth, ply, after.best as int, quiesce));
        }
    }
    assert forall|j: int| 0 <= j < i + 1 && legal_on(b0, #[trigger] s[j]) implies after.legal > 0 by {}
    if after.cutoff is None {
        assert forall|j: int| 0 <= j < i + 1 && legal_on(b0, #[trigger] s[j]) implies reply_of(
            b0,
            s[j],
            depth,
            ply, quiesce,
        ) <= after.best by {
            if j < i {
                assert(reply_of(b0, s[j], depth, ply, quiesce) <= before.best);
            }
        }
    }
}

/// Passing over a move that is not legal keeps a node's knowledge sound.
proof fn lemma_node_skip(node: Node, b0: Board, s: Seq<Move>, i: int, depth: nat, ply: int, alpha0: int, beta: int, quiesce: bool)
    requires
        node_sound(node, b0, s, i, depth, ply, alpha0, beta, quiesce),
        0 <= i < s.len(),
        !legal_on(b0, s[i]),
    ensures
        node_sound(node, b0, s, i + 1, depth, ply, alpha0, beta, quiesce),
{
    assert forall|j: int| 0 <= j < i + 1 && legal_on(b0, #[trigger] s[j]) implies node.legal > 0 by {}
    if node.cutoff is None {
        assert forall|j: int| 0 <= j < i + 1 && legal_on(b0, #[trigger] s[j]) implies reply_of(
            b0,
            s[j],
            depth,
            ply, quiesce,
        ) <= node.best by {}
    }
}

/// A node's knowledge of the first `hi` moves carries over to a list that
/// agrees with `s` there.
proof fn lemma_node_prefix(
    node: Node,
    b0: Board,
    s: Seq<Move>,
    s2: Seq<Move>,
    hi: int,
    depth: nat,
    ply: int,
    alpha0: int,
    beta: int,
    quiesce: bool,
)
    requires
        node_sound(node, b0, s, hi, depth, ply, alpha0, beta, quiesce),
        0 <= hi <= s.len(),
        hi <= s2.len(),
        forall|j: int| 0 <= j < hi ==> s2[j] == s[j],
    ensures
        node_sound(node, b0, s2, hi, depth, ply, alpha0, beta, quiesce),
{
    assert forall|j: int| 0 <= j < hi && legal_on(b0, #[trigger] s2[j]) implies node.legal > 0 by {
        assert(s2[j] == s[j]);
    }
    if node.cutoff is None {
        assert forall|j: int| 0 <= j < hi && legal_on(b0, #[trigger] s2[j]) implies reply_of(
            b0,
            s2[j],
            depth,
            ply, quiesce,
        ) <= node.best by {
            assert(s2[j] == s[j]);
        }
    }
}

/// Whether the move `mv`, searched as legal move number `legal` of a
/// `depth`-ply node at `ply`, is reduced by late-move reductions: deep
/// enough, late enough, quiet, not a promotion, not giving check and not a
/// killer of the ply.
pub fn lmr_eligible(depth: u32, legal: usize, mv: Move, ply: u32, gives_check: bool, ctx: &Ctx) -> (b: bool)
    requires
        ctx.wf(),
    ensures
        b == (depth >= crate::search::LMR_MIN_DEPTH && legal >= crate::search::LMR_MIN_INDEX
            && !type_is_capture(mv.spec_type()) && !type_is_promotion(mv.spec_type())
            && !gives_check && ctx.spec_killers(ply as int)[0] != Some(mv) && ctx.spec_killers(
            ply as int,
        )[1] != Some(mv)),
{
    let killers = ctx.killers_at(ply);
    depth >= crate::search::LMR_MIN_DEPTH && legal >= crate::search::LMR_MIN_INDEX
        && !mv.is_capture() && !mv.is_promotion() && !gives_check && killers[0] != Some(mv)
        && killers[1] != Some(mv)
}

/// The plies added to a checking move's search, so a forcing line is not
/// cut off by the horizon: one for a check that does not lose material,
/// below the killer ply ceiling.
pub fn check_extension(gives_check: bool, losing: bool, ply: u32) -> (e: u32)
    requires
        ply < u32::MAX,
    ensures
        e == (if gives_check && !losing && ply + 1 < MAX_PLY {
            1u32
        } else {
            0u32
        }),
{
    if gives_check && !losing && ply + 1 < MAX_PLY {
        1
    } else {
        0
    }
}

/// Searches one already-made child and returns its score from the parent's
/// point of view. The first move gets the full window; the rest are probed
/// on a null window first (after a reduced probe when `reduce` asks for
/// late-move reduction) and searched again in full only when the probe lands
/// strictly inside the window. `child_ply` is the ply of the position on the
/// board. With principal-variation probing turned off (see
/// [`Ctx::set_pvs`]) every move gets the full window, unless that window is
/// empty, where the probe alone decides.
fn search_move(
    board: &mut Board,
    tt: &mut TranspositionTable,
    depth: u32,
    child_ply: u32,
    alpha: i32,
    beta: i32,
    index: usize,
    reduce: bool,
    ctx: &mut Ctx,
) -> (r: Result<i32, Aborted>)
    requires
        old(board).wf(),
        old(tt).wf(),
        old(ctx).wf(),
        1 <= depth,
        fits(depth - 1, child_ply as int),
        -WINDOW <= alpha < WINDOW,
        -WINDOW < beta <= WINDOW,
        index == 0 ==> alpha < beta,
        reduce ==> depth >= crate::search::LMR_MIN_DEPTH,
    ensures
        Board::same_position(*final(board), *old(board)),
        final(board).wf(),
        final(tt).wf(),
        old(ctx).same_run(final(ctx)),
        final(ctx).spec_nodes() >= 1,
        old(ctx).spec_iteration() == 1 ==> r is Ok,
        r matches Ok(s) ==> within(s as int, alpha as int, if alpha >= beta {
            alpha + 1
        } else {
            beta as int
        }),
        r matches Ok(s) ==> (old(ctx).plain() && -INFINITY <= alpha && alpha < beta && beta <= INFINITY
            ==> fail_soft(
            s as int,
            alpha as int,
            beta as int,
            -value_of(*old(board), (depth - 1) as nat, child_ply as int, old(ctx).spec_switches().0),
        )),
    decreases (depth - 1) + headroom(child_ply), 4int, 0int,
{
    let ghost b_in = *board;
    if index > 0 && (ctx.pvs || alpha >= beta) {
        if reduce && ctx.reduce_late {
            ctx.count_reduction();
            let reduction = ctx.reduction(depth, index);
            let reduced = negamax(
                board,
                tt,
                depth - 1 - reduction,
                child_ply,
                -alpha - 1,
                -alpha,
                true,
                ctx,
            )?;
            if -reduced <= alpha {
                return Ok(-reduced);
            }
        }
        let narrow = -negamax(board, tt, depth - 1, child_ply, -alpha - 1, -alpha, true, ctx)?;
        if !(narrow > alpha && narrow < beta) {
            return Ok(narrow);
        }
    }
    let ghost b_full = *board;
    proof {
        lemma_value_same(b_in, b_full, (depth - 1) as nat, child_ply as int, old(ctx).spec_switches().0);
    }
    let score = negamax(board, tt, depth - 1, child_ply, -beta, -alpha, true, ctx)?;
    Ok(-score)
}

/// Searches the moves of one stage, from `start` on and in order, skipping
/// `skip`, until one of them reaches beta.
fn search_stage(
    board: &mut Board,
    tt: &mut TranspositionTable,
    ctx: &mut Ctx,
    moves: &MoveList,
    start: usize,
    skip: Option<Move>,
    depth: u32,
    ply: u32,
    beta: i32,
    node: &mut Node,
    Ghost(b0): Ghost<Board>,
    Ghost(alpha0): Ghost<i32>,
) -> (r: Result<(), Aborted>)
    requires
        b0.wf(),
        playable(b0),
        Board::same_position(*old(board), b0),
        old(board).wf(),
        old(tt).wf(),
        old(ctx).wf(),
        start <= moves@.len(),
        forall|j: int| start <= j < moves@.len() ==> movable(b0, #[trigger] moves@[j]),
        1 <= depth,
        fits(depth as int, ply as int),
        -WINDOW <= alpha0 <= old(node).alpha < beta <= WINDOW,
        old(node).cutoff is None,
        old(node).legal <= start,
        within(old(node).best as int, alpha0 as int, beta as int),
        -INFINITY <= alpha0 ==> old(node).alpha == (if old(node).best > alpha0 { old(node).best } else { alpha0 }),
        old(ctx).plain() && skip is None && -INFINITY <= alpha0 && beta <= INFINITY ==> {
            &&& all_pseudo(b0, moves@, start as int)
            &&& node_sound(*old(node), b0, moves@, start as int, depth as nat, ply as int, alpha0 as int, beta as int, old(ctx).spec_switches().0)
        },
    ensures
        Board::same_position(*final(board), b0),
        final(board).wf(),
        final(tt).wf(),
        old(ctx).same_run(final(ctx)),
        old(ctx).spec_iteration() == 1 ==> r is Ok,
        r is Ok ==> {
            &&& alpha0 <= final(node).alpha <= WINDOW
            &&& within(final(node).best as int, alpha0 as int, beta as int)
            &&& old(node).legal <= final(node).legal <= moves@.len()
            &&& final(node).cutoff is None ==> final(node).alpha < beta
            &&& final(node).cutoff is Some ==> final(node).alpha >= beta
            &&& -INFINITY <= alpha0 ==> final(node).alpha == (if final(node).best > alpha0 { final(node).best } else { alpha0 })
        },
        all_pseudo(b0, moves@, start as int) && final(node).legal > old(node).legal ==> has_legal_move(b0),
        r is Ok && old(ctx).plain() && skip is None && -INFINITY <= alpha0 && beta <= INFINITY ==> node_sound(
            *final(node),
            b0,
            moves@,
            moves@.len() as int,
            depth as nat,
            ply as int,
            alpha0 as int,
            beta as int, old(ctx).spec_switches().0,
        ),
    decreases depth + headroom(ply), 2int, 0int,
{
    let ghost p = old(ctx).plain() && skip is None && -INFINITY <= alpha0 && beta <= INFINITY;
    let ghost ctx0 = *old(ctx);
    let n = moves.len();
    let us = board.state().side_to_move();
    let mut i = start;
    while i < n
        invariant_except_break
            node.alpha < beta,
            node.cutoff is None,
        invariant
            start <= i <= n,
            n == moves@.len(),
            b0.wf(),
            playable(b0),
            forall|j: int| start <= j < n ==> movable(b0, #[trigger] moves@[j]),
            Board::same_position(*board, b0),
            board.wf(),
            tt.wf(),
            old(ctx).same_run(ctx),
            us == b0.spec_state().spec_side(),
            1 <= depth,
            fits(depth as int, ply as int),
            -WINDOW <= alpha0 <= node.alpha <= WINDOW,
            beta <= WINDOW,
            old(node).legal <= node.legal <= i,
            within(node.best as int, alpha0 as int, beta as int),
            all_pseudo(b0, moves@, start as int) && node.legal > old(node).legal ==> has_legal_move(b0),
            -INFINITY <= alpha0 ==> node.alpha == (if node.best > alpha0 { node.best } else { alpha0 }),
            p == (ctx0.plain() && skip is None && -INFINITY <= alpha0 && beta <= INFINITY),
            ctx0 == *old(ctx),
            p ==> all_pseudo(b0, moves@, start as int),
            p ==> node_sound(*node, b0, moves@, i as int, depth as nat, ply as int, alpha0 as int, beta as int, old(ctx).spec_switches().0),
        ensures
            node.cutoff is None ==> node.alpha < beta,
            node.cutoff is Some ==> node.alpha >= beta,
            -INFINITY <= alpha0 ==> node.alpha == (if node.best > alpha0 { node.best } else { alpha0 }),
            p ==> node_sound(*node, b0, moves@, n as int, depth as nat, ply as int, alpha0 as int, beta as int, old(ctx).spec_switches().0),
        decreases n - i,
    {
        let mv = moves.get(i);
        i = i + 1;
        if skip == Some(mv) {
            continue;
        }
        proof {
            board.lemma_wf_layout();
            assert(movable(b0, moves@[i - 1]));
        }
        let losing = see(board, mv) < 0;
        board.make(mv);
        let ghost mid = *board;
        proof {
            board.lemma_wf_layout();
        }
        if in_check(board, us) {
            take_back(board, mv, Ghost(b0), Ghost(mid));
            proof {
                if p {
                    lemma_illegal(b0, mv);
                    lemma_node_skip(*node, b0, moves@, i - 1, depth as nat, ply as int, alpha0 as int, beta as int, old(ctx).spec_switches().0);
                }
            }
            continue;
        }
        proof {
            if all_pseudo(b0, moves@, start as int) {
                assert(pseudo_move(b0.spec_mailbox(), b0.spec_state(), true, true, moves@[i - 1].from_idx(), moves@[i - 1].to_idx(), moves@[i - 1].spec_type()));
                lemma_legal(b0, mv);
                assert(legal_move(b0.spec_mailbox(), b0.spec_state(), mv.from_idx(), mv.to_idx(), mv.spec_type()));
            }
        }
        let them = board.state().side_to_move();
        let gives_check = in_check(board, them);
        let extension = if ctx.check_extension {
            check_extension(gives_check, losing, ply)
        } else {
            0
        };
        let reduce = lmr_eligible(depth, node.legal, mv, ply, gives_check, ctx);
        let result = search_move(
            board,
            tt,
            depth + extension,
            ply + 1,
            node.alpha,
            beta,
            node.legal,
            reduce,
            ctx,
        );
        take_back(board, mv, Ghost(b0), Ghost(mid));
        let ghost before = *node;
        node.legal = node.legal + 1;
        let score = result?;
        if score > node.best {
            node.best = score;
            node.best_move = Some(mv);
        }
        if node.best > node.alpha {
            node.alpha = node.best;
        }
        if node.alpha >= beta {
            node.cutoff = Some(mv);
            proof {
                if p {
                    lemma_child_value(b0, mv, mid, depth as nat, ply as int, old(ctx).spec_switches().0);
                    lemma_node_step(before, *node, b0, moves@, i - 1, score as int, depth as nat, ply as int, alpha0 as int, beta as int, old(ctx).spec_switches().0);
                }
            }
            break;
        }
        proof {
            if p {
                lemma_child_value(b0, mv, mid, depth as nat, ply as int, old(ctx).spec_switches().0);
                lemma_node_step(before, *node, b0, moves@, i - 1, score as int, depth as nat, ply as int, alpha0 as int, beta as int, old(ctx).spec_switches().0);
            }
        }
    }
    Ok(())
}

/// The alpha-beta search of one interior node: draws by repetition or the
/// fifty-move rule, then quiescence at depth 0, a cutoff from the
/// transposition table (below the root's children), reverse futility
/// pruning, null-move pruning, and then the moves in stages (the table's
/// move, the captures, the quiets), each checking move extended by a ply.
/// A quiet move that cuts off becomes a killer and earns history, and the
/// result is stored in the table with the bound it proves.
#[verifier::rlimit(100)]
#[verifier::spinoff_prover]
fn negamax(
    board: &mut Board,
    tt: &mut TranspositionTable,
    depth: u32,
    ply: u32,
    alpha: i32,
    beta: i32,
    can_null: bool,
    ctx: &mut Ctx,
) -> (r: Result<i32, Aborted>)
    requires
        old(board).wf(),
        old(tt).wf(),
        old(ctx).wf(),
        fits(depth as int, ply as int),
        -WINDOW <= alpha < beta <= WINDOW,
    ensures
        Board::same_position(*final(board), *old(board)),
        final(board).wf(),
        final(tt).wf(),
        old(ctx).same_run(final(ctx)),
        old(ctx).spec_iteration() == 1 ==> r is Ok,
        r matches Ok(s) ==> within(s as int, alpha as int, beta as int),
        r matches Ok(s) ==> ply > 0 && drawn(*old(board)) ==> s == DRAW,
        r matches Ok(s) ==> (old(ctx).plain() && -INFINITY <= alpha && beta <= INFINITY ==> fail_soft(
            s as int,
            alpha as int,
            beta as int,
            value_of(*old(board), depth as nat, ply as int, old(ctx).spec_switches().0),
        )),
        ply > 0 && drawn(*old(board)) ==> *final(tt) == *old(tt),
        final(ctx).spec_nodes() >= 1,
        r matches Ok(s) ==> {
            let mb = old(board).spec_mailbox();
            let side = old(board).spec_state().spec_side();
            &&& depth > 0
            &&& !(ply > 0 && drawn(*old(board)))
            &&& playable(*old(board))
            &&& pawns_placed(mb)
            &&& unknown(*old(tt), old(board).spec_state().spec_zobrist())
            &&& !has_legal_move(*old(board))
            &&& (checked(mb, side) || crate::eval::position::evaluation(mb, side) < beta)
        } ==> s == terminal_value(*old(board), ply as int),
    decreases depth + headroom(ply), 3int, 0int,
{
    let ghost b0 = *board;
    let ghost ctx0 = *old(ctx);
    let ghost pn = ctx0.plain() && -INFINITY <= alpha && beta <= INFINITY;
    proof {
        assert(drawn(b0) == crate::search::minimax::drawn_at(b0.spec_state(), b0.spec_history()));
        lemma_value_of(b0, depth as nat, ply as int, old(ctx).spec_switches().0);
        lemma_quiescence_of(b0, 0, ply as int);
    }
    ctx.count_node();
    ctx.check_abort()?;
    if ply > 0 && is_draw(board) {
        return Ok(DRAW);
    }
    if !searchable(board) {
        return Ok(DRAW);
    }
    proof {
        board.lemma_wf_layout();
    }
    if depth == 0 {
        if !ctx.quiesce_leaves {
            return Ok(evaluate(board));
        }
        return qsearch(board, ply, 0, alpha, beta, ctx);
    }
    let key = board.state().zobrist();
    let entry = if ctx.use_table {
        tt.probe(key)
    } else {
        None
    };
    if let Some(e) = entry {
        if e.depth >= depth && ply > 1 {
            let score = score_from_tt(e.score, ply);
            let usable = match e.bound {
                Bound::Exact => true,
                Bound::Lower => score >= beta,
                Bound::Upper => score <= alpha,
            };
            if usable {
                return Ok(score);
            }
        }
    }
    let us = board.state().side_to_move();
    let static_eval = evaluate(board);
    if ctx.rfp && -MATE_BOUND <= beta && beta <= MATE_BOUND && static_eval - RFP_MARGIN * (depth as i32) >= beta
        && !in_check(board, us) {
        return Ok(static_eval);
    }
    let others = board.color(us).and(board.pieces(PieceType::Pawn).complement()).and(
        board.pieces(PieceType::King).complement(),
    );
    if ctx.nmp && depth >= MIN_NULL_DEPTH && can_null && !others.is_empty() && static_eval - TEMPO >= beta
        && !in_check(board, us) {
        let reduction = 2 + depth / 6;
        board.make_null();
        let ghost mid = *board;
        let result = negamax(
            board,
            tt,
            depth - 1 - reduction,
            ply + 1,
            -beta,
            -beta + 1,
            false,
            ctx,
        );
        pass_back(board, Ghost(b0), Ghost(mid));
        let score = -result?;
        if score >= beta {
            return Ok(beta);
        }
    }
    proof {
        board.lemma_wf_layout();
    }
    let tt_move = match entry {
        Some(e) => match e.best_move {
            Some(mv) => if is_pseudo_legal(board, mv) {
                Some(mv)
            } else {
                None
            },
            None => None,
        },
        None => None,
    };
    let mut moves = MoveList::new();
    let ghost l0 = moves@;
    let ghost mut l1: Seq<Move> = moves@;
    let ghost mut l1r: Seq<Move> = moves@;
    let ghost mut l2: Seq<Move> = moves@;
    let mut node = Node { alpha, best: -INFINITY, best_move: None, legal: 0, cutoff: None };
    if let Some(mv) = tt_move {
        moves.push(mv);
        proof {
            lemma_screened_playable(b0, mv);
            assert(moves@[0] == mv);
        }
        search_stage(
            board,
            tt,
            ctx,
            &moves,
            0,
            None,
            depth,
            ply,
            beta,
            &mut node,
            Ghost(b0),
            Ghost(alpha),
        )?;
    }
    if node.cutoff.is_none() {
        let start = moves.len();
        proof {
            board.lemma_wf_layout();
        }
        generate_captures(board, &mut moves);
        proof {
            lemma_generated_movable(b0, moves@, start as int, true, false);
            lemma_generated_pseudo(b0, moves@, start as int, true, false);
        }
        let ghost listed = moves@;
        let killers = ctx.killers_at(ply);
        order_moves(board, &mut moves, start, None, killers, ctx);
        proof {
            lemma_reordered_movable(b0, listed, moves@, start as int);
            lemma_reordered_pseudo(b0, listed, moves@, start as int);
            l1 = listed;
            l1r = moves@;
        }
        search_stage(
            board,
            tt,
            ctx,
            &moves,
            start,
            tt_move,
            depth,
            ply,
            beta,
            &mut node,
            Ghost(b0),
            Ghost(alpha),
        )?;
    }
    if node.cutoff.is_none() {
        let start = moves.len();
        proof {
            board.lemma_wf_layout();
        }
        let ghost before_quiets = moves@;
        generate_quiets(board, &mut moves);
        proof {
            lemma_generated_movable(b0, moves@, start as int, false, true);
            lemma_generated_pseudo(b0, moves@, start as int, false, true);
        }
        let ghost listed = moves@;
        let killers = ctx.killers_at(ply);
        order_moves(board, &mut moves, start, None, killers, ctx);
        proof {
            lemma_reordered_movable(b0, listed, moves@, start as int);
            lemma_reordered_pseudo(b0, listed, moves@, start as int);
            l2 = listed;
            if pn {
                assert forall|j: int| 0 <= j < start implies moves@[j] == before_quiets[j] by {
                    assert(listed[j] == listed.subrange(0, before_quiets.len() as int)[j]);
                }
                lemma_node_prefix(node, b0, before_quiets, moves@, start as int, depth as nat, ply as int, alpha as int, beta as int, old(ctx).spec_switches().0);
            }
        }
        search_stage(
            board,
            tt,
            ctx,
            &moves,
            start,
            tt_move,
            depth,
            ply,
            beta,
            &mut node,
            Ghost(b0),
            Ghost(alpha),
        )?;
    }
    if let Some(mv) = node.cutoff {
        if !mv.is_capture() && !mv.is_promotion() {
            ctx.store_killer(ply, mv);
            assert(depth * depth <= 1_000_000) by (nonlinear_arith)
                requires
                    depth <= 1000,
            ;
            ctx.bump_history(us, mv.from(), mv.to(), depth);
        }
    }
    proof {
        board.lemma_wf_layout();
    }
    proof {
        if pn {
            lemma_negamax_value(b0, node, moves@, l0, l1, l1r, l2, depth as nat, ply as int, alpha as int, beta as int, old(ctx).spec_switches().0);
        }
    }
    if node.legal == 0 {
        return Ok(terminal_score(board, ply));
    }
    let best = node.best;
    let bound = if best >= beta {
        Bound::Lower
    } else if best > alpha {
        Bound::Exact
    } else {
        Bound::Upper
    };
    if ctx.use_table {
        tt.store(key, score_to_tt(best, ply), node.best_move, depth, bound);
    }
    Ok(best)
}


/// What a node's move loop knows, with every legal move among its moves
/// where no cutoff ended it, fixes its result against the minimax value:
/// the terminal score without a legal move, and otherwise a fail-soft
/// bound of the window.
proof fn lemma_negamax_value(
    b0: Board,
    node: Node,
    s: Seq<Move>,
    l0: Seq<Move>,
    l1: Seq<Move>,
    l1r: Seq<Move>,
    l2: Seq<Move>,
    depth: nat,
    ply: int,
    alpha: int,
    beta: int,
    quiesce: bool,
)
    requires
        depth > 0,
        !(ply > 0 && crate::search::minimax::drawn_at(b0.spec_state(), b0.spec_history())),
        playable(b0),
        pawns_placed(b0.spec_mailbox()),
        -INFINITY <= alpha < beta <= INFINITY,
        node_sound(node, b0, s, s.len() as int, depth, ply, alpha, beta, quiesce),
        node.alpha == (if node.best > alpha { node.best as int } else { alpha }),
        node.cutoff is Some ==> node.alpha >= beta,
        node.legal > 0 ==> has_legal_move(b0),
        node.cutoff is None ==> {
            &&& node.alpha < beta
            &&& l0.len() == 0
            &&& crate::movegen::gen::generated(b0, crate::movegen::gen::GenMode::Captures, l0, l1)
            &&& reordered(l1, l1r, 0)
            &&& crate::movegen::gen::generated(b0, crate::movegen::gen::GenMode::Quiets, l1r, l2)
            &&& reordered(l2, s, l1r.len() as int)
        },
    ensures
        node.legal == 0 ==> value_of(b0, depth, ply, quiesce) == terminal_value(b0, ply),
        node.legal > 0 ==> fail_soft(node.best as int, alpha, beta, value_of(b0, depth, ply, quiesce)),
{
    let mb = b0.spec_mailbox();
    let st = b0.spec_state();
    let h = b0.spec_history();
    let best = node.best as int;
    lemma_value_of(b0, depth, ply, quiesce);
    crate::search::minimax::lemma_best_reply(mb, st, h, depth, ply, 0, quiesce);
    if node.cutoff is Some {
        let m = choose|m: Move| legal_on(b0, m) && #[trigger] reply_of(b0, m, depth, ply, quiesce) >= best;
        lemma_reply_lower(b0, m, depth, ply, quiesce);
    } else {
        lemma_stages_cover(b0, l0, l1, l1r, l2, s);
        assert forall|f: int, t: int, ty: MoveType| legal_move(mb, st, f, t, ty) implies #[trigger] crate::search::minimax::reply_value(
            mb,
            st,
            h,
            depth,
            ply,
            f,
            t,
            ty, quiesce,
        ) <= best && node.legal > 0 by {
            assert(crate::movegen::list::holds_move(s, 0, s.len() as int, f, t, ty));
            let j = choose|j: int|
                0 <= j < s.len() && #[trigger] s[j].from_idx() == f && s[j].to_idx() == t && s[j].spec_type() == ty;
            assert(legal_on(b0, s[j]));
        }
        lemma_reply_upper(mb, st, h, depth, ply, best, quiesce);
        if node.legal > 0 {
            let (f, t, ty) = choose|f: int, t: int, ty: MoveType| #[trigger] legal_move(mb, st, f, t, ty);
            assert(crate::movegen::list::holds_move(s, 0, s.len() as int, f, t, ty));
            let j = choose|j: int|
                0 <= j < s.len() && #[trigger] s[j].from_idx() == f && s[j].to_idx() == t && s[j].spec_type() == ty;
            assert(legal_on(b0, s[j]));
            lemma_reply_lower(b0, s[j], depth, ply, quiesce);
            if best > alpha {
                let m = choose|m: Move| legal_on(b0, m) && #[trigger] reply_of(b0, m, depth, ply, quiesce) >= best;
                lemma_reply_lower(b0, m, depth, ply, quiesce);
            }
        } else {
            if let Some(v) = crate::search::minimax::best_reply(mb, st, h, depth, ply, 0, quiesce) {
                let j = choose|j: int|
                    0 <= j < 65536 && #[trigger] legal_move(mb, st, crate::search::minimax::triple(j).0, crate::search::minimax::triple(j).1, crate::search::minimax::triple(j).2)
                        && crate::search::minimax::reply_value(mb, st, h, depth, ply, crate::search::minimax::triple(j).0, crate::search::minimax::triple(j).1, crate::search::minimax::triple(j).2, quiesce) == v;
                let (f, t, ty) = crate::search::minimax::triple(j);
                assert(legal_move(mb, st, f, t, ty));
            }
        }
    }
}

/// The root's best move and score, with every legal move among the moves it
/// searched, fix its result against the minimax value.
proof fn lemma_root_value(
    b0: Board,
    m: Move,
    best: int,
    s: Seq<Move>,
    gl: Seq<Move>,
    depth: nat,
    alpha: int,
    beta: int,
    quiesce: bool,
)
    requires
        depth > 0,
        playable(b0),
        pawns_placed(b0.spec_mailbox()),
        crate::movegen::gen::generated(b0, crate::movegen::gen::GenMode::All, Seq::<Move>::empty(), gl),
        reordered(gl, s, 0),
        legal_on(b0, m),
        best < beta ==> bounded_by(b0, s, s.len() as int, depth, 0, best, quiesce),
        alpha < best < beta ==> reply_of(b0, m, depth, 0, quiesce) == best,
    ensures
        best < beta ==> {
            &&& best <= alpha ==> value_of(b0, depth, 0, quiesce) <= best
            &&& alpha < best ==> value_of(b0, depth, 0, quiesce) == best
        },
{
    let mb = b0.spec_mailbox();
    let st = b0.spec_state();
    let h = b0.spec_history();
    lemma_value_of(b0, depth, 0, quiesce);
    lemma_reply_lower(b0, m, depth, 0, quiesce);
    if best < beta {
        assert forall|f: int, t: int, ty: MoveType| legal_move(mb, st, f, t, ty) implies #[trigger] crate::search::minimax::reply_value(
            mb,
            st,
            h,
            depth,
            0,
            f,
            t,
            ty, quiesce,
        ) <= best by {
            assert(crate::movegen::list::holds_move(gl, 0, gl.len() as int, f, t, ty));
            let j = choose|j: int|
                0 <= j < gl.len() && #[trigger] gl[j].from_idx() == f && gl[j].to_idx() == t && gl[j].spec_type() == ty;
            assert(s.subrange(0, s.len() as int).contains(gl[j]));
            let k = choose|k: int| 0 <= k < s.len() && s.subrange(0, s.len() as int)[k] == gl[j];
            assert(s[k] == gl[j]);
            assert(legal_on(b0, s[k]));
        }
        lemma_reply_upper(mb, st, h, depth, 0, best, quiesce);
    }
}

/// One more searched root move keeps what the root knows of its best.
proof fn lemma_root_step(
    b0: Board,
    s: Seq<Move>,
    i: int,
    depth: nat,
    alpha: int,
    beta: int,
    old_best: int,
    old_move: Option<Move>,
    new_best: int,
    new_move: Option<Move>,
    score: int,
    cut: int,
    quiesce: bool,
)
    requires
        0 <= i < s.len(),
        -INFINITY <= alpha < beta,
        old_best < beta ==> bounded_by(b0, s, i, depth, 0, old_best, quiesce),
        old_move matches Some(m) ==> (alpha < old_best < beta ==> reply_of(b0, m, depth, 0, quiesce) == old_best),
        old_move is None ==> old_best == -INFINITY,
        old_move is None ==> forall|j: int|
            0 <= j < i ==> checked(make_mailbox(b0.spec_mailbox(), #[trigger] s[j]), b0.spec_state().spec_side()),
        cut == (if old_best > alpha { old_best } else { alpha }),
        legal_on(b0, s[i]),
        cut < beta ==> fail_soft(score, cut, beta, reply_of(b0, s[i], depth, 0, quiesce)),
        (score > old_best || old_move is None) ==> new_best == score && new_move == Some(s[i]),
        !(score > old_best || old_move is None) ==> new_best == old_best && new_move == old_move,
    ensures
        new_best < beta ==> bounded_by(b0, s, i + 1, depth, 0, new_best, quiesce),
        new_move matches Some(m) ==> (alpha < new_best < beta ==> reply_of(b0, m, depth, 0, quiesce) == new_best),
{
    if old_move is None {
        assert forall|j: int| 0 <= j < i implies !legal_on(b0, #[trigger] s[j]) by {
            lemma_illegal(b0, s[j]);
        }
    }
    if new_best < beta {
        assert forall|j: int| 0 <= j < i + 1 && legal_on(b0, #[trigger] s[j]) implies reply_of(
            b0,
            s[j],
            depth,
            0, quiesce,
        ) <= new_best by {
            if j < i {
                assert(old_move is Some);
                assert(reply_of(b0, s[j], depth, 0, quiesce) <= old_best);
            }
        }
    }
}

/// Every move of `s` is a pseudo-legal capture on `b0`.
pub open spec fn all_captures(b0: Board, s: Seq<Move>) -> bool {
    forall|j: int|
        #![trigger s[j]]
        0 <= j < s.len() ==> pseudo_move(
            b0.spec_mailbox(),
            b0.spec_state(),
            true,
            false,
            s[j].from_idx(),
            s[j].to_idx(),
            s[j].spec_type(),
        )
}

/// What quiescence's move loop knows of the true value once the first `hi`
/// moves of `s` are behind it: without a cutoff its best bounds every
/// quiescence move among them, and a best above the lower edge (or inside
/// the window) is the stand-pat score or reached (or attained) by a
/// quiescence move.
spec fn q_sound(
    b0: Board,
    s: Seq<Move>,
    hi: int,
    qply: nat,
    ply: int,
    alpha0: int,
    beta: int,
    best: int,
    alpha: int,
    chk: bool,
    eval0: int,
) -> bool {
    &&& alpha < beta ==> forall|j: int|
        0 <= j < hi && searched_in_quiescence(b0, #[trigger] s[j]) ==> capture_of(b0, s[j], qply, ply) <= best
    &&& best > alpha0 ==> (!chk && best == eval0) || exists|m: Move|
        searched_in_quiescence(b0, m) && #[trigger] capture_of(b0, m, qply, ply) >= best
    &&& alpha0 < best < beta ==> (!chk && best == eval0) || exists|m: Move|
        searched_in_quiescence(b0, m) && #[trigger] capture_of(b0, m, qply, ply) == best
}

/// Searching one more quiescence move keeps the loop's knowledge sound.
proof fn lemma_q_step(
    b0: Board,
    s: Seq<Move>,
    i: int,
    qply: nat,
    ply: int,
    alpha0: int,
    beta: int,
    ob: int,
    oa: int,
    nb: int,
    na: int,
    score: int,
    chk: bool,
    eval0: int,
)
    requires
        0 <= i < s.len(),
        q_sound(b0, s, i, qply, ply, alpha0, beta, ob, oa, chk, eval0),
        oa == (if ob > alpha0 { ob } else { alpha0 }),
        oa < beta,
        searched_in_quiescence(b0, s[i]),
        fail_soft(score, oa, beta, capture_of(b0, s[i], qply, ply)),
        nb == (if score > ob { score } else { ob }),
        na == (if nb > oa { nb } else { oa }),
    ensures
        q_sound(b0, s, i + 1, qply, ply, alpha0, beta, nb, na, chk, eval0),
        na == (if nb > alpha0 { nb } else { alpha0 }),
{
    let m = s[i];
    let v = capture_of(b0, m, qply, ply);
    if score > ob {
        if nb > alpha0 {
            assert(v >= nb);
        }
        if alpha0 < nb < beta {
            assert(v == nb);
        }
    }
    if na < beta {
        assert forall|j: int| 0 <= j < i + 1 && searched_in_quiescence(b0, #[trigger] s[j]) implies capture_of(
            b0,
            s[j],
            qply,
            ply,
        ) <= nb by {
            if j < i {
                assert(capture_of(b0, s[j], qply, ply) <= ob);
            }
        }
    }
}

/// Passing over a move quiescence does not search keeps its knowledge
/// sound.
proof fn lemma_q_skip(
    b0: Board,
    s: Seq<Move>,
    i: int,
    qply: nat,
    ply: int,
    alpha0: int,
    beta: int,
    best: int,
    alpha: int,
    chk: bool,
    eval0: int,
)
    requires
        0 <= i < s.len(),
        q_sound(b0, s, i, qply, ply, alpha0, beta, best, alpha, chk, eval0),
        !searched_in_quiescence(b0, s[i]),
    ensures
        q_sound(b0, s, i + 1, qply, ply, alpha0, beta, best, alpha, chk, eval0),
{
    if alpha < beta {
        assert forall|j: int| 0 <= j < i + 1 && searched_in_quiescence(b0, #[trigger] s[j]) implies capture_of(
            b0,
            s[j],
            qply,
            ply,
        ) <= best by {}
    }
}

/// A move found in a list is found in any reordering of it.
proof fn lemma_holds_reordered(old: Seq<Move>, new: Seq<Move>, f: int, t: int, ty: MoveType)
    requires
        reordered(old, new, 0),
        crate::movegen::list::holds_move(old, 0, old.len() as int, f, t, ty),
    ensures
        crate::movegen::list::holds_move(new, 0, new.len() as int, f, t, ty),
{
    let j = choose|j: int|
        0 <= j < old.len() && #[trigger] old[j].from_idx() == f && old[j].to_idx() == t && old[j].spec_type() == ty;
    assert(new.subrange(0, new.len() as int).contains(old[j]));
    let k = choose|k: int| 0 <= k < new.len() && new.subrange(0, new.len() as int)[k] == old[j];
    assert(new[k] == old[j]);
    assert(new[k].from_idx() == f);
}

/// The list quiescence searches holds every quiescence move: the legal
/// moves in check, the captures otherwise.
proof fn lemma_quiescence_cover(b0: Board, listed: Seq<Move>, s: Seq<Move>, chk: bool)
    requires
        reordered(listed, s, 0),
        chk == checked(b0.spec_mailbox(), b0.spec_state().spec_side()),
        chk ==> crate::movegen::legal::legal_generated(b0, Seq::<Move>::empty(), listed),
        !chk ==> crate::movegen::gen::generated(b0, crate::movegen::gen::GenMode::Captures, Seq::<Move>::empty(), listed),
    ensures
        forall|f: int, t: int, ty: MoveType|
            #[trigger] crate::search::minimax::quiescence_move(b0.spec_mailbox(), b0.spec_state(), f, t, ty)
                ==> crate::movegen::list::holds_move(s, 0, s.len() as int, f, t, ty),
        chk ==> forall|j: int| 0 <= j < s.len() ==> #[trigger] legal_on(b0, s[j]),
        !chk ==> all_captures(b0, s),
{
    let mb = b0.spec_mailbox();
    let st = b0.spec_state();
    assert forall|f: int, t: int, ty: MoveType|
        #[trigger] crate::search::minimax::quiescence_move(mb, st, f, t, ty) implies crate::movegen::list::holds_move(
        s,
        0,
        s.len() as int,
        f,
        t,
        ty,
    ) by {
        assert(crate::movegen::list::holds_move(listed, 0, listed.len() as int, f, t, ty));
        lemma_holds_reordered(listed, s, f, t, ty);
    }
    assert forall|j: int| 0 <= j < s.len() implies (chk ==> #[trigger] legal_on(b0, s[j])) && (!chk ==> pseudo_move(
        mb,
        st,
        true,
        false,
        s[j].from_idx(),
        s[j].to_idx(),
        s[j].spec_type(),
    )) by {
        let sub = listed.subrange(0, listed.len() as int);
        assert(sub.contains(s[j]));
        let k = choose|k: int| 0 <= k < sub.len() && sub[k] == s[j];
        assert(listed[k] == s[j]);
    }
}

/// Quiescence's move loop, with every quiescence move among its moves
/// where no cutoff ended it, bounds its result against the quiescence
/// value.
proof fn lemma_q_value(
    b0: Board,
    s: Seq<Move>,
    hi: int,
    qply: nat,
    ply: int,
    alpha0: int,
    beta: int,
    best: int,
    alpha: int,
    chk: bool,
    eval0: int,
)
    requires
        -INFINITY <= alpha0 < beta <= INFINITY,
        playable(b0),
        pawns_placed(b0.spec_mailbox()),
        qply < MAX_QPLY,
        chk == checked(b0.spec_mailbox(), b0.spec_state().spec_side()),
        !chk ==> eval0 == crate::eval::position::evaluation(b0.spec_mailbox(), b0.spec_state().spec_side()) && best >= eval0,
        chk ==> has_legal_move(b0),
        alpha == (if best > alpha0 { best } else { alpha0 }),
        q_sound(b0, s, hi, qply, ply, alpha0, beta, best, alpha, chk, eval0),
        alpha < beta ==> hi == s.len(),
        forall|f: int, t: int, ty: MoveType|
            #[trigger] crate::search::minimax::quiescence_move(b0.spec_mailbox(), b0.spec_state(), f, t, ty)
                ==> crate::movegen::list::holds_move(s, 0, s.len() as int, f, t, ty),
    ensures
        fail_soft(best, alpha0, beta, quiescence_of(b0, qply, ply)),
{
    let mb = b0.spec_mailbox();
    let st = b0.spec_state();
    let h = b0.spec_history();
    lemma_quiescence_of(b0, qply, ply);
    crate::search::minimax::lemma_best_capture(mb, st, h, qply, ply, 0);
    if best > alpha0 && !(!chk && best == eval0) {
        let m = choose|m: Move| searched_in_quiescence(b0, m) && #[trigger] capture_of(b0, m, qply, ply) >= best;
        lemma_capture_lower(b0, m, qply, ply);
    }
    if alpha < beta {
        assert forall|f: int, t: int, ty: MoveType| crate::search::minimax::quiescence_move(mb, st, f, t, ty) implies #[trigger] crate::search::minimax::capture_value(
            mb,
            st,
            h,
            qply,
            ply,
            f,
            t,
            ty,
        ) <= best by {
            assert(crate::movegen::list::holds_move(s, 0, s.len() as int, f, t, ty));
            let j = choose|j: int|
                0 <= j < s.len() && #[trigger] s[j].from_idx() == f && s[j].to_idx() == t && s[j].spec_type() == ty;
            assert(searched_in_quiescence(b0, s[j]));
        }
        lemma_capture_upper(mb, st, h, qply, ply, best);
        if chk {
            let (f, t, ty) = choose|f: int, t: int, ty: MoveType| #[trigger] legal_move(mb, st, f, t, ty);
            assert(crate::search::minimax::quiescence_move(mb, st, f, t, ty));
            assert(crate::movegen::list::holds_move(s, 0, s.len() as int, f, t, ty));
            let j = choose|j: int|
                0 <= j < s.len() && #[trigger] s[j].from_idx() == f && s[j].to_idx() == t && s[j].spec_type() == ty;
            assert(searched_in_quiescence(b0, s[j]));
            lemma_capture_lower(b0, s[j], qply, ply);
        }
    }
}

/// A pseudo-legal move is a capture or a quiet one.
proof fn lemma_pseudo_split(mb: Seq<Option<Piece>>, st: crate::board::State, f: int, t: int, ty: MoveType)
    requires
        pseudo_move(mb, st, true, true, f, t, ty),
    ensures
        pseudo_move(mb, st, true, false, f, t, ty) || pseudo_move(mb, st, false, true, f, t, ty),
{
}

/// The captures, reordered, followed by the quiets, reordered after them,
/// hold every legal move.
proof fn lemma_stages_cover(
    b0: Board,
    l0: Seq<Move>,
    l1: Seq<Move>,
    l1r: Seq<Move>,
    l2: Seq<Move>,
    l2r: Seq<Move>,
)
    requires
        l0.len() == 0,
        crate::movegen::gen::generated(b0, crate::movegen::gen::GenMode::Captures, l0, l1),
        reordered(l1, l1r, 0),
        crate::movegen::gen::generated(b0, crate::movegen::gen::GenMode::Quiets, l1r, l2),
        reordered(l2, l2r, l1r.len() as int),
    ensures
        forall|f: int, t: int, ty: MoveType|
            #[trigger] legal_move(b0.spec_mailbox(), b0.spec_state(), f, t, ty)
                ==> crate::movegen::list::holds_move(l2r, 0, l2r.len() as int, f, t, ty),
{
    let mb = b0.spec_mailbox();
    let st = b0.spec_state();
    let n1 = l1r.len() as int;
    assert forall|f: int, t: int, ty: MoveType|
        #[trigger] legal_move(mb, st, f, t, ty) implies crate::movegen::list::holds_move(
        l2r,
        0,
        l2r.len() as int,
        f,
        t,
        ty,
    ) by {
        lemma_pseudo_split(mb, st, f, t, ty);
        if pseudo_move(mb, st, true, false, f, t, ty) {
            assert(crate::movegen::list::holds_move(l1, 0, l1.len() as int, f, t, ty));
            let j = choose|j: int|
                0 <= j < l1.len() && #[trigger] l1[j].from_idx() == f && l1[j].to_idx() == t
                    && l1[j].spec_type() == ty;
            assert(l1r.subrange(0, l1r.len() as int).contains(l1[j]));
            let k = choose|k: int| 0 <= k < n1 && l1r.subrange(0, n1)[k] == l1[j];
            assert(l1r[k] == l1[j]);
            assert(l2[k] == l2.subrange(0, n1)[k]);
            assert(l2r[k] == l2[k]);
            assert(l2r[k].from_idx() == f);
        } else {
            assert(crate::movegen::list::holds_move(l2, n1, l2.len() as int, f, t, ty));
            let j = choose|j: int|
                n1 <= j < l2.len() && #[trigger] l2[j].from_idx() == f && l2[j].to_idx() == t
                    && l2[j].spec_type() == ty;
            assert(l2r.subrange(n1, l2r.len() as int).contains(l2[j]));
            let k = choose|k: int| 0 <= k < l2r.len() - n1 && l2r.subrange(n1, l2r.len() as int)[k] == l2[j];
            assert(l2r[n1 + k] == l2[j]);
            assert(l2r[n1 + k].from_idx() == f);
        }
    }
}

/// The side to move has a legal move.
pub open spec fn has_legal_move(b: Board) -> bool {
    exists|f: int, t: int, ty: MoveType| #[trigger] legal_move(b.spec_mailbox(), b.spec_state(), f, t, ty)
}

/// The score of a position without a legal move, `ply` plies from the root.
pub open spec fn terminal_value(b: Board, ply: int) -> int {
    if checked(b.spec_mailbox(), b.spec_state().spec_side()) {
        -MATE + ply
    } else {
        DRAW as int
    }
}

/// A move tried on `b` that left the mover in check was not legal.
proof fn lemma_illegal(b: Board, mv: Move)
    requires
        checked(make_mailbox(b.spec_mailbox(), mv), b.spec_state().spec_side()),
    ensures
        !legal_move(b.spec_mailbox(), b.spec_state(), mv.from_idx(), mv.to_idx(), mv.spec_type()),
{
    let after = make_mailbox(b.spec_mailbox(), mv);
    let us = b.spec_state().spec_side();
    let k = choose|k: int| lowest_king(after, us, k) && attacked(after, k, other(us));
    assert(!king_safe_after(b.spec_mailbox(), us, mv));
}

/// A pseudo-legal move that leaves the mover out of check is legal.
proof fn lemma_legal(b: Board, mv: Move)
    requires
        pseudo_move(
            b.spec_mailbox(),
            b.spec_state(),
            true,
            true,
            mv.from_idx(),
            mv.to_idx(),
            mv.spec_type(),
        ),
        !checked(make_mailbox(b.spec_mailbox(), mv), b.spec_state().spec_side()),
    ensures
        legal_move(b.spec_mailbox(), b.spec_state(), mv.from_idx(), mv.to_idx(), mv.spec_type()),
{
    let mb = b.spec_mailbox();
    let us = b.spec_state().spec_side();
    assert forall|m: Move|
        m.from_idx() == mv.from_idx() && m.to_idx() == mv.to_idx() && m.spec_type()
            == mv.spec_type() implies #[trigger] king_safe_after(mb, us, m) by {
        assert(make_mailbox(mb, m) == make_mailbox(mb, mv));
        assert forall|k: int| #[trigger] lowest_king(make_mailbox(mb, m), us, k) implies !attacked(
            make_mailbox(mb, m),
            k,
            other(us),
        ) by {
            if attacked(make_mailbox(mb, m), k, other(us)) {
                assert(checked(make_mailbox(mb, mv), us));
            }
        }
    }
}

/// The root of one iteration: every legal move is searched, the first with
/// the window it was given and the rest against the best so far, and none is
/// cut off on a stored score, since the root must return a move. The result
/// is stored in the table with the bound it proves. With the pruning
/// switches and the table off (see [`Ctx::plain`]), a score below beta is
/// a fail-soft bound of the minimax value, equal to it above alpha, where
/// the returned move attains it.
#[verifier::rlimit(50)]
pub fn negamax_root(
    board: &mut Board,
    tt: &mut TranspositionTable,
    depth: u32,
    alpha: i32,
    beta: i32,
    ctx: &mut Ctx,
) -> (r: Result<(Option<Move>, i32), Aborted>)
    requires
        old(board).wf(),
        playable(*old(board)),
        pawns_placed(old(board).spec_mailbox()),
        old(tt).wf(),
        old(ctx).wf(),
        1 <= depth <= MAX_DEPTH,
        -INFINITY <= alpha < beta <= INFINITY,
    ensures
        Board::same_position(*final(board), *old(board)),
        final(board).wf(),
        final(tt).wf(),
        old(ctx).same_run(final(ctx)),
        old(ctx).spec_iteration() == 1 ==> r is Ok,
        r matches Ok((_, s)) ==> -SCORE_LIMIT <= s <= SCORE_LIMIT,
        r matches Ok((Some(m), _)) ==> legal_move(
            old(board).spec_mailbox(),
            old(board).spec_state(),
            m.from_idx(),
            m.to_idx(),
            m.spec_type(),
        ),
        r matches Ok((m, _)) ==> (m is Some <==> has_legal_move(*old(board))),
        r matches Ok((None, s)) ==> s == terminal_value(*old(board), 0),
        r is Ok && has_legal_move(*old(board)) ==> final(ctx).spec_nodes() >= 1,
        r matches Ok((m, s)) ==> (old(ctx).plain() && s < beta ==> {
            let v = value_of(*old(board), depth as nat, 0, old(ctx).spec_switches().0);
            &&& s <= alpha ==> v <= s
            &&& alpha < s ==> v == s
            &&& alpha < s ==> (m matches Some(mv) ==> reply_of(*old(board), mv, depth as nat, 0, old(ctx).spec_switches().0) == s)
        }),
{
    let ghost b0 = *board;
    let ghost ctx0 = *old(ctx);
    let ghost mb0 = b0.spec_mailbox();
    let ghost st0 = b0.spec_state();
    proof {
        board.lemma_wf_layout();
    }
    let mut moves = MoveList::new();
    generate_pseudo(board, &mut moves);
    let ghost generated_list = moves@;
    proof {
        lemma_generated_movable(b0, moves@, 0, true, true);
    }
    let key = board.state().zobrist();
    let entry = if ctx.use_table {
        tt.probe(key)
    } else {
        None
    };
    let tt_move = match entry {
        Some(e) => e.best_move,
        None => None,
    };
    let killers = ctx.killers_at(0);
    order_moves(board, &mut moves, 0, tt_move, killers, ctx);
    proof {
        lemma_reordered_movable(b0, generated_list, moves@, 0);
        assert forall|j: int| 0 <= j < moves@.len() implies pseudo_move(
            mb0,
            st0,
            true,
            true,
            (#[trigger] moves@[j]).from_idx(),
            moves@[j].to_idx(),
            moves@[j].spec_type(),
        ) by {
            let sub = generated_list.subrange(0, generated_list.len() as int);
            assert(sub.contains(moves@[j]));
            let k = choose|k: int| 0 <= k < sub.len() && sub[k] == moves@[j];
            assert(generated_list[k] == moves@[j]);
        }
    }
    let us = board.state().side_to_move();
    let mut best_move: Option<Move> = None;
    let mut best_score = -INFINITY;
    let mut legal: usize = 0;
    let n = moves.len();
    let mut i: usize = 0;
    while i < n
        invariant
            i <= n,
            n == moves@.len(),
            b0 == *old(board),
            b0.wf(),
            playable(b0),
            mb0 == b0.spec_mailbox(),
            st0 == b0.spec_state(),
            forall|j: int| 0 <= j < n ==> movable(b0, #[trigger] moves@[j]),
            forall|j: int|
                0 <= j < n ==> pseudo_move(
                    mb0,
                    st0,
                    true,
                    true,
                    (#[trigger] moves@[j]).from_idx(),
                    moves@[j].to_idx(),
                    moves@[j].spec_type(),
                ),
            reordered(generated_list, moves@, 0),
            Board::same_position(*board, b0),
            board.wf(),
            tt.wf(),
            old(ctx).same_run(ctx),
            us == st0.spec_side(),
            1 <= depth <= MAX_DEPTH,
            -INFINITY <= alpha < beta <= INFINITY,
            legal <= i,
            -SCORE_LIMIT <= best_score <= SCORE_LIMIT,
            best_move is None ==> best_score == -INFINITY,
            best_move matches Some(m) ==> legal_move(mb0, st0, m.from_idx(), m.to_idx(), m.spec_type()),
            legal == 0 <==> best_move is None,
            legal > 0 ==> ctx.spec_nodes() >= 1,
            ctx0 == *old(ctx),
            ctx0.plain() ==> {
                &&& best_score < beta ==> bounded_by(b0, moves@, i as int, depth as nat, 0, best_score as int, old(ctx).spec_switches().0)
                &&& best_move matches Some(m) ==> (alpha < best_score < beta ==> reply_of(b0, m, depth as nat, 0, old(ctx).spec_switches().0)
                    == best_score)
            },
            legal == 0 ==> forall|j: int|
                0 <= j < i ==> checked(make_mailbox(mb0, #[trigger] moves@[j]), st0.spec_side()),
        decreases n - i,
    {
        let mv = moves.get(i);
        proof {
            assert(movable(b0, moves@[i as int]));
            assert(pseudo_move(mb0, st0, true, true, mv.from_idx(), mv.to_idx(), mv.spec_type()));
        }
        board.make(mv);
        let ghost mid = *board;
        proof {
            board.lemma_wf_layout();
        }
        if in_check(board, us) {
            take_back(board, mv, Ghost(b0), Ghost(mid));
            proof {
                lemma_illegal(b0, mv);
                if ctx0.plain() && best_score < beta {
                    assert(mv == moves@[i as int]);
                    assert forall|j: int| 0 <= j < i + 1 && legal_on(b0, #[trigger] moves@[j]) implies reply_of(
                        b0,
                        moves@[j],
                        depth as nat,
                        0, old(ctx).spec_switches().0,
                    ) <= best_score by {}
                }
            }
            i = i + 1;
            continue;
        }
        proof {
            lemma_legal(b0, mv);
        }
        let cut = if best_score > alpha {
            best_score
        } else {
            alpha
        };
        let result = search_move(board, tt, depth, 1, cut, beta, legal, false, ctx);
        take_back(board, mv, Ghost(b0), Ghost(mid));
        legal = legal + 1;
        let score = result?;
        let ghost old_best = best_score;
        let ghost old_move = best_move;
        if score > best_score || best_move.is_none() {
            best_score = score;
            best_move = Some(mv);
        }
        proof {
            if ctx0.plain() {
                lemma_child_value(b0, mv, mid, depth as nat, 0, old(ctx).spec_switches().0);
                lemma_root_step(b0, moves@, i as int, depth as nat, alpha as int, beta as int, old_best as int, old_move, best_score as int, best_move, score as int, cut as int, old(ctx).spec_switches().0);
            }
        }
        i = i + 1;
    }
    proof {
        board.lemma_wf_layout();
    }
    if legal == 0 {
        proof {
            assert forall|f: int, t: int, ty: MoveType| !#[trigger] legal_move(mb0, st0, f, t, ty) by {
                if legal_move(mb0, st0, f, t, ty) {
                    assert(crate::movegen::list::holds_move(generated_list, 0, n as int, f, t, ty));
                    let j = choose|j: int|
                        0 <= j < n && #[trigger] generated_list[j].from_idx() == f
                            && generated_list[j].to_idx() == t && generated_list[j].spec_type() == ty;
                    let sub = moves@.subrange(0, n as int);
                    assert(sub.contains(generated_list[j]));
                    let k = choose|k: int| 0 <= k < sub.len() && sub[k] == generated_list[j];
                    assert(moves@[k] == generated_list[j]);
                    lemma_illegal(b0, moves@[k]);
                }
            }
            crate::search::minimax::lemma_no_reply(mb0, st0, b0.spec_history(), depth as nat, 0, old(ctx).spec_switches().0);
            lemma_value_of(b0, depth as nat, 0, old(ctx).spec_switches().0);
        }
        return Ok((None, terminal_score(board, 0)));
    }
    let bound = if best_score <= alpha {
        Bound::Upper
    } else if best_score >= beta {
        Bound::Lower
    } else {
        Bound::Exact
    };
    if ctx.use_table {
        tt.store(key, score_to_tt(best_score, 0), best_move, depth, bound);
    }
    proof {
        let m = best_move->0;
        assert(legal_move(mb0, st0, m.from_idx(), m.to_idx(), m.spec_type()));
        if ctx0.plain() {
            lemma_root_value(b0, m, best_score as int, moves@, generated_list, depth as nat, alpha as int, beta as int, old(ctx).spec_switches().0);
        }
    }
    Ok((best_move, best_score))
}


/// Searches one iteration, narrowly around the last one's score where that
/// is worth trying, and at full width otherwise. The narrow window is used
/// from [`ASPIRATION_MIN_DEPTH`] on and never around a mate score, and its
/// result is kept only when it lies strictly inside the window; any other
/// result is searched again at full width, so the score returned is exact.
fn aspirate(
    board: &mut Board,
    tt: &mut TranspositionTable,
    depth: u32,
    prev_score: Option<i32>,
    ctx: &mut Ctx,
) -> (r: Result<(Option<Move>, i32), Aborted>)
    requires
        old(board).wf(),
        playable(*old(board)),
        pawns_placed(old(board).spec_mailbox()),
        old(tt).wf(),
        old(ctx).wf(),
        1 <= depth <= MAX_DEPTH,
    ensures
        Board::same_position(*final(board), *old(board)),
        final(board).wf(),
        final(tt).wf(),
        old(ctx).same_run(final(ctx)),
        old(ctx).spec_iteration() == 1 ==> r is Ok,
        r matches Ok((_, s)) ==> -SCORE_LIMIT <= s <= SCORE_LIMIT,
        r matches Ok((Some(m), _)) ==> legal_move(
            old(board).spec_mailbox(),
            old(board).spec_state(),
            m.from_idx(),
            m.to_idx(),
            m.spec_type(),
        ),
        r matches Ok((m, _)) ==> (m is Some <==> has_legal_move(*old(board))),
        r matches Ok((None, s)) ==> s == terminal_value(*old(board), 0),
        r is Ok && has_legal_move(*old(board)) ==> final(ctx).spec_nodes() >= 1,
        r matches Ok((m, s)) ==> (old(ctx).plain() && -INFINITY < s < INFINITY ==> {
            &&& value_of(*old(board), depth as nat, 0, old(ctx).spec_switches().0) == s
            &&& m matches Some(mv) ==> reply_of(*old(board), mv, depth as nat, 0, old(ctx).spec_switches().0) == s
        }),
{
    let ghost b_in = *board;
    if let Some(score) = prev_score {
        if ctx.aspiration && depth >= ASPIRATION_MIN_DEPTH && -MATE_BOUND <= score && score <= MATE_BOUND {
            let alpha = score - ASPIRATION_DELTA;
            let beta = score + ASPIRATION_DELTA;
            let (best_move, found) = negamax_root(board, tt, depth, alpha, beta, ctx)?;
            if found > alpha && found < beta {
                return Ok((best_move, found));
            }
        }
    }
    proof {
        lemma_value_same(b_in, *board, depth as nat, 0, old(ctx).spec_switches().0);
    }
    negamax_root(board, tt, depth, -INFINITY, INFINITY, ctx)
}

/// `nodes` thousandfold over `per` milliseconds, rounded down.
pub open spec fn rate(nodes: u64, per: u128) -> int {
    (nodes as int * 1000) / (per as int)
}

/// What one iterative-deepening iteration found.
#[derive(Debug, Clone, Copy, PartialEq, Eq)]
pub struct Iteration {
    /// Depth this iteration completed.
    pub depth: u32,
    /// Score from the side to move's point of view, in centipawns, unless
    /// `mate_in` reads it as a distance to mate.
    pub score: i32,
    /// Nodes searched so far in this search, main plus quiescence.
    pub nodes: u64,
    /// Time since the search started.
    pub elapsed: Duration,
    /// Best move as of this iteration, absent only if the position has none.
    pub best_move: Option<Move>,
}

impl Iteration {
    /// Moves to mate if the score encodes one, negative when getting mated.
    pub fn mate_in(&self) -> (m: Option<i32>)
        requires
            self.score > i32::MIN,
        ensures
            m matches Some(v) ==> crate::search::mate_moves(self.score as int) == Some(v as int),
            m is None <==> crate::search::mate_moves(self.score as int) is None,
            -MATE <= self.score < -MATE_BOUND ==> m == Some((-((MATE + self.score + 1) / 2)) as i32),
            MATE_BOUND < self.score <= MATE ==> m == Some(((MATE - self.score + 1) / 2) as i32),
    {
        crate::search::mate_in(self.score)
    }

    /// Nodes per second, averaged over the search so far: the node count
    /// times 1000 over the elapsed milliseconds (at least 1).
    pub fn nps(&self) -> (r: u128)
        ensures
            exists|per: u128| per >= 1 && r == #[trigger] rate(self.nodes, per),
    {
        let ms = duration_millis(&self.elapsed);
        let per = if ms < 1 {
            1
        } else {
            ms
        };
        let r = (self.nodes as u128) * 1000 / per;
        assert(per >= 1 && r == rate(self.nodes, per));
        r
    }
}

/// Observes a search as it runs: the search reports what it found, and
/// rendering it is the caller's business.
pub trait SearchListener {
    /// Called once per completed iterative-deepening iteration.
    fn iteration(&mut self, iteration: &Iteration) {
    }

    /// Called once when the search stops, with its final answer.
    fn finished(&mut self, best_move: Option<Move>) {
    }
}

/// Discards everything, for searches whose result is read from the return
/// value alone.
impl SearchListener for () {

}

/// What a search found and how much work it took.
#[derive(Debug, Clone, Copy)]
pub struct SearchResult {
    /// The best move of the last completed iteration.
    pub best_move: Option<Move>,
    /// Main-search nodes, excluding quiescence.
    pub nodes: u64,
    /// Quiescence nodes.
    pub qnodes: u64,
}

/// Searches the position by iterative deepening, one more ply per
/// iteration, until the depth limit, the clock, the node budget or the stop
/// flag ends it, and reports each completed iteration to `listener`. The
/// first iteration always completes; an iteration cut short is discarded.
/// `lmr` is the late-move reduction table by depth, then move number. The
/// deepest iteration is [`MAX_DEPTH`].
pub fn search_inner<L: SearchListener>(
    board: &mut Board,
    limits: Limits,
    stop: &AtomicBool,
    tt: &mut TranspositionTable,
    lmr: &[[u8; 64]; 64],
    listener: &mut L,
) -> (r: SearchResult)
    requires
        old(board).wf(),
        playable(*old(board)),
        pawns_placed(old(board).spec_mailbox()),
        old(tt).wf(),
    ensures
        Board::same_position(*final(board), *old(board)),
        final(board).wf(),
        final(tt).wf(),
        r.best_move matches Some(m) ==> legal_move(
            old(board).spec_mailbox(),
            old(board).spec_state(),
            m.from_idx(),
            m.to_idx(),
            m.spec_type(),
        ),
        r.best_move is Some <==> has_legal_move(*old(board)),
        has_legal_move(*old(board)) ==> r.nodes >= 1,
{
    let ghost b0 = *board;
    let start = instant_now();
    let deadline = crate::search::time_budget(board, limits);
    tt.new_search();
    let mut ctx = Ctx::new(limits, stop, start, deadline, lmr);
    let max_depth: u32 = match limits.depth {
        Some(d) => if d < 1 {
            1
        } else if d > MAX_DEPTH {
            MAX_DEPTH
        } else {
            d
        },
        None => MAX_DEPTH,
    };
    let mut best_move: Option<Move> = None;
    let mut prev_score: Option<i32> = None;
    let mut depth: u32 = 1;
    while depth <= max_depth
        invariant
            1 <= depth <= MAX_DEPTH + 1,
            max_depth <= MAX_DEPTH,
            b0 == *old(board),
            b0.wf(),
            playable(b0),
            pawns_placed(b0.spec_mailbox()),
            Board::same_position(*board, b0),
            board.wf(),
            tt.wf(),
            ctx.wf(),
            prev_score matches Some(s) ==> -SCORE_LIMIT <= s <= SCORE_LIMIT,
            best_move matches Some(m) ==> legal_move(
                b0.spec_mailbox(),
                b0.spec_state(),
                m.from_idx(),
                m.to_idx(),
                m.spec_type(),
            ),
            !has_legal_move(b0) ==> best_move is None,
            depth > 1 ==> (has_legal_move(b0) ==> best_move is Some),
            depth > 1 ==> (has_legal_move(b0) ==> ctx.spec_nodes() >= 1),
            1 <= max_depth,
        ensures
            best_move is Some <==> has_legal_move(b0),
            has_legal_move(b0) ==> ctx.spec_nodes() >= 1,
        decreases MAX_DEPTH + 1 - depth,
    {
        if depth > 1 && ctx.out_of_time() {
            break;
        }
        ctx.set_iteration(depth);
        let result = aspirate(board, tt, depth, prev_score, &mut ctx);
        let (candidate, score) = match result {
            Ok(found) => found,
            Err(_) => {
                break;
            },
        };
        proof {
            if let Some(m) = candidate {
                assert(legal_move(b0.spec_mailbox(), b0.spec_state(), m.from_idx(), m.to_idx(), m.spec_type()));
            }
        }
        prev_score = Some(score);
        best_move = candidate;
        let elapsed = elapsed_since(&start);
        listener.iteration(
            &Iteration { depth, score, nodes: ctx.total(), elapsed, best_move: candidate },
        );
        if candidate.is_none() {
            break;
        }
        depth = depth + 1;
    }
    listener.finished(best_move);
    SearchResult { best_move, nodes: ctx.nodes(), qnodes: ctx.qnodes() }
}

/// Searches the position and returns the best move found, reporting each
/// iteration to `listener` (see [`search_inner`]).
pub fn search<L: SearchListener>(
    board: &mut Board,
    limits: Limits,
    stop: &AtomicBool,
    tt: &mut TranspositionTable,
    lmr: &[[u8; 64]; 64],
    listener: &mut L,
) -> (m: Option<Move>)
    requires
        old(board).wf(),
        playable(*old(board)),
        pawns_placed(old(board).spec_mailbox()),
        old(tt).wf(),
    ensures
        Board::same_position(*final(board), *old(board)),
        final(board).wf(),
        final(tt).wf(),
        m matches Some(mv) ==> legal_move(
            old(board).spec_mailbox(),
            old(board).spec_state(),
            mv.from_idx(),
            mv.to_idx(),
            mv.spec_type(),
        ),
        m is Some <==> has_legal_move(*old(board)),
{
    search_inner(board, limits, stop, tt, lmr, listener).best_move
}

} // verus!
