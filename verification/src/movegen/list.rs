//! The move list the generators fill.
use vstd::prelude::*;
use crate::board::{Move, MoveType};

verus! {

broadcast use vstd::std_specs::vec::group_vec_axioms;

/// The most moves a list holds, against a measured pseudo-legal maximum of
/// 218 moves in one position.
pub const CAPACITY: usize = 255;

/// A list of chess moves in the order they were generated.
pub struct MoveList {
    moves: Vec<Move>,
}

impl View for MoveList {
    type V = Seq<Move>;

    closed spec fn view(&self) -> Seq<Move> {
        self.moves@
    }
}

/// `s[lo..hi]` holds a move from `f` to `t` of type `ty`.
pub open spec fn holds_move(s: Seq<Move>, lo: int, hi: int, f: int, t: int, ty: MoveType) -> bool {
    exists|j: int|
        lo <= j < hi && #[trigger] s[j].from_idx() == f && s[j].to_idx() == t && s[j].spec_type()
            == ty
}

/// `a` and `b` have the same origin, destination and type.
pub open spec fn same_move(a: Move, b: Move) -> bool {
    a.from_idx() == b.from_idx() && a.to_idx() == b.to_idx() && a.spec_type() == b.spec_type()
}

/// No move of `s` from index `lo` on is repeated there.
pub open spec fn no_repeats(s: Seq<Move>, lo: int) -> bool {
    forall|i: int, j: int| lo <= i < j < s.len() ==> !same_move(#[trigger] s[i], #[trigger] s[j])
}

/// Joining two stretches without repeats, none of whose moves recur in the
/// other, gives a stretch without repeats.
pub proof fn lemma_no_repeats_join(a: Seq<Move>, b: Seq<Move>, lo: int)
    requires
        0 <= lo <= a.len() <= b.len(),
        b.subrange(0, a.len() as int) == a,
        no_repeats(a, lo),
        no_repeats(b, a.len() as int),
        forall|i: int, j: int|
            lo <= i < a.len() <= j < b.len() ==> !same_move(#[trigger] b[i], #[trigger] b[j]),
    ensures
        no_repeats(b, lo),
{
    assert forall|i: int, j: int| lo <= i < j < b.len() implies !same_move(#[trigger] b[i], #[trigger] b[j]) by {
        if j < a.len() {
            assert(b[i] == a[i]);
            assert(b[j] == a[j]);
        }
    }
}

/// Appending a move that does not occur in a stretch without repeats keeps
/// it without repeats.
pub proof fn lemma_no_repeats_push(a: Seq<Move>, m: Move, lo: int)
    requires
        0 <= lo,
        no_repeats(a, lo),
        forall|i: int| lo <= i < a.len() ==> !same_move(#[trigger] a[i], m),
    ensures
        no_repeats(a.push(m), lo),
{
    let b = a.push(m);
    assert forall|i: int, j: int| lo <= i < j < b.len() implies !same_move(#[trigger] b[i], #[trigger] b[j]) by {
        assert(b[i] == a[i]);
        if j < a.len() {
            assert(b[j] == a[j]);
        }
    }
}

/// `new` is `old` with moves appended, and the appended moves are exactly
/// those `(from, to, type)` triples that `p` admits, each once.
pub open spec fn extends_with(
    old: Seq<Move>,
    new: Seq<Move>,
    p: spec_fn(int, int, MoveType) -> bool,
) -> bool {
    &&& no_repeats(new, old.len() as int)
    &&& old.len() <= new.len()
    &&& new.subrange(0, old.len() as int) == old
    &&& forall|j: int|
        #![trigger new[j]]
        old.len() <= j < new.len() ==> p(new[j].from_idx(), new[j].to_idx(), new[j].spec_type())
    &&& forall|f: int, t: int, ty: MoveType|
        #![trigger holds_move(new, old.len() as int, new.len() as int, f, t, ty)]
        p(f, t, ty) ==> holds_move(new, old.len() as int, new.len() as int, f, t, ty)
}

/// Appending twice appends what either step admits, when no move is
/// admitted by both.
pub proof fn lemma_extends_trans(
    a: Seq<Move>,
    b: Seq<Move>,
    c: Seq<Move>,
    p: spec_fn(int, int, MoveType) -> bool,
    q: spec_fn(int, int, MoveType) -> bool,
)
    requires
        extends_with(a, b, p),
        extends_with(b, c, q),
        forall|f: int, t: int, ty: MoveType| #[trigger] p(f, t, ty) ==> !q(f, t, ty),
    ensures
        extends_with(a, c, |f: int, t: int, ty: MoveType| p(f, t, ty) || q(f, t, ty)),
{
    let r = |f: int, t: int, ty: MoveType| p(f, t, ty) || q(f, t, ty);
    assert forall|i: int, j: int| a.len() <= i < b.len() <= j < c.len() implies !same_move(
        #[trigger] c[i],
        #[trigger] c[j],
    ) by {
        assert(c[i] == c.subrange(0, b.len() as int)[i]);
        assert(p(b[i].from_idx(), b[i].to_idx(), b[i].spec_type()));
        assert(q(c[j].from_idx(), c[j].to_idx(), c[j].spec_type()));
    }
    assert(c.subrange(0, b.len() as int).subrange(0, a.len() as int) =~= c.subrange(0, a.len() as int));
    lemma_no_repeats_join(b, c, a.len() as int);
    assert(c.subrange(0, a.len() as int) =~= a) by {
        assert(c.subrange(0, a.len() as int) =~= c.subrange(0, b.len() as int).subrange(
            0,
            a.len() as int,
        ));
    }
    assert forall|j: int| #![trigger c[j]] a.len() <= j < c.len() implies r(
        c[j].from_idx(),
        c[j].to_idx(),
        c[j].spec_type(),
    ) by {
        if j < b.len() {
            assert(c[j] == c.subrange(0, b.len() as int)[j]);
            assert(p(b[j].from_idx(), b[j].to_idx(), b[j].spec_type()));
        } else {
            assert(q(c[j].from_idx(), c[j].to_idx(), c[j].spec_type()));
        }
    }
    assert forall|f: int, t: int, ty: MoveType| r(f, t, ty) implies #[trigger] holds_move(
        c,
        a.len() as int,
        c.len() as int,
        f,
        t,
        ty,
    ) by {
        if p(f, t, ty) {
            assert(holds_move(b, a.len() as int, b.len() as int, f, t, ty));
            let j = choose|j: int|
                a.len() <= j < b.len() && #[trigger] b[j].from_idx() == f && b[j].to_idx() == t
                    && b[j].spec_type() == ty;
            assert(c[j] == c.subrange(0, b.len() as int)[j]);
            assert(c[j].from_idx() == f);
        } else {
            assert(q(f, t, ty));
            assert(holds_move(c, b.len() as int, c.len() as int, f, t, ty));
        }
    }
}

/// Appending nothing admits nothing.
pub proof fn lemma_extends_refl(a: Seq<Move>, p: spec_fn(int, int, MoveType) -> bool)
    requires
        forall|f: int, t: int, ty: MoveType| !#[trigger] p(f, t, ty),
    ensures
        extends_with(a, a, p),
{
    assert(a.subrange(0, a.len() as int) =~= a);
}

/// A move found in a list is still found once more moves are appended.
pub proof fn lemma_holds_extend(a: Seq<Move>, b: Seq<Move>, lo: int, f: int, t: int, ty: MoveType)
    requires
        0 <= lo,
        holds_move(a, lo, a.len() as int, f, t, ty),
        a.len() <= b.len(),
        b.subrange(0, a.len() as int) == a,
    ensures
        holds_move(b, lo, b.len() as int, f, t, ty),
{
    let j = choose|j: int|
        lo <= j < a.len() && #[trigger] a[j].from_idx() == f && a[j].to_idx() == t && a[j].spec_type()
            == ty;
    assert(b[j] == b.subrange(0, a.len() as int)[j]);
    assert(b[j].from_idx() == f);
}

/// What an extension admits may be restated by any equivalent condition.
pub proof fn lemma_extends_equiv(
    a: Seq<Move>,
    b: Seq<Move>,
    p: spec_fn(int, int, MoveType) -> bool,
    q: spec_fn(int, int, MoveType) -> bool,
)
    requires
        extends_with(a, b, p),
        forall|f: int, t: int, ty: MoveType| #[trigger] p(f, t, ty) == q(f, t, ty),
    ensures
        extends_with(a, b, q),
{
    assert forall|j: int| #![trigger b[j]] a.len() <= j < b.len() implies q(
        b[j].from_idx(),
        b[j].to_idx(),
        b[j].spec_type(),
    ) by {
        assert(p(b[j].from_idx(), b[j].to_idx(), b[j].spec_type()));
    }
    assert forall|f: int, t: int, ty: MoveType| q(f, t, ty) implies #[trigger] holds_move(
        b,
        a.len() as int,
        b.len() as int,
        f,
        t,
        ty,
    ) by {
        assert(p(f, t, ty));
    }
}

impl MoveList {
    /// Returns an empty move list.
    pub fn new() -> (l: MoveList)
        ensures
            l@ == Seq::<Move>::empty(),
    {
        MoveList { moves: Vec::new() }
    }

    /// Appends a move.
    pub fn push(&mut self, mv: Move)
        ensures
            final(self)@ == old(self)@.push(mv),
    {
        self.moves.push(mv);
    }

    /// Empties the list.
    pub fn clear(&mut self)
        ensures
            final(self)@ == Seq::<Move>::empty(),
    {
        self.moves.clear();
    }

    /// Returns the number of moves.
    pub fn len(&self) -> (n: usize)
        ensures
            n == self@.len(),
    {
        self.moves.len()
    }

    /// Returns whether the list is empty.
    pub fn is_empty(&self) -> (b: bool)
        ensures
            b == (self@.len() == 0),
    {
        self.moves.len() == 0
    }

    /// Returns the move at `index`.
    pub fn get(&self, index: usize) -> (m: Move)
        requires
            index < self@.len(),
        ensures
            m == self@[index as int],
    {
        self.moves[index]
    }

    /// The moves, in order.
    pub fn as_slice(&self) -> (s: &[Move])
        ensures
            s@ == self@,
    {
        self.moves.as_slice()
    }

    /// Exchanges the moves at `i` and `j`, for reordering in place.
    pub fn swap(&mut self, i: usize, j: usize)
        requires
            i < old(self)@.len(),
            j < old(self)@.len(),
        ensures
            final(self)@ == old(self)@.update(i as int, old(self)@[j as int]).update(
                j as int,
                old(self)@[i as int],
            ),
    {
        let a = self.moves[i];
        let b = self.moves[j];
        self.moves.set(i, b);
        self.moves.set(j, a);
    }
}

} // verus!
