use vstd::prelude::*;

use crate::board::{lemma_capture, opposite, Board, Color, GamePiece};
use crate::rules::{legal_moves, Movement, MovementType};

verus! {

/// A square, by row and column.
#[derive(Debug, Clone, Copy, PartialEq, Eq, Hash, Structural)]
pub struct Position {
    pub row: usize,
    pub col: usize,
}

/// A move of the piece on `from` to `to`.
#[derive(Debug, Clone, Copy, PartialEq, Eq, Hash, Structural)]
pub struct Move {
    pub from: Position,
    pub to: Position,
}

/// The side to move has no legal move.
#[derive(Debug)]
pub struct NoMoreMoves;

/// A registered move was never explored from the position it was played in.
#[derive(Debug)]
pub struct InvalidMove;

/// One explored position: its board, and for each move explored from it the position that
/// move leads to, in the order the moves were first explored.
pub struct PredictionCache {
    pub board: Board,
    pub branches: Vec<(Move, PredictionCache)>,
}

/// Chooses moves for one side by looking ahead, keeping what it explored for later turns.
pub struct Predictor {
    depth: u8,
    color: Color,
    cache: PredictionCache,
}

/// The move of the piece `g` by the movement `m`.
pub open spec fn move_of(g: GamePiece, m: Movement) -> Move {
    Move { from: Position { row: g.row, col: g.col }, to: Position { row: m.row, col: m.col } }
}

/// The board after `m`.
pub open spec fn applied(b: Board, m: Move) -> Board {
    b.moved(m.from.row as int, m.from.col as int, m.to.row as int, m.to.col as int)
}

/// The moves of the piece `g` with their kinds, in the order of its legal movements.
pub open spec fn piece_moves(b: Board, g: GamePiece) -> Seq<(Move, MovementType)> {
    legal_moves(b, g.row as int, g.col as int).map_values(
        |m: Movement| (move_of(g, m), m.movement_type),
    )
}

/// The moves of the pieces `ps`, piece by piece.
pub open spec fn moves_of_pieces(b: Board, ps: Seq<GamePiece>) -> Seq<(Move, MovementType)>
    decreases ps.len(),
{
    if ps.len() == 0 {
        Seq::empty()
    } else {
        moves_of_pieces(b, ps.drop_last()) + piece_moves(b, ps.last())
    }
}

/// Every move that `color` may play on `b`, with its kind: the movements of each movable
/// piece, piece by piece in board order.
pub open spec fn enumerated(b: Board, color: Color) -> Seq<(Move, MovementType)> {
    moves_of_pieces(b, b.movable_spec(color))
}

/// The moves under which the branches `bs` stand, in order.
pub open spec fn keys(bs: Seq<(Move, PredictionCache)>) -> Seq<Move> {
    bs.map_values(|e: (Move, PredictionCache)| e.0)
}

/// The keys `ks` followed by each move of `es` that is not yet among them, in order.
pub open spec fn with_keys(ks: Seq<Move>, es: Seq<(Move, MovementType)>) -> Seq<Move>
    decreases es.len(),
{
    if es.len() == 0 {
        ks
    } else {
        let prev = with_keys(ks, es.drop_last());
        if prev.contains(es.last().0) {
            prev
        } else {
            prev.push(es.last().0)
        }
    }
}

/// The kind that `es` first gives to `m`.
pub open spec fn kind_in(es: Seq<(Move, MovementType)>, m: Move) -> Option<MovementType>
    decreases es.len(),
{
    if es.len() == 0 {
        None
    } else {
        match kind_in(es.drop_last(), m) {
            Some(k) => Some(k),
            None => if es.last().0 == m {
                Some(es.last().1)
            } else {
                None
            },
        }
    }
}

/// Who moves next and how many plies are left after a move of `kind`: a capture keeps the
/// turn and the budget, a step passes the turn and spends one ply.
pub open spec fn next_turn(color: Color, ply: nat, kind: MovementType) -> (Color, nat) {
    match kind {
        MovementType::Free => (opposite(color), if ply > 0 {
            (ply - 1) as nat
        } else {
            0
        }),
        MovementType::Forced => (color, ply),
    }
}

/// `n` is the tree that the search makes from the position `board`, whose explored moves
/// were `old_branches`, with `ply` plies left and `color` to move: every move of `color`
/// gets a branch (new ones after the old, in the order of `enumerated`), and each branch of
/// such a move is searched further while plies are left. Other branches stay as they were.
pub open spec fn expanded(
    board: Board,
    old_branches: Seq<(Move, PredictionCache)>,
    n: PredictionCache,
    ply: nat,
    color: Color,
) -> bool
    decreases n, 0int,
{
    let es = enumerated(board, color);
    &&& n.board == board
    &&& keys(n.branches@) == with_keys(keys(old_branches), es)
    &&& forall|i: int|
        0 <= i < n.branches@.len() ==> {
            let m = (#[trigger] n.branches@[i]).0;
            let cb = if i < old_branches.len() {
                old_branches[i].1.board
            } else {
                applied(board, m)
            };
            let cbr = if i < old_branches.len() {
                old_branches[i].1.branches@
            } else {
                Seq::empty()
            };
            searched(es, color, ply, m, cb, cbr, n.branches@[i].1)
        }
}

/// `c` is what the search makes of the branch for `m`, whose position was `cb` with the
/// explored moves `cbr`: it is searched further when `m` is among the moves `es` of
/// `color` and a ply is left after it, and stays as it was otherwise.
pub open spec fn searched(
    es: Seq<(Move, MovementType)>,
    color: Color,
    ply: nat,
    m: Move,
    cb: Board,
    cbr: Seq<(Move, PredictionCache)>,
    c: PredictionCache,
) -> bool
    decreases c, 1int,
{
    let kind = kind_in(es, m);
    if kind is Some && next_turn(color, ply, kind->Some_0).1 > 0 {
        expanded(
            cb,
            cbr,
            c,
            next_turn(color, ply, kind->Some_0).1,
            next_turn(color, ply, kind->Some_0).0,
        )
    } else {
        c.board == cb && c.branches@ == cbr
    }
}

/// The score of a position that was not explored further: the number of pieces of `color`,
/// or zero when `color` has no legal move there.
pub open spec fn leaf_score(b: Board, color: Color) -> int {
    if b.movable_spec(color).len() > 0 {
        b.pieces_spec(color).len() as int
    } else {
        0
    }
}

/// The largest element, zero for none.
pub open spec fn max_of(s: Seq<int>) -> int
    decreases s.len(),
{
    if s.len() == 0 {
        0
    } else {
        let m = max_of(s.drop_last());
        if s.last() > m {
            s.last()
        } else {
            m
        }
    }
}

/// Whether `s[i]` is the first of the largest elements of `s`.
pub open spec fn is_first_best(s: Seq<int>, i: int) -> bool {
    &&& 0 <= i < s.len()
    &&& forall|j: int| 0 <= j < s.len() ==> s[j] <= s[i]
    &&& forall|j: int| 0 <= j < i ==> s[j] < s[i]
}

impl PredictionCache {
    /// Every branch holds the board that its move leads to.
    pub open spec fn wf(self) -> bool
        decreases self,
    {
        forall|i: int|
            0 <= i < self.branches@.len() ==> {
                &&& (#[trigger] self.branches@[i]).1.board == applied(self.board, self.branches@[i].0)
                &&& self.branches@[i].1.wf()
            }
    }

    /// The best score for `color` over the explored lines: the largest score of a branch,
    /// and at an unexplored position its `leaf_score`.
    pub open spec fn score(self, color: Color) -> int
        decreases self, 1int,
    {
        if self.branches@.len() == 0 {
            leaf_score(self.board, color)
        } else {
            max_of(self.branch_scores(color))
        }
    }

    /// The scores of the branches, in order.
    pub open spec fn branch_scores(self, color: Color) -> Seq<int>
        decreases self, 0int,
    {
        Seq::new(
            self.branches@.len(),
            |i: int|
                if 0 <= i < self.branches@.len() {
                    self.branches@[i].1.score(color)
                } else {
                    0
                },
        )
    }

    /// The position reached by the first branch of `m`, if any.
    pub open spec fn branch(self, m: Move) -> Option<PredictionCache> {
        let ks = keys(self.branches@);
        if ks.contains(m) {
            Some(self.branches@[first_index(ks, m)].1)
        } else {
            None
        }
    }

    pub fn new(board: Board) -> (r: PredictionCache)
        ensures
            r.board == board,
            r.branches@ == Seq::<(Move, PredictionCache)>::empty(),
            r.wf(),
    {
        PredictionCache { board, branches: Vec::new() }
    }

    /// Whether a branch for `m` was explored.
    fn has_branch(&self, m: &Move) -> (r: bool)
        ensures
            r == keys(self.branches@).contains(*m),
    {
        let mut i: usize = 0;
        while i < self.branches.len()
            invariant
                i <= self.branches@.len(),
                forall|j: int| 0 <= j < i ==> (#[trigger] self.branches@[j]).0 != *m,
            decreases self.branches@.len() - i,
        {
            if self.branches[i].0 == *m {
                assert(keys(self.branches@)[i as int] == *m);
                return true;
            }
            i = i + 1;
        }
        proof {
            if keys(self.branches@).contains(*m) {
                let j = choose|j: int| 0 <= j < keys(self.branches@).len() && keys(self.branches@)[j] == *m;
                assert(self.branches@[j].0 == *m);
            }
        }
        false
    }

    /// The index of the first branch for `m`, if any.
    fn find_branch(&self, m: &Move) -> (r: Option<usize>)
        ensures
            r is Some <==> keys(self.branches@).contains(*m),
            r matches Some(i) ==> i < self.branches@.len() && self.branches@[i as int].0 == *m
                && i == first_index(
                keys(self.branches@),
                *m,
            ),
    {
        let ghost ks = keys(self.branches@);
        let mut i: usize = 0;
        while i < self.branches.len()
            invariant
                i <= self.branches@.len(),
                ks == keys(self.branches@),
                forall|j: int| 0 <= j < i ==> (#[trigger] ks[j]) != *m,
            decreases self.branches@.len() - i,
        {
            if self.branches[i].0 == *m {
                proof {
                    assert(ks[i as int] == *m);
                    lemma_first_index(ks, *m, i as int);
                }
                return Some(i);
            }
            i = i + 1;
        }
        None
    }

    /// Search from this position with `ply` plies left and `color` to move: give every
    /// move of `color` a branch, and search on in each while plies are left. A capture keeps
    /// the turn and does not spend a ply; branches explored before are reused. The branches
    /// are added first and then searched one by one, which makes the same tree as searching
    /// each as it is added, since no move is listed twice and branches do not share state.
    fn calculate_moves(&mut self, ply: u32, color: Color)
        requires
            old(self).wf(),
            ply >= 1,
        ensures
            final(self).wf(),
            expanded(old(self).board, old(self).branches@, *final(self), ply as nat, color),
        decreases ply, old(self).board.all_pieces_spec().len(),
    {
        let ghost old_branches = self.branches@;
        let board = self.board;
        let pieces = board.get_movable_pieces(color);
        let mut en: Vec<(Move, MovementType)> = Vec::new();
        let mut i: usize = 0;
        while i < pieces.len()
            invariant
                self.board == board,
                board == old(self).board,
                old_branches == old(self).branches@,
                old(self).wf(),
                pieces@ == board.movable_spec(color),
                i <= pieces@.len(),
                en@ == moves_of_pieces(board, pieces@.take(i as int)),
                keys(self.branches@) == with_keys(keys(old_branches), en@),
                self.branches@.len() >= old_branches.len(),
                forall|k: int| 0 <= k < old_branches.len() ==> #[trigger] self.branches@[k] == old_branches[k],
                forall|k: int|
                    old_branches.len() <= k < self.branches@.len() ==> {
                        &&& (#[trigger] self.branches@[k]).1.board == applied(board, self.branches@[k].0)
                        &&& self.branches@[k].1.branches@ == Seq::<(Move, PredictionCache)>::empty()
                    },
                forall|t: int|
                    0 <= t < en@.len() ==> legal_moves(
                        board,
                        (#[trigger] en@[t]).0.from.row as int,
                        en@[t].0.from.col as int,
                    ).contains(
                        Movement {
                            movement_type: en@[t].1,
                            row: en@[t].0.to.row,
                            col: en@[t].0.to.col,
                        },
                    ),
            decreases pieces@.len() - i,
        {
            let piece = pieces[i];
            let movements = board.moves_for(piece.row, piece.col);
            let ghost before = en@;
            let mut j: usize = 0;
            while j < movements.len()
                invariant
                    self.board == board,
                    board == old(self).board,
                    old_branches == old(self).branches@,
                    old(self).wf(),
                    movements@ == legal_moves(board, piece.row as int, piece.col as int),
                    j <= movements@.len(),
                    en@ == before + piece_moves(board, piece).take(j as int),
                    keys(self.branches@) == with_keys(keys(old_branches), en@),
                    self.branches@.len() >= old_branches.len(),
                    forall|k: int| 0 <= k < old_branches.len() ==> #[trigger] self.branches@[k] == old_branches[k],
                    forall|k: int|
                        old_branches.len() <= k < self.branches@.len() ==> {
                            &&& (#[trigger] self.branches@[k]).1.board == applied(board, self.branches@[k].0)
                            &&& self.branches@[k].1.branches@ == Seq::<(Move, PredictionCache)>::empty()
                        },
                    forall|t: int|
                        0 <= t < en@.len() ==> legal_moves(
                            board,
                            (#[trigger] en@[t]).0.from.row as int,
                            en@[t].0.from.col as int,
                        ).contains(
                            Movement {
                                movement_type: en@[t].1,
                                row: en@[t].0.to.row,
                                col: en@[t].0.to.col,
                            },
                        ),
                decreases movements@.len() - j,
            {
                let movement = movements[j];
                let mv = Move {
                    from: Position { row: piece.row, col: piece.col },
                    to: Position { row: movement.row, col: movement.col },
                };
                let ghost bs = self.branches@;
                if !self.has_branch(&mv) {
                    proof {
                        assert(movements@[j as int] == movement);
                    }
                    match board.make_move(piece.row, piece.col, movement.row, movement.col) {
                        Ok(child) => {
                            self.branches.push((mv, PredictionCache::new(child)));
                            assert(keys(self.branches@) =~= keys(bs).push(mv));
                        },
                        // A listed movement is legal, so the move cannot fail.
                        Err(_) => {},
                    }
                }
                assert(piece_moves(board, piece)[j as int] == (mv, movement.movement_type));
                en.push((mv, movement.movement_type));
                proof {
                    assert(piece_moves(board, piece).take(j + 1) =~= piece_moves(board, piece).take(
                        j as int,
                    ).push((mv, movement.movement_type)));
                    assert(en@.drop_last() =~= before + piece_moves(board, piece).take(j as int));
                    assert(movements@.contains(movement));
                }
                j = j + 1;
            }
            proof {
                assert(piece_moves(board, piece).take(movements@.len() as int) =~= piece_moves(board, piece));
                assert(pieces@.take(i + 1).drop_last() =~= pieces@.take(i as int));
            }
            i = i + 1;
        }
        assert(pieces@.take(pieces@.len() as int) =~= pieces@);
        let ghost bs1 = self.branches@;
        let ghost es = en@;
        let mut k: usize = 0;
        while k < self.branches.len()
            invariant
                self.board == board,
                board == old(self).board,
                old_branches == old(self).branches@,
                ply >= 1,
                es == en@,
                es == enumerated(board, color),
                self.branches@.len() == bs1.len(),
                k <= bs1.len(),
                forall|idx: int| 0 <= idx < bs1.len() ==> (#[trigger] self.branches@[idx]).0 == bs1[idx].0,
                forall|idx: int| k <= idx < bs1.len() ==> #[trigger] self.branches@[idx] == bs1[idx],
                forall|idx: int|
                    0 <= idx < bs1.len() ==> (#[trigger] bs1[idx]).1.wf() && bs1[idx].1.board == applied(
                        board,
                        bs1[idx].0,
                    ),
                forall|idx: int|
                    0 <= idx < k ==> (#[trigger] self.branches@[idx]).1.wf() && searched(
                        es,
                        color,
                        ply as nat,
                        bs1[idx].0,
                        bs1[idx].1.board,
                        bs1[idx].1.branches@,
                        self.branches@[idx].1,
                    ),
                forall|t: int|
                    0 <= t < es.len() ==> legal_moves(
                        board,
                        (#[trigger] es[t]).0.from.row as int,
                        es[t].0.from.col as int,
                    ).contains(
                        Movement { movement_type: es[t].1, row: es[t].0.to.row, col: es[t].0.to.col },
                    ),
            decreases bs1.len() - k,
        {
            let mv = self.branches[k].0;
            let kind = find_kind(&en, &mv);
            let ghost bs = self.branches@;
            match kind {
                Some(kd) => {
                    let (next_color, next_ply) = match kd {
                        MovementType::Free => (
                            match color {
                                Color::White => Color::Black,
                                Color::Black => Color::White,
                            },
                            ply - 1,
                        ),
                        MovementType::Forced => (color, ply),
                    };
                    if next_ply > 0 {
                        proof {
                            if kd == MovementType::Forced {
                                let t = lemma_kind_in(es, mv);
                                lemma_capture(
                                    board,
                                    mv.from.row as int,
                                    mv.from.col as int,
                                    Movement { movement_type: kd, row: mv.to.row, col: mv.to.col },
                                );
                            }
                        }
                        self.branches[k].1.calculate_moves(next_ply, next_color);
                    }
                },
                None => {},
            }
            assert(self.branches@[k as int].1.wf());
            k = k + 1;
        }
        proof {
            assert forall|idx: int| 0 <= idx < self.branches@.len() implies
                (#[trigger] self.branches@[idx]).1.board == applied(self.board, self.branches@[idx].0)
                && self.branches@[idx].1.wf() by {
                assert(searched(es, color, ply as nat, bs1[idx].0, bs1[idx].1.board, bs1[idx].1.branches@, self.branches@[idx].1));
            }
            assert(keys(self.branches@) =~= keys(bs1));
        }
    }

    /// The score of this position for `color`.
    fn get_score(&self, color: Color) -> (r: usize)
        ensures
            r == self.score(color),
        decreases self,
    {
        if self.branches.len() > 0 {
            let ghost scores = self.branch_scores(color);
            let mut best: usize = 0;
            let mut i: usize = 0;
            while i < self.branches.len()
                invariant
                    i <= self.branches@.len(),
                    scores.len() == self.branches@.len(),
                    forall|j: int| 0 <= j < scores.len() ==> #[trigger] scores[j] == self.branches@[j].1.score(color),
                    best == max_of(scores.take(i as int)),
                decreases self.branches@.len() - i,
            {
                let s = self.branches[i].1.get_score(color);
                assert(scores.take(i + 1).drop_last() =~= scores.take(i as int));
                if s > best {
                    best = s;
                }
                i = i + 1;
            }
            assert(scores.take(scores.len() as int) =~= scores);
            best
        } else {
            if self.board.get_movable_pieces(color).len() > 0 {
                self.board.pieces(color).len()
            } else {
                0
            }
        }
    }
}

impl Predictor {
    /// The explored tree, rooted at the current position.
    pub closed spec fn root(&self) -> PredictionCache {
        self.cache
    }

    /// The number of two-ply exchanges looked ahead.
    pub closed spec fn look_ahead(&self) -> nat {
        self.depth as nat
    }

    /// The side the predictor plays.
    pub closed spec fn side(&self) -> Color {
        self.color
    }

    /// The look-ahead is at least one exchange and the tree is well formed.
    pub closed spec fn wf(&self) -> bool {
        self.depth >= 1 && self.cache.wf()
    }

    /// The plies searched from the root: `2 * look_ahead - 1`.
    pub open spec fn plies(&self) -> nat {
        (2 * self.look_ahead() - 1) as nat
    }

    /// A predictor for `color` on `board` that looks `depth` exchanges ahead.
    pub fn new(board: Board, depth: u8, color: Color) -> (p: Predictor)
        requires
            depth >= 1,
        ensures
            p.wf(),
            p.root().board == board,
            p.root().branches@.len() == 0,
            p.look_ahead() == depth,
            p.side() == color,
    {
        Predictor { depth, color, cache: PredictionCache::new(board) }
    }

    /// Search `2 * depth - 1` plies ahead from the current position and return the move
    /// whose branch has the best score for the predictor's side, the first such in branch
    /// order. Fails when the side has no move.
    pub fn get_next_move(&mut self) -> (r: Result<Move, NoMoreMoves>)
        requires
            old(self).wf(),
        ensures
            final(self).wf(),
            final(self).look_ahead() == old(self).look_ahead(),
            final(self).side() == old(self).side(),
            expanded(
                old(self).root().board,
                old(self).root().branches@,
                final(self).root(),
                old(self).plies(),
                old(self).side(),
            ),
            r is Err <==> final(self).root().branches@.len() == 0,
            r is Err <==> old(self).root().branches@.len() == 0 && enumerated(
                old(self).root().board,
                old(self).side(),
            ).len() == 0,
            r matches Ok(m) ==> exists|i: int|
                is_first_best(final(self).root().branch_scores(old(self).side()), i)
                    && m == final(self).root().branches@[i].0,
    {
        let ply: u32 = 2 * (self.depth as u32) - 1;
        self.cache.calculate_moves(ply, self.color);
        let n = self.cache.branches.len();
        proof {
            let es = enumerated(self.cache.board, self.color);
            lemma_with_keys_prefix(keys(old(self).cache.branches@), es);
            if es.len() > 0 {
                lemma_with_keys_contains(keys(old(self).cache.branches@), es, 0);
            }
        }
        if n == 0 {
            return Err(NoMoreMoves);
        }
        let ghost scores = self.cache.branch_scores(self.color);
        let mut best: usize = 0;
        let mut best_score = self.cache.branches[0].1.get_score(self.color);
        let mut i: usize = 1;
        while i < n
            invariant
                n == self.cache.branches@.len(),
                scores == self.cache.branch_scores(self.color),
                1 <= i <= n,
                best < i,
                best_score == scores[best as int],
                forall|j: int| 0 <= j < i ==> scores[j] <= best_score,
                forall|j: int| 0 <= j < best ==> scores[j] < best_score,
            decreases n - i,
        {
            let s = self.cache.branches[i].1.get_score(self.color);
            if s > best_score {
                best = i;
                best_score = s;
            }
            i = i + 1;
        }
        assert(is_first_best(scores, best as int));
        let m = self.cache.branches[best].0;
        assert(is_first_best(self.cache.branch_scores(self.color), best as int)
            && m == self.cache.branches@[best as int].0);
        assert(self.root() == self.cache);
        assert(self.side() == self.color);
        assert(is_first_best(self.root().branch_scores(self.side()), best as int));
        Ok(m)
    }

    /// Follow the predictor's own move and then the opponent's reply: the position they
    /// lead to becomes the root, and everything else is dropped. Fails, changing nothing,
    /// when either move was not explored.
    pub fn register_move(&mut self, own_move: Move, oponent_move: Move) -> (r: Result<
        (),
        InvalidMove,
    >)
        requires
            old(self).wf(),
        ensures
            final(self).wf(),
            final(self).look_ahead() == old(self).look_ahead(),
            final(self).side() == old(self).side(),
            r is Ok <==> (old(self).root().branch(own_move) matches Some(c) && c.branch(
                oponent_move,
            ) is Some),
            r is Ok ==> final(self).root() == old(self).root().branch(own_move)->Some_0.branch(
                oponent_move,
            )->Some_0,
            r is Ok ==> final(self).root().board == applied(
                applied(old(self).root().board, own_move),
                oponent_move,
            ),
            r is Err ==> *final(self) == *old(self),
    {
        match self.cache.find_branch(&own_move) {
            Some(i) => match self.cache.branches[i].1.find_branch(&oponent_move) {
                Some(j) => {
                    let ghost root = self.cache;
                    proof {
                        assert(root.branches@[i as int].1.wf());
                        let child = root.branches@[i as int].1;
                        assert(child.board == applied(root.board, own_move));
                        assert(child.branches@[j as int].1.wf());
                        assert(child.branches@[j as int].1.board == applied(child.board, oponent_move));
                    }
                    let (_, mut cache) = self.cache.branches.remove(i);
                    assert(cache == root.branches@[i as int].1);
                    let (_, cache) = cache.branches.remove(j);
                    self.cache = cache;
                    Ok(())
                },
                None => Err(InvalidMove),
            },
            None => Err(InvalidMove),
        }
    }
}

/// Replies are kept: after a search of at least two plies from a position whose explored
/// branches hold the boards their moves lead to, every legal reply of the opponent to a
/// step `m1` of the side to move has a branch beneath `m1`. So `register_move(m1, m2)`
/// succeeds there and, by its contract, the new root holds the board reached by playing
/// `m1` and then `m2`.
pub proof fn lemma_replies_explored(
    board: Board,
    old_branches: Seq<(Move, PredictionCache)>,
    n: PredictionCache,
    ply: nat,
    color: Color,
    m1: Move,
    m2: Move,
)
    requires
        expanded(board, old_branches, n, ply, color),
        ply >= 2,
        forall|i: int|
            0 <= i < old_branches.len() ==> (#[trigger] old_branches[i]).1.board == applied(
                board,
                old_branches[i].0,
            ),
        kind_in(enumerated(board, color), m1) == Some(MovementType::Free),
        exists|t: int|
            0 <= t < enumerated(applied(board, m1), opposite(color)).len() && (#[trigger] enumerated(
                applied(board, m1),
                opposite(color),
            )[t]).0 == m2,
    ensures
        n.branch(m1) matches Some(c) && c.board == applied(board, m1) && c.branch(m2) is Some,
{
    let es = enumerated(board, color);
    let t1 = lemma_kind_in(es, m1);
    lemma_with_keys_contains(keys(old_branches), es, t1);
    let ks = keys(n.branches@);
    assert(ks.contains(m1));
    lemma_first_index_exists(ks, m1);
    let fi = first_index(ks, m1);
    let c = n.branches@[fi].1;
    lemma_with_keys_prefix(keys(old_branches), es);
    if fi < old_branches.len() {
        assert(keys(old_branches)[fi] == old_branches[fi].0);
    }
    let cb = applied(board, m1);
    let es2 = enumerated(cb, opposite(color));
    let t2 = choose|t: int| 0 <= t < es2.len() && (#[trigger] es2[t]).0 == m2;
    let cbr = if fi < old_branches.len() {
        old_branches[fi].1.branches@
    } else {
        Seq::empty()
    };
    assert(searched(es, color, ply, m1, cb, cbr, c));
    assert(expanded(cb, cbr, c, (ply - 1) as nat, opposite(color)));
    lemma_with_keys_contains(keys(cbr), es2, t2);
    assert(keys(c.branches@).contains(m2));
}

/// Every move of `es` is among the keys after adding them.
proof fn lemma_with_keys_contains(ks: Seq<Move>, es: Seq<(Move, MovementType)>, t: int)
    requires
        0 <= t < es.len(),
    ensures
        with_keys(ks, es).contains(es[t].0),
    decreases es.len(),
{
    let prev = with_keys(ks, es.drop_last());
    if t < es.len() - 1 {
        lemma_with_keys_contains(ks, es.drop_last(), t);
        let j = choose|j: int| 0 <= j < prev.len() && prev[j] == es[t].0;
        if !prev.contains(es.last().0) {
            assert(prev.push(es.last().0)[j] == es[t].0);
        }
    } else if !prev.contains(es.last().0) {
        assert(prev.push(es.last().0)[prev.len() as int] == es[t].0);
    }
}

/// Adding moves keeps the existing keys in front, in place.
proof fn lemma_with_keys_prefix(ks: Seq<Move>, es: Seq<(Move, MovementType)>)
    ensures
        with_keys(ks, es).len() >= ks.len(),
        forall|i: int| 0 <= i < ks.len() ==> #[trigger] with_keys(ks, es)[i] == ks[i],
    decreases es.len(),
{
    if es.len() > 0 {
        lemma_with_keys_prefix(ks, es.drop_last());
    }
}

/// The kind of `m` in `es` is that of an entry of `es` for `m`.
proof fn lemma_kind_in(es: Seq<(Move, MovementType)>, m: Move) -> (t: int)
    requires
        kind_in(es, m) is Some,
    ensures
        0 <= t < es.len(),
        es[t] == (m, kind_in(es, m)->Some_0),
    decreases es.len(),
{
    if kind_in(es.drop_last(), m) is Some {
        lemma_kind_in(es.drop_last(), m)
    } else {
        (es.len() - 1) as int
    }
}

/// The kind that `es` first gives to `m`.
fn find_kind(es: &Vec<(Move, MovementType)>, m: &Move) -> (r: Option<MovementType>)
    ensures
        r == kind_in(es@, *m),
{
    let mut found: Option<MovementType> = None;
    let mut i: usize = 0;
    while i < es.len()
        invariant
            i <= es@.len(),
            found == kind_in(es@.take(i as int), *m),
        decreases es@.len() - i,
    {
        assert(es@.take(i + 1).drop_last() =~= es@.take(i as int));
        if found.is_none() && es[i].0 == *m {
            found = Some(es[i].1);
        }
        i = i + 1;
    }
    assert(es@.take(es@.len() as int) =~= es@);
    found
}

/// A key that occurs has a first index.
proof fn lemma_first_index_exists(ks: Seq<Move>, m: Move)
    requires
        ks.contains(m),
    ensures
        0 <= first_index(ks, m) < ks.len(),
        ks[first_index(ks, m)] == m,
        forall|j: int| 0 <= j < first_index(ks, m) ==> ks[j] != m,
{
    let i = lemma_least_index(ks, m);
    lemma_first_index(ks, m, i);
}

proof fn lemma_least_index(ks: Seq<Move>, m: Move) -> (i: int)
    requires
        ks.contains(m),
    ensures
        0 <= i < ks.len(),
        ks[i] == m,
        forall|j: int| 0 <= j < i ==> ks[j] != m,
    decreases ks.len(),
{
    let rest = ks.drop_last();
    if rest.contains(m) {
        let i = lemma_least_index(rest, m);
        assert(forall|j: int| 0 <= j < i ==> rest[j] == ks[j]);
        i
    } else {
        let i = (ks.len() - 1) as int;
        assert forall|j: int| 0 <= j < i implies ks[j] != m by {
            assert(rest[j] == ks[j]);
        }
        let k = choose|k: int| 0 <= k < ks.len() && ks[k] == m;
        if k < i {
            assert(rest[k] == ks[k]);
        }
        i
    }
}

/// Absent from a prefix, present at `i`: `i` is the first index.
proof fn lemma_first_index(ks: Seq<Move>, m: Move, i: int)
    requires
        0 <= i < ks.len(),
        ks[i] == m,
        forall|j: int| 0 <= j < i ==> ks[j] != m,
    ensures
        ks.contains(m),
        first_index(ks, m) == i,
{
    let f = first_index(ks, m);
    assert(0 <= f < ks.len() && ks[f] == m && forall|j: int| 0 <= j < f ==> ks[j] != m);
    if f < i {
        assert(ks[f] != m);
    }
    if i < f {
        assert(ks[i] != m);
    }
}

/// The first index of `m` in `ks`.
pub open spec fn first_index(ks: Seq<Move>, m: Move) -> int
    recommends
        ks.contains(m),
{
    choose|i: int| 0 <= i < ks.len() && ks[i] == m && forall|j: int| 0 <= j < i ==> ks[j] != m
}

} // verus!
