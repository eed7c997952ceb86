//! The rules and move prediction of 8×8 checkers.
//!
//! `board` holds a position and applies moves, `rules` computes legal movements, and
//! `predictor` chooses moves by a cached look-ahead. The `Board` and `Predictor` of this
//! root wrap them for a host runtime, handing pieces, movements and moves out as bytes.
pub mod board;
pub mod predictor;
pub mod rules;

use vstd::prelude::*;

pub use board::{Color, GamePiece};

use board::{opening_piece, playable};
use predictor::{applied, enumerated, expanded, is_first_best, Move, NoMoreMoves, Position};
use rules::{legal_moves, Movement, MovementType};

verus! {

/// The byte of a color: 0 for White, 1 for Black.
pub open spec fn color_code(c: Color) -> u8 {
    match c {
        Color::White => 0,
        Color::Black => 1,
    }
}

/// The byte of a movement kind: 0 for a step, 1 for a capture.
pub open spec fn kind_code(k: MovementType) -> u8 {
    match k {
        MovementType::Free => 0,
        MovementType::Forced => 1,
    }
}

/// A piece as four bytes: color, king flag, row, column.
pub open spec fn piece_bytes(g: GamePiece) -> Seq<u8> {
    seq![color_code(g.color), if g.is_king { 1u8 } else { 0u8 }, g.row as u8, g.col as u8]
}

/// A movement as three bytes: kind, row, column.
pub open spec fn movement_bytes(m: Movement) -> Seq<u8> {
    seq![kind_code(m.movement_type), m.row as u8, m.col as u8]
}

/// A move as four bytes: from row, from column, to row, to column.
pub open spec fn move_bytes(m: Move) -> Seq<u8> {
    seq![m.from.row as u8, m.from.col as u8, m.to.row as u8, m.to.col as u8]
}

/// The pieces `ps`, four bytes each, in order.
pub open spec fn pieces_bytes(ps: Seq<GamePiece>) -> Seq<u8>
    decreases ps.len(),
{
    if ps.len() == 0 {
        Seq::empty()
    } else {
        pieces_bytes(ps.drop_last()) + piece_bytes(ps.last())
    }
}

/// The movements `ms`, three bytes each, in order.
pub open spec fn movements_bytes(ms: Seq<Movement>) -> Seq<u8>
    decreases ms.len(),
{
    if ms.len() == 0 {
        Seq::empty()
    } else {
        movements_bytes(ms.drop_last()) + movement_bytes(ms.last())
    }
}

/// The byte of a color.
fn color_byte(c: Color) -> (r: u8)
    ensures
        r == color_code(c),
{
    match c {
        Color::White => 0,
        Color::Black => 1,
    }
}

/// The pieces `ps`, four bytes each.
fn encode_pieces(ps: &Vec<GamePiece>) -> (r: Vec<u8>)
    ensures
        r@ == pieces_bytes(ps@),
{
    let mut out: Vec<u8> = Vec::new();
    let mut i: usize = 0;
    while i < ps.len()
        invariant
            i <= ps@.len(),
            out@ == pieces_bytes(ps@.take(i as int)),
        decreases ps@.len() - i,
    {
        let p = ps[i];
        out.push(color_byte(p.color));
        out.push(if p.is_king { 1u8 } else { 0u8 });
        out.push(p.row as u8);
        out.push(p.col as u8);
        assert(ps@.take(i + 1).drop_last() =~= ps@.take(i as int));
        assert(out@ =~= pieces_bytes(ps@.take(i as int)) + piece_bytes(p));
        i = i + 1;
    }
    assert(ps@.take(ps@.len() as int) =~= ps@);
    out
}

/// The movements `ms`, three bytes each.
fn encode_movements(ms: &Vec<Movement>) -> (r: Vec<u8>)
    ensures
        r@ == movements_bytes(ms@),
{
    let mut out: Vec<u8> = Vec::new();
    let mut i: usize = 0;
    while i < ms.len()
        invariant
            i <= ms@.len(),
            out@ == movements_bytes(ms@.take(i as int)),
        decreases ms@.len() - i,
    {
        let m = ms[i];
        out.push(
            match m.movement_type {
                MovementType::Free => 0u8,
                MovementType::Forced => 1u8,
            },
        );
        out.push(m.row as u8);
        out.push(m.col as u8);
        assert(ms@.take(i + 1).drop_last() =~= ms@.take(i as int));
        assert(out@ =~= movements_bytes(ms@.take(i as int)) + movement_bytes(m));
        i = i + 1;
    }
    assert(ms@.take(ms@.len() as int) =~= ms@);
    out
}

/// A board for a host runtime: the game state, with pieces and movements as bytes and
/// moves applied in place.
pub struct Board {
    board: board::Board,
}

impl Board {
    /// The position held.
    pub closed spec fn position(&self) -> board::Board {
        self.board
    }

    /// The opening position.
    pub fn new() -> (r: Board)
        ensures
            forall|row: int, col: int|
                playable(row, col) ==> #[trigger] r.position().at(row, col) == opening_piece(row),
    {
        Board { board: board::Board::new() }
    }

    /// The number of pieces of `color`.
    pub fn count_pieces(&self, color: Color) -> (r: usize)
        ensures
            r == self.position().pieces_spec(color).len(),
    {
        self.board.count_pieces(color)
    }

    /// The piece on `(row, col)`, if any.
    pub fn get(&self, row: usize, col: usize) -> (r: Option<GamePiece>)
        ensures
            r == (match self.position().at(row as int, col as int) {
                Some(p) => Some(board::placed(p, row as int, col as int)),
                None => None,
            }),
    {
        self.board.get(row, col)
    }

    /// Every piece, four bytes each, in board order.
    pub fn all_pieces(&self) -> (r: Vec<u8>)
        ensures
            r@ == pieces_bytes(self.position().all_pieces_spec()),
    {
        encode_pieces(&self.board.all_pieces())
    }

    /// The pieces of `color`, four bytes each, in board order.
    pub fn pieces(&self, color: Color) -> (r: Vec<u8>)
        ensures
            r@ == pieces_bytes(self.position().pieces_spec(color)),
    {
        encode_pieces(&self.board.pieces(color))
    }

    /// The legal movements of the piece on `(row, col)`, three bytes each.
    pub fn moves_for(&self, row: usize, col: usize) -> (r: Vec<u8>)
        ensures
            r@ == movements_bytes(legal_moves(self.position(), row as int, col as int)),
    {
        encode_movements(&self.board.moves_for(row, col))
    }

    /// The pieces of `color` that may move, four bytes each.
    pub fn get_movable_pieces(&self, color: Color) -> (r: Vec<u8>)
        ensures
            r@ == pieces_bytes(self.position().movable_spec(color)),
    {
        encode_pieces(&self.board.get_movable_pieces(color))
    }

    /// Play the move from `(from_row, from_col)` to `(to_row, to_col)` if it is legal;
    /// otherwise fail and keep the position.
    pub fn make_move(&mut self, from_row: u8, from_col: u8, to_row: u8, to_col: u8) -> (r: Result<
        (),
        board::InvalidMove,
    >)
        ensures
            r is Ok <==> old(self).position().is_legal(
                from_row as int,
                from_col as int,
                to_row as int,
                to_col as int,
            ),
            r is Ok ==> final(self).position() == old(self).position().moved(
                from_row as int,
                from_col as int,
                to_row as int,
                to_col as int,
            ),
            r is Err ==> final(self).position() == old(self).position(),
    {
        match self.board.make_move(from_row as usize, from_col as usize, to_row as usize, to_col as usize) {
            Ok(board) => {
                self.board = board;
                Ok(())
            },
            Err(e) => Err(e),
        }
    }
}

/// A predictor for a host runtime: moves go in and come out as bytes.
pub struct Predictor {
    predictor: predictor::Predictor,
}

impl Predictor {
    /// The predictor wrapped.
    pub closed spec fn inner(&self) -> predictor::Predictor {
        self.predictor
    }

    /// A predictor for `color` on `board`, looking `depth` exchanges ahead.
    pub fn new(board: Board, depth: u8, color: Color) -> (r: Predictor)
        requires
            depth >= 1,
        ensures
            r.inner().wf(),
            r.inner().root().board == board.position(),
            r.inner().root().branches@.len() == 0,
            r.inner().look_ahead() == depth,
            r.inner().side() == color,
    {
        Predictor { predictor: predictor::Predictor::new(board.board, depth, color) }
    }

    /// The chosen move, as four bytes; fails when the side has no move.
    pub fn get_next_move(&mut self) -> (r: Result<Vec<u8>, NoMoreMoves>)
        requires
            old(self).inner().wf(),
        ensures
            final(self).inner().wf(),
            final(self).inner().look_ahead() == old(self).inner().look_ahead(),
            final(self).inner().side() == old(self).inner().side(),
            expanded(
                old(self).inner().root().board,
                old(self).inner().root().branches@,
                final(self).inner().root(),
                old(self).inner().plies(),
                old(self).inner().side(),
            ),
            r is Err <==> final(self).inner().root().branches@.len() == 0,
            r is Err <==> old(self).inner().root().branches@.len() == 0 && enumerated(
                old(self).inner().root().board,
                old(self).inner().side(),
            ).len() == 0,
            r matches Ok(v) ==> exists|i: int|
                is_first_best(final(self).inner().root().branch_scores(old(self).inner().side()), i)
                    && v@ == move_bytes(final(self).inner().root().branches@[i].0),
    {
        match self.predictor.get_next_move() {
            Ok(m) => {
                let v = vec![m.from.row as u8, m.from.col as u8, m.to.row as u8, m.to.col as u8];
                assert(v@ =~= move_bytes(m));
                Ok(v)
            },
            Err(e) => Err(e),
        }
    }

    /// Follow the predictor's own move and the opponent's reply, each given by its four
    /// coordinates; fails, changing nothing, when either was not explored.
    pub fn register_move(
        &mut self,
        own_from_row: u8,
        own_from_col: u8,
        own_to_row: u8,
        own_to_col: u8,
        oponent_from_row: u8,
        oponent_from_col: u8,
        oponent_to_row: u8,
        oponent_to_col: u8,
    ) -> (r: Result<(), predictor::InvalidMove>)
        requires
            old(self).inner().wf(),
        ensures
            ({
                let own = Move {
                    from: Position { row: own_from_row as usize, col: own_from_col as usize },
                    to: Position { row: own_to_row as usize, col: own_to_col as usize },
                };
                let reply = Move {
                    from: Position { row: oponent_from_row as usize, col: oponent_from_col as usize },
                    to: Position { row: oponent_to_row as usize, col: oponent_to_col as usize },
                };
                &&& final(self).inner().wf()
                &&& r is Ok <==> (old(self).inner().root().branch(own) matches Some(c) && c.branch(
                    reply,
                ) is Some)
                &&& r is Ok ==> final(self).inner().root() == old(self).inner().root().branch(
                    own,
                )->Some_0.branch(reply)->Some_0
                &&& r is Ok ==> final(self).inner().root().board == applied(
                    applied(old(self).inner().root().board, own),
                    reply,
                )
                &&& r is Err ==> final(self).inner() == old(self).inner()
            }),
    {
        let own_move = Move {
            from: Position { row: own_from_row as usize, col: own_from_col as usize },
            to: Position { row: own_to_row as usize, col: own_to_col as usize },
        };
        let oponent_move = Move {
            from: Position { row: oponent_from_row as usize, col: oponent_from_col as usize },
            to: Position { row: oponent_to_row as usize, col: oponent_to_col as usize },
        };
        self.predictor.register_move(own_move, oponent_move)
    }
}

} // verus!
