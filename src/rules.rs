use vstd::prelude::*;

use crate::board::{lemma_filter_map_take, playable, Board, Color, GamePiece, Piece};

verus! {

/// How a piece moves: a step onto an empty square, or a jump that takes a piece.
#[derive(Debug, Clone, Copy, PartialEq, Eq, Structural)]
pub enum MovementType {
    Free,
    Forced,
}

/// A legal destination of a piece.
#[derive(Debug, Clone, Copy, PartialEq, Eq, Structural)]
pub struct Movement {
    pub movement_type: MovementType,
    pub row: usize,
    pub col: usize,
}

/// Which way a coordinate changes along a diagonal.
#[derive(Debug, Clone, Copy)]
enum Direction {
    Increase,
    Decrease,
}

/// The row direction in which a piece of `color` advances.
pub open spec fn forward(color: Color) -> int {
    match color {
        Color::White => -1,
        Color::Black => 1,
    }
}

/// The diagonal directions, as (row step, column step), that a piece tries, in order:
/// forward-left and forward-right, then for a king backward-left and backward-right.
pub open spec fn directions(piece: Piece) -> Seq<(int, int)> {
    let f = forward(piece.color);
    if piece.is_king {
        seq![(f, -1), (f, 1), (-f, -1), (-f, 1)]
    } else {
        seq![(f, -1), (f, 1)]
    }
}

/// Whether `(row, col)` lies on the 8×8 board.
pub open spec fn on_board(row: int, col: int) -> bool {
    0 <= row < 8 && 0 <= col < 8
}

/// What `piece` on `(row, col)` can do in direction `d`: step onto an empty neighbour,
/// or jump an enemy neighbour onto the empty square behind it.
pub open spec fn movement_toward(board: Board, piece: Piece, row: int, col: int, d: (int, int)) -> Option<
    Movement,
> {
    let r1 = row + d.0;
    let c1 = col + d.1;
    let r2 = row + 2 * d.0;
    let c2 = col + 2 * d.1;
    if !on_board(r1, c1) {
        None
    } else {
        match board.at(r1, c1) {
            None => Some(Movement { movement_type: MovementType::Free, row: r1 as usize, col: c1 as usize }),
            Some(other) => if other.color != piece.color && on_board(r2, c2) && board.at(r2, c2) is None {
                Some(Movement { movement_type: MovementType::Forced, row: r2 as usize, col: c2 as usize })
            } else {
                None
            },
        }
    }
}

/// Every movement of `piece` on `(row, col)`, captures and steps alike, in direction order.
pub open spec fn candidate_moves(board: Board, piece: Piece, row: int, col: int) -> Seq<Movement> {
    directions(piece).filter_map(|d: (int, int)| movement_toward(board, piece, row, col, d))
}

/// Whether any of `ms` is a capture.
pub open spec fn has_forced(ms: Seq<Movement>) -> bool {
    exists|i: int| 0 <= i < ms.len() && (#[trigger] ms[i]).movement_type == MovementType::Forced
}

/// Keeps the captures.
pub open spec fn forced_only() -> spec_fn(Movement) -> Option<Movement> {
    |m: Movement|
        if m.movement_type == MovementType::Forced {
            Some(m)
        } else {
            None
        }
}

/// The legal movements of the piece on `(row, col)`: its captures if it has any,
/// else its steps; nothing for an empty square.
pub open spec fn legal_moves(board: Board, row: int, col: int) -> Seq<Movement> {
    match board.at(row, col) {
        None => Seq::empty(),
        Some(piece) => {
            let ms = candidate_moves(board, piece, row, col);
            if has_forced(ms) {
                ms.filter_map(forced_only())
            } else {
                ms
            }
        },
    }
}

/// A legal movement leaves an occupied playable square for an empty playable square, one
/// diagonal step away for a step and two for a capture, which passes over an enemy piece.
pub proof fn lemma_legal_movement(board: Board, row: int, col: int, m: Movement)
    requires
        legal_moves(board, row, col).contains(m),
    ensures
        playable(row, col),
        board.at(row, col) is Some,
        playable(m.row as int, m.col as int),
        board.at(m.row as int, m.col as int) is None,
        m.movement_type == MovementType::Free ==> {
            &&& m.row - row == 1 || row - m.row == 1
            &&& m.col - col == 1 || col - m.col == 1
        },
        m.movement_type == MovementType::Forced ==> {
            &&& m.row - row == 2 || row - m.row == 2
            &&& m.col - col == 2 || col - m.col == 2
            &&& playable((row + m.row) / 2, (col + m.col) / 2)
            &&& board.at((row + m.row) / 2, (col + m.col) / 2) is Some
            &&& board.at((row + m.row) / 2, (col + m.col) / 2)->Some_0.color != board.at(
                row,
                col,
            )->Some_0.color
        },
        m.row - row == forward(board.at(row, col)->Some_0.color) || m.row - row == 2 * forward(
            board.at(row, col)->Some_0.color,
        ) || board.at(row, col)->Some_0.is_king,
{
    let piece = board.at(row, col)->Some_0;
    let ms = candidate_moves(board, piece, row, col);
    if has_forced(ms) {
        ms.lemma_filter_map_contains(forced_only(), m);
    }
    assert(ms.contains(m));
    let d = lemma_candidate_direction(board, piece, row, col, m);
    lemma_movement_toward(board, piece, row, col, d);
}

/// A candidate movement comes from one of the piece's directions.
proof fn lemma_candidate_direction(board: Board, piece: Piece, row: int, col: int, m: Movement) -> (d:
    (int, int))
    requires
        candidate_moves(board, piece, row, col).contains(m),
    ensures
        movement_toward(board, piece, row, col, d) == Some(m),
        d.0 == 1 || d.0 == -1,
        d.1 == 1 || d.1 == -1,
        d.0 == forward(piece.color) || piece.is_king,
{
    let g = |d: (int, int)| movement_toward(board, piece, row, col, d);
    directions(piece).lemma_filter_map_contains(g, m);
    let d = choose|d: (int, int)| directions(piece).contains(d) && g(d) == Some(m);
    let k = choose|k: int| 0 <= k < directions(piece).len() && directions(piece)[k] == d;
    d
}

proof fn lemma_movement_toward(board: Board, piece: Piece, row: int, col: int, d: (int, int))
    requires
        playable(row, col),
        board.at(row, col) == Some(piece),
        movement_toward(board, piece, row, col, d) is Some,
        d.0 == 1 || d.0 == -1,
        d.1 == 1 || d.1 == -1,
    ensures
        ({
            let m = movement_toward(board, piece, row, col, d)->Some_0;
            &&& playable(m.row as int, m.col as int)
            &&& board.at(m.row as int, m.col as int) is None
            &&& m.movement_type == MovementType::Free ==> m.row == row + d.0 && m.col == col + d.1
            &&& m.movement_type == MovementType::Forced ==> {
                &&& m.row == row + 2 * d.0
                &&& m.col == col + 2 * d.1
                &&& playable(row + d.0, col + d.1)
                &&& (row + m.row) / 2 == row + d.0
                &&& (col + m.col) / 2 == col + d.1
                &&& board.at(row + d.0, col + d.1) is Some
                &&& board.at(row + d.0, col + d.1)->Some_0.color != piece.color
            }
        }),
{
    assert(playable(row + d.0, col + d.1));
    assert(on_board(row + 2 * d.0, col + 2 * d.1) ==> playable(row + 2 * d.0, col + 2 * d.1));
}

/// The coordinate change of a direction.
spec fn delta(d: Direction) -> int {
    match d {
        Direction::Increase => 1,
        Direction::Decrease => -1,
    }
}

/// Directions as (row step, column step).
spec fn deltas(ds: Seq<(Direction, Direction)>) -> Seq<(int, int)> {
    ds.map_values(|d: (Direction, Direction)| (delta(d.0), delta(d.1)))
}

/// The legal movements of the piece on `(row, col)`; empty for an empty square.
pub fn get_moves(board: &Board, row: usize, col: usize) -> (r: Vec<Movement>)
    ensures
        r@ == legal_moves(*board, row as int, col as int),
{
    match board.get(row, col) {
        Some(piece) => {
            let possibilities = get_possibilities(&piece);
            let moves = get_moves_from_possibilities(board, &piece, possibilities);
            if has_forced_moves(&moves) {
                let mut forced: Vec<Movement> = Vec::new();
                let mut i: usize = 0;
                while i < moves.len()
                    invariant
                        i <= moves@.len(),
                        forced@ == moves@.take(i as int).filter_map(forced_only()),
                    decreases moves@.len() - i,
                {
                    proof {
                        lemma_filter_map_take(moves@, forced_only(), i as int);
                    }
                    if moves[i].movement_type == MovementType::Forced {
                        forced.push(moves[i]);
                    }
                    i = i + 1;
                }
                assert(moves@.take(moves@.len() as int) =~= moves@);
                forced
            } else {
                moves
            }
        },
        None => Vec::new(),
    }
}

/// Whether any of `movements` is a capture.
pub fn has_forced_moves(movements: &Vec<Movement>) -> (r: bool)
    ensures
        r == has_forced(movements@),
{
    let mut i: usize = 0;
    while i < movements.len()
        invariant
            i <= movements@.len(),
            forall|j: int| 0 <= j < i ==> (#[trigger] movements@[j]).movement_type != MovementType::Forced,
        decreases movements@.len() - i,
    {
        if movements[i].movement_type == MovementType::Forced {
            return true;
        }
        i = i + 1;
    }
    false
}

/// The square one diagonal step from `(row, col)`, if it is on the board.
fn get_next(row: usize, col: usize, row_direction: Direction, col_direction: Direction) -> (r: Option<
    (usize, usize),
>)
    requires
        row < 8,
        col < 8,
    ensures
        r == (if on_board(row + delta(row_direction), col + delta(col_direction)) {
            Some(((row + delta(row_direction)) as usize, (col + delta(col_direction)) as usize))
        } else {
            None
        }),
{
    if matches!(row_direction, Direction::Decrease) && row == 0 {
        None
    } else if matches!(row_direction, Direction::Increase) && row >= 7 {
        None
    } else if matches!(col_direction, Direction::Decrease) && col == 0 {
        None
    } else if matches!(col_direction, Direction::Increase) && col >= 7 {
        None
    } else {
        let row = match row_direction {
            Direction::Increase => row + 1,
            Direction::Decrease => row - 1,
        };
        let col = match col_direction {
            Direction::Increase => col + 1,
            Direction::Decrease => col - 1,
        };
        Some((row, col))
    }
}

/// The directions that `piece` tries, in the order of `directions`.
fn get_possibilities(piece: &GamePiece) -> (r: Vec<(Direction, Direction)>)
    ensures
        deltas(r@) == directions(Piece { color: piece.color, is_king: piece.is_king }),
{
    let direction = match piece.color {
        Color::White => Direction::Decrease,
        Color::Black => Direction::Increase,
    };
    let mut possibilities = vec![(direction, Direction::Decrease), (direction, Direction::Increase)];
    if piece.is_king {
        let direction = match direction {
            Direction::Increase => Direction::Decrease,
            Direction::Decrease => Direction::Increase,
        };
        possibilities.push((direction, Direction::Decrease));
        possibilities.push((direction, Direction::Increase));
    }
    assert(deltas(possibilities@) =~= directions(
        Piece { color: piece.color, is_king: piece.is_king },
    ));
    possibilities
}

/// The movements of `piece` in each of `possibilities`, in that order.
fn get_moves_from_possibilities(
    board: &Board,
    piece: &GamePiece,
    possibilities: Vec<(Direction, Direction)>,
) -> (r: Vec<Movement>)
    requires
        piece.row < 8,
        piece.col < 8,
        board.at(piece.row as int, piece.col as int) is Some,
        board.at(piece.row as int, piece.col as int)->Some_0.color == piece.color,
    ensures
        r@ == deltas(possibilities@).filter_map(
            |d: (int, int)|
                movement_toward(
                    *board,
                    Piece { color: piece.color, is_king: piece.is_king },
                    piece.row as int,
                    piece.col as int,
                    d,
                ),
        ),
{
    let ghost p = Piece { color: piece.color, is_king: piece.is_king };
    let ghost f = |d: (int, int)| movement_toward(*board, p, piece.row as int, piece.col as int, d);
    let ghost ds = deltas(possibilities@);
    let mut moves: Vec<Movement> = Vec::new();
    let mut i: usize = 0;
    while i < possibilities.len()
        invariant
            i <= possibilities@.len(),
            ds == deltas(possibilities@),
            p == (Piece { color: piece.color, is_king: piece.is_king }),
            f == (|d: (int, int)| movement_toward(*board, p, piece.row as int, piece.col as int, d)),
            piece.row < 8,
            piece.col < 8,
            moves@ == ds.take(i as int).filter_map(f),
        decreases possibilities@.len() - i,
    {
        proof {
            lemma_filter_map_take(ds, f, i as int);
        }
        let (row_direction, col_direction) = possibilities[i];
        assert(ds[i as int] == (delta(row_direction), delta(col_direction)));
        let mut found: Option<Movement> = None;
        if let Some((row, col)) = get_next(piece.row, piece.col, row_direction, col_direction) {
            match board.get(row, col) {
                None => {
                    found = Some(Movement { movement_type: MovementType::Free, row, col });
                },
                Some(other_piece) => {
                    if other_piece.color != piece.color {
                        if let Some((row, col)) = get_next(row, col, row_direction, col_direction) {
                            if board.get(row, col).is_none() {
                                found = Some(Movement { movement_type: MovementType::Forced, row, col });
                            }
                        }
                    }
                },
            }
        }
        assert(found == movement_toward(*board, p, piece.row as int, piece.col as int, ds[i as int]));
        if let Some(m) = found {
            moves.push(m);
        }
        i = i + 1;
    }
    assert(ds.take(ds.len() as int) =~= ds);
    moves
}

} // verus!
