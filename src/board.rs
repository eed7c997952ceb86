use vstd::prelude::*;

use crate::rules::{
    self, candidate_moves, forced_only, has_forced, legal_moves, lemma_legal_movement, Movement,
    MovementType,
};

verus! {

/// The two sides. White moves toward row 0, Black toward row 7.
#[derive(Debug, Clone, Copy, PartialEq, Eq, Structural)]
pub enum Color {
    White,
    Black,
}

/// A piece as it sits on a square.
#[derive(Debug, Clone, Copy, PartialEq, Eq, Structural)]
pub struct Piece {
    pub color: Color,
    pub is_king: bool,
}

/// A piece together with the square it stands on.
#[derive(Debug, Clone, Copy, PartialEq, Eq, Structural)]
pub struct GamePiece {
    pub color: Color,
    pub is_king: bool,
    pub row: usize,
    pub col: usize,
}

/// The error of a move that is not among the legal movements of the piece.
#[derive(Debug)]
pub struct InvalidMove;

/// An 8×8 board. Only the 32 squares where `row + col` is odd are playable; they are
/// stored four per row, the playable square `(row, col)` at `squares[row][col / 2]`.
/// Every value of the array is a board, so the type carries no further invariant.
#[derive(Clone, Copy)]
pub struct Board {
    pub squares: [[Option<Piece>; 4]; 8],
}

/// The other side.
pub open spec fn opposite(c: Color) -> Color {
    match c {
        Color::White => Color::Black,
        Color::Black => Color::White,
    }
}

/// Whether `(row, col)` is one of the 32 playable squares.
pub open spec fn playable(row: int, col: int) -> bool {
    0 <= row < 8 && 0 <= col < 8 && (row + col) % 2 == 1
}

/// The row on which a piece of `color` is crowned.
pub open spec fn crowning_row(color: Color) -> int {
    match color {
        Color::White => 0,
        Color::Black => 7,
    }
}

/// Row and column of the `k`-th playable square, counted row by row.
pub open spec fn cell_position(k: int) -> (int, int) {
    (k / 4, 2 * (k % 4) + (k / 4 + 1) % 2)
}

/// The index among the playable squares of the playable square `(row, col)`.
pub open spec fn cell_index(row: int, col: int) -> int {
    row * 4 + col / 2
}

/// Whether a move from `from_row` to `to_row` jumps over a square.
pub open spec fn is_jump(from_row: int, to_row: int) -> bool {
    from_row - to_row == 2 || to_row - from_row == 2
}

/// The piece of the opening position on the playable square `(row, col)`.
pub open spec fn opening_piece(row: int) -> Option<Piece> {
    if row < 3 {
        Some(Piece { color: Color::Black, is_king: false })
    } else if row > 4 {
        Some(Piece { color: Color::White, is_king: false })
    } else {
        None
    }
}

/// The piece `p` standing on `(row, col)`.
pub open spec fn placed(p: Piece, row: int, col: int) -> GamePiece {
    GamePiece { color: p.color, is_king: p.is_king, row: row as usize, col: col as usize }
}

/// Keeps the pieces of `color`.
pub open spec fn of_color(color: Color) -> spec_fn(Option<GamePiece>) -> Option<GamePiece> {
    |c: Option<GamePiece>|
        match c {
            Some(g) => if g.color == color {
                Some(g)
            } else {
                None
            },
            None => None,
        }
}

/// Keeps every piece.
pub open spec fn occupied() -> spec_fn(Option<GamePiece>) -> Option<GamePiece> {
    |c: Option<GamePiece>| c
}

/// Keeps the empty squares.
pub open spec fn vacant() -> spec_fn(Option<GamePiece>) -> Option<()> {
    |c: Option<GamePiece>|
        match c {
            Some(_) => None,
            None => Some(()),
        }
}

impl Board {
    /// The piece on `(row, col)`: none off the board and on unplayable squares.
    pub open spec fn at(self, row: int, col: int) -> Option<Piece> {
        if playable(row, col) {
            self.squares[row][col / 2]
        } else {
            None
        }
    }

    /// The board with the playable square `(row, col)` holding `v`.
    pub open spec fn with_square(self, row: int, col: int, v: Option<Piece>) -> Board {
        Board {
            squares: vstd::array::spec_array_update(
                self.squares,
                row,
                vstd::array::spec_array_update(self.squares[row], col / 2, v),
            ),
        }
    }

    /// Whether `(to_row, to_col)` is the destination of one of the legal movements of the
    /// piece on `(from_row, from_col)`.
    pub open spec fn is_legal(self, from_row: int, from_col: int, to_row: int, to_col: int) -> bool {
        let ms = legal_moves(self, from_row, from_col);
        exists|i: int|
            0 <= i < ms.len() && (#[trigger] ms[i]).row == to_row && ms[i].col == to_col
    }

    /// The board after the piece on `(from_row, from_col)` moves to `(to_row, to_col)`: a
    /// jump removes the piece it passes over, and a piece that reaches its crowning row
    /// becomes a king.
    pub open spec fn moved(self, from_row: int, from_col: int, to_row: int, to_col: int) -> Board {
        let piece = self.at(from_row, from_col)->Some_0;
        let crowned = Piece {
            color: piece.color,
            is_king: piece.is_king || to_row == crowning_row(piece.color),
        };
        let cleared = if is_jump(from_row, to_row) {
            self.with_square((from_row + to_row) / 2, (from_col + to_col) / 2, None)
        } else {
            self
        };
        cleared.with_square(from_row, from_col, None).with_square(to_row, to_col, Some(crowned))
    }

    /// Whether the piece `g` has a capture among its legal movements.
    pub open spec fn can_capture(self, g: GamePiece) -> bool {
        has_forced(legal_moves(self, g.row as int, g.col as int))
    }

    /// Whether the piece `g` has any legal movement.
    pub open spec fn can_move(self, g: GamePiece) -> bool {
        legal_moves(self, g.row as int, g.col as int).len() > 0
    }

    /// Keeps the pieces that can capture.
    pub open spec fn capturing(self) -> spec_fn(GamePiece) -> Option<GamePiece> {
        |g: GamePiece|
            if self.can_capture(g) {
                Some(g)
            } else {
                None
            }
    }

    /// Keeps the pieces that have a legal movement.
    pub open spec fn mobile(self) -> spec_fn(GamePiece) -> Option<GamePiece> {
        |g: GamePiece|
            if self.can_move(g) {
                Some(g)
            } else {
                None
            }
    }

    /// The pieces of `color` that may move under the mandatory capture rule: those that
    /// can capture if any can, else those with any legal movement; in board order.
    pub open spec fn movable_spec(self, color: Color) -> Seq<GamePiece> {
        let forced = self.pieces_spec(color).filter_map(self.capturing());
        if forced.len() > 0 {
            forced
        } else {
            self.pieces_spec(color).filter_map(self.mobile())
        }
    }

    /// The piece on the `k`-th playable square, with its position.
    pub open spec fn cell(self, k: int) -> Option<GamePiece> {
        match self.squares[k / 4][k % 4] {
            Some(p) => Some(placed(p, cell_position(k).0, cell_position(k).1)),
            None => None,
        }
    }

    /// The 32 playable squares in row-major order.
    pub open spec fn cells(self) -> Seq<Option<GamePiece>> {
        Seq::new(32, |k: int| self.cell(k))
    }

    /// Every piece, row by row and left to right within a row.
    pub open spec fn all_pieces_spec(self) -> Seq<GamePiece> {
        self.cells().filter_map(occupied())
    }

    /// The pieces of `color`, in the order of `all_pieces_spec`.
    pub open spec fn pieces_spec(self, color: Color) -> Seq<GamePiece> {
        self.cells().filter_map(of_color(color))
    }

    /// The number of playable squares without a piece.
    pub open spec fn empty_squares(self) -> nat {
        self.cells().filter_map(vacant()).len()
    }

    /// Construct the opening position: Black on rows 0 to 2, White on rows 5 to 7.
    pub fn new() -> (b: Board)
        ensures
            forall|r: int, c: int| playable(r, c) ==> #[trigger] b.at(r, c) == opening_piece(r),
            b.pieces_spec(Color::White).len() == 12,
            b.pieces_spec(Color::Black).len() == 12,
    {
        let black_piece = Some(Piece { color: Color::Black, is_king: false });
        let white_piece = Some(Piece { color: Color::White, is_king: false });
        let b = Board {
            squares: [
                [black_piece; 4],
                [black_piece; 4],
                [black_piece; 4],
                [None; 4],
                [None; 4],
                [white_piece; 4],
                [white_piece; 4],
                [white_piece; 4],
            ],
        };
        proof {
            lemma_opening_counts(b);
        }
        b
    }

    /// The piece on `(row, col)` with its position; none for an empty, unplayable or
    /// off-board square.
    pub fn get(&self, row: usize, col: usize) -> (r: Option<GamePiece>)
        ensures
            !playable(row as int, col as int) ==> r is None,
            r == (match self.at(row as int, col as int) {
                Some(p) => Some(placed(p, row as int, col as int)),
                None => None,
            }),
    {
        match get_internal_col(row, col) {
            Some(inner_col) => match self.squares[row][inner_col] {
                Some(piece) => Some(
                    GamePiece { color: piece.color, is_king: piece.is_king, row, col },
                ),
                None => None,
            },
            None => None,
        }
    }

    /// The number of pieces of `color` on the board.
    pub fn count_pieces(&self, color: Color) -> (r: usize)
        ensures
            r == self.pieces_spec(color).len(),
    {
        self.pieces(color).len()
    }

    /// Every piece on the board, row by row, left to right within a row.
    pub fn all_pieces(&self) -> (r: Vec<GamePiece>)
        ensures
            r@ == self.all_pieces_spec(),
    {
        let mut r: Vec<GamePiece> = Vec::new();
        let mut k: usize = 0;
        while k < 32
            invariant
                k <= 32,
                r@ == self.cells().take(k as int).filter_map(occupied()),
            decreases 32 - k,
        {
            proof {
                lemma_filter_map_take(self.cells(), occupied(), k as int);
            }
            if let Some(p) = self.normalized(k) {
                r.push(p);
            }
            k = k + 1;
        }
        assert(self.cells().take(32) =~= self.cells());
        r
    }

    /// The pieces of `color`, in the order of `all_pieces`.
    pub fn pieces(&self, color: Color) -> (r: Vec<GamePiece>)
        ensures
            r@ == self.pieces_spec(color),
    {
        let mut r: Vec<GamePiece> = Vec::new();
        let mut k: usize = 0;
        while k < 32
            invariant
                k <= 32,
                r@ == self.cells().take(k as int).filter_map(of_color(color)),
            decreases 32 - k,
        {
            proof {
                lemma_filter_map_take(self.cells(), of_color(color), k as int);
            }
            if let Some(p) = self.normalized(k) {
                if p.color == color {
                    r.push(p);
                }
            }
            k = k + 1;
        }
        assert(self.cells().take(32) =~= self.cells());
        r
    }

    /// The legal movements of the piece on `(row, col)`; empty for an empty square.
    pub fn moves_for(&self, row: usize, col: usize) -> (r: Vec<Movement>)
        ensures
            r@ == legal_moves(*self, row as int, col as int),
    {
        rules::get_moves(self, row, col)
    }

    /// The pieces of `color` that may move: only those that can capture when any of
    /// them can, else all that have a legal movement.
    pub fn get_movable_pieces(&self, color: Color) -> (r: Vec<GamePiece>)
        ensures
            r@ == self.movable_spec(color),
    {
        let pieces = self.pieces(color);
        let mut forced: Vec<GamePiece> = Vec::new();
        let mut free: Vec<GamePiece> = Vec::new();
        let mut i: usize = 0;
        while i < pieces.len()
            invariant
                i <= pieces@.len(),
                pieces@ == self.pieces_spec(color),
                forced@ == pieces@.take(i as int).filter_map(self.capturing()),
                free@ == pieces@.take(i as int).filter_map(self.mobile()),
            decreases pieces@.len() - i,
        {
            proof {
                lemma_filter_map_take(pieces@, self.capturing(), i as int);
                lemma_filter_map_take(pieces@, self.mobile(), i as int);
            }
            let piece = pieces[i];
            let movements = rules::get_moves(self, piece.row, piece.col);
            if movements.len() > 0 {
                free.push(piece);
            }
            if rules::has_forced_moves(&movements) {
                forced.push(piece);
            }
            i = i + 1;
        }
        assert(pieces@.take(pieces@.len() as int) =~= pieces@);
        if forced.len() > 0 {
            forced
        } else {
            free
        }
    }

    /// Move the piece on `(from_row, from_col)` to `(to_row, to_col)` if that is one of its
    /// legal movements, and return the resulting board; `self` is left as it was.
    pub fn make_move(&self, from_row: usize, from_col: usize, to_row: usize, to_col: usize) -> (r:
        Result<Board, InvalidMove>)
        ensures
            r is Ok <==> self.is_legal(from_row as int, from_col as int, to_row as int, to_col as int),
            r matches Ok(b) ==> b == self.moved(
                from_row as int,
                from_col as int,
                to_row as int,
                to_col as int,
            ),
    {
        let moves = rules::get_moves(self, from_row, from_col);
        let mut found: Option<Movement> = None;
        let mut i: usize = 0;
        while i < moves.len() && found.is_none()
            invariant
                i <= moves@.len(),
                moves@ == legal_moves(*self, from_row as int, from_col as int),
                found is None ==> forall|j: int|
                    0 <= j < i ==> !((#[trigger] moves@[j]).row == to_row && moves@[j].col == to_col),
                found matches Some(m) ==> moves@.contains(m) && m.row == to_row && m.col == to_col,
            decreases moves@.len() - i,
        {
            if moves[i].row == to_row && moves[i].col == to_col {
                found = Some(moves[i]);
            }
            i = i + 1;
        }
        match found {
            Some(movement) => {
                proof {
                    lemma_legal_movement(*self, from_row as int, from_col as int, movement);
                }
                let mut board = *self;
                if movement.movement_type == MovementType::Forced {
                    board.set_square((from_row + to_row) / 2, (from_col + to_col) / 2, None);
                }
                let piece = self.squares[from_row][from_col / 2].unwrap();
                board.set_square(from_row, from_col, None);
                let is_king = match piece.color {
                    Color::White => piece.is_king || to_row == 0,
                    Color::Black => piece.is_king || to_row == 7,
                };
                board.set_square(to_row, to_col, Some(Piece { color: piece.color, is_king }));
                Ok(board)
            },
            None => Err(InvalidMove),
        }
    }

    /// Put `v` on the playable square `(row, col)`.
    fn set_square(&mut self, row: usize, col: usize, v: Option<Piece>)
        requires
            row < 8,
            col < 8,
        ensures
            *final(self) == old(self).with_square(row as int, col as int, v),
    {
        let mut inner = self.squares[row];
        inner[col / 2] = v;
        self.squares[row] = inner;
    }

    /// The piece on the `k`-th playable square, with its position on the board.
    fn normalized(&self, k: usize) -> (r: Option<GamePiece>)
        requires
            k < 32,
        ensures
            r == self.cells()[k as int],
    {
        let row = k / 4;
        let inner_col = k % 4;
        match self.squares[row][inner_col] {
            Some(piece) => Some(
                GamePiece {
                    color: piece.color,
                    is_king: piece.is_king,
                    row,
                    col: get_external_col(row, inner_col),
                },
            ),
            None => None,
        }
    }

    /// A board holding exactly the given squares.
    pub fn from(squares: [[Option<Piece>; 4]; 8]) -> (b: Board)
        ensures
            b.squares == squares,
    {
        Board { squares }
    }
}

/// The index within its row of the playable square `(row, col)`.
fn get_internal_col(row: usize, col: usize) -> (r: Option<usize>)
    ensures
        r == (if playable(row as int, col as int) {
            Some((col / 2) as usize)
        } else {
            None
        }),
{
    if row >= 8 || col >= 8 {
        return None;
    }
    if (row + col) % 2 == 1 {
        Some(col / 2)
    } else {
        None
    }
}

/// The board column of the `col`-th playable square of `row`.
fn get_external_col(row: usize, col: usize) -> (r: usize)
    requires
        row < 8,
        col < 4,
    ensures
        r == cell_position(row * 4 + col).1,
{
    col * 2 + (row + 1) % 2
}

/// One for a value, zero for none.
pub open spec fn present<B>(o: Option<B>) -> int {
    if o is Some {
        1
    } else {
        0
    }
}

/// What `v`, on `(row, col)`, contributes to the list of pieces.
pub open spec fn placed_opt(v: Option<Piece>, row: int, col: int) -> Option<GamePiece> {
    match v {
        Some(p) => Some(placed(p, row, col)),
        None => None,
    }
}

/// Replacing one element changes the length of a `filter_map` by what the old and the new
/// element map to.
pub proof fn lemma_filter_map_update<A, B>(s: Seq<A>, f: spec_fn(A) -> Option<B>, k: int, x: A)
    requires
        0 <= k < s.len(),
    ensures
        s.update(k, x).filter_map(f).len() + present(f(s[k])) == s.filter_map(f).len() + present(
            f(x),
        ),
    decreases s.len(),
{
    let t = s.update(k, x);
    if k == s.len() - 1 {
        assert(t.drop_last() =~= s.drop_last());
    } else {
        lemma_filter_map_update(s.drop_last(), f, k, x);
        assert(t.drop_last() =~= s.drop_last().update(k, x));
    }
}

/// The `filter_map` of a sequence is no longer than the sequence.
pub proof fn lemma_filter_map_len<A, B>(s: Seq<A>, f: spec_fn(A) -> Option<B>)
    ensures
        s.filter_map(f).len() <= s.len(),
    decreases s.len(),
{
    if s.len() > 0 {
        lemma_filter_map_len(s.drop_last(), f);
    }
}

/// The playable square `(row, col)` is the cell `cell_index(row, col)`.
pub proof fn lemma_cell_at(b: Board, row: int, col: int)
    requires
        playable(row, col),
    ensures
        0 <= cell_index(row, col) < 32,
        cell_position(cell_index(row, col)) == (row, col),
        b.cells()[cell_index(row, col)] == placed_opt(b.at(row, col), row, col),
{
}

/// Setting a playable square updates exactly its cell.
pub proof fn lemma_cells_with_square(b: Board, row: int, col: int, v: Option<Piece>)
    requires
        playable(row, col),
    ensures
        b.with_square(row, col, v).cells() == b.cells().update(
            cell_index(row, col),
            placed_opt(v, row, col),
        ),
        forall|r: int, c: int|
            #![trigger b.with_square(row, col, v).at(r, c)]
            b.with_square(row, col, v).at(r, c) == if r == row && c == col {
                v
            } else {
                b.at(r, c)
            },
{
    lemma_cell_at(b, row, col);
    let nb = b.with_square(row, col, v);
    assert(nb.cells() =~= b.cells().update(cell_index(row, col), placed_opt(v, row, col)));
}

/// A capture removes exactly the piece jumped over, which belongs to the opponent: the
/// opponent has one piece fewer, the mover as many as before, and the capturing piece
/// stands on the destination. No other square changes.
pub proof fn lemma_capture(b: Board, from_row: int, from_col: int, m: Movement)
    requires
        legal_moves(b, from_row, from_col).contains(m),
        m.movement_type == MovementType::Forced,
    ensures
        ({
            let to_row = m.row as int;
            let to_col = m.col as int;
            let mid_row = (from_row + to_row) / 2;
            let mid_col = (from_col + to_col) / 2;
            let nb = b.moved(from_row, from_col, to_row, to_col);
            let mover = b.at(from_row, from_col)->Some_0.color;
            &&& b.at(mid_row, mid_col) matches Some(p) && p.color == opposite(mover)
            &&& nb.at(mid_row, mid_col) is None
            &&& nb.at(from_row, from_col) is None
            &&& nb.at(to_row, to_col) matches Some(p) && p.color == mover
            &&& nb.pieces_spec(opposite(mover)).len() + 1 == b.pieces_spec(opposite(mover)).len()
            &&& nb.pieces_spec(mover).len() == b.pieces_spec(mover).len()
            &&& nb.all_pieces_spec().len() + 1 == b.all_pieces_spec().len()
            &&& forall|r: int, c: int|
                !(r == mid_row && c == mid_col) && !(r == from_row && c == from_col) && !(r
                    == to_row && c == to_col) ==> #[trigger] nb.at(r, c) == b.at(r, c)
        }),
{
    lemma_legal_movement(b, from_row, from_col, m);
    let to_row = m.row as int;
    let to_col = m.col as int;
    let mid_row = (from_row + to_row) / 2;
    let mid_col = (from_col + to_col) / 2;
    let piece = b.at(from_row, from_col)->Some_0;
    let mover = piece.color;
    let crowned = Piece {
        color: piece.color,
        is_king: piece.is_king || to_row == crowning_row(piece.color),
    };
    let b1 = b.with_square(mid_row, mid_col, None);
    let b2 = b1.with_square(from_row, from_col, None);
    let b3 = b2.with_square(to_row, to_col, Some(crowned));
    assert(b3 == b.moved(from_row, from_col, to_row, to_col));
    lemma_cells_with_square(b, mid_row, mid_col, None);
    lemma_cells_with_square(b1, from_row, from_col, None);
    lemma_cells_with_square(b2, to_row, to_col, Some(crowned));
    lemma_cell_at(b, mid_row, mid_col);
    lemma_cell_at(b1, from_row, from_col);
    lemma_cell_at(b2, to_row, to_col);
    let k1 = cell_index(mid_row, mid_col);
    let k2 = cell_index(from_row, from_col);
    let k3 = cell_index(to_row, to_col);
    let x1 = placed_opt(None, mid_row, mid_col);
    let x2 = placed_opt(None, from_row, from_col);
    let x3 = placed_opt(Some(crowned), to_row, to_col);
    let opp = opposite(mover);
    assert(b.at(mid_row, mid_col)->Some_0.color == opp);
    lemma_filter_map_update(b.cells(), of_color(opp), k1, x1);
    lemma_filter_map_update(b1.cells(), of_color(opp), k2, x2);
    lemma_filter_map_update(b2.cells(), of_color(opp), k3, x3);
    lemma_filter_map_update(b.cells(), of_color(mover), k1, x1);
    lemma_filter_map_update(b1.cells(), of_color(mover), k2, x2);
    lemma_filter_map_update(b2.cells(), of_color(mover), k3, x3);
    lemma_filter_map_update(b.cells(), occupied(), k1, x1);
    lemma_filter_map_update(b1.cells(), occupied(), k2, x2);
    lemma_filter_map_update(b2.cells(), occupied(), k3, x3);
}

/// The opening position has twelve pieces of each color.
proof fn lemma_opening_counts(b: Board)
    requires
        forall|r: int, c: int| playable(r, c) ==> #[trigger] b.at(r, c) == opening_piece(r),
    ensures
        b.pieces_spec(Color::White).len() == 12,
        b.pieces_spec(Color::Black).len() == 12,
{
    let s = b.cells();
    assert forall|k: int| 0 <= k < 32 implies #[trigger] s[k] == placed_opt(
        opening_piece(k / 4),
        cell_position(k).0,
        cell_position(k).1,
    ) by {
        let (r, c) = cell_position(k);
        assert(playable(r, c));
        assert(cell_index(r, c) == k);
        lemma_cell_at(b, r, c);
    }
    let w = of_color(Color::White);
    let bl = of_color(Color::Black);
    assert(s.take(0) =~= Seq::<Option<GamePiece>>::empty());
    lemma_filter_map_run(s, w, 0, 20, false);
    lemma_filter_map_run(s, w, 20, 32, true);
    lemma_filter_map_run(s, bl, 0, 12, true);
    lemma_filter_map_run(s, bl, 12, 32, false);
    assert(s.take(32) =~= s);
}

/// Over a run of elements that all map to a value, or all to none, a prefix's
/// `filter_map` grows by the run's length, or not at all.
proof fn lemma_filter_map_run<A, B>(s: Seq<A>, f: spec_fn(A) -> Option<B>, lo: int, hi: int, kept: bool)
    requires
        0 <= lo <= hi <= s.len(),
        forall|k: int| lo <= k < hi ==> (f(#[trigger] s[k]) is Some) == kept,
    ensures
        s.take(hi).filter_map(f).len() == s.take(lo).filter_map(f).len() + if kept {
            hi - lo
        } else {
            0
        },
    decreases hi - lo,
{
    if hi > lo {
        lemma_filter_map_run(s, f, lo, hi - 1, kept);
        lemma_filter_map_take(s, f, hi - 1);
    }
}

/// Every playable square holds a white piece, a black piece, or nothing: the two piece
/// counts and the number of empty squares add up to 32 on every board.
pub proof fn lemma_squares_accounted(b: Board)
    ensures
        b.pieces_spec(Color::White).len() + b.pieces_spec(Color::Black).len() + b.empty_squares()
            == 32,
{
    lemma_cells_accounted(b.cells());
}

proof fn lemma_cells_accounted(s: Seq<Option<GamePiece>>)
    ensures
        s.filter_map(of_color(Color::White)).len() + s.filter_map(of_color(Color::Black)).len()
            + s.filter_map(vacant()).len() == s.len(),
    decreases s.len(),
{
    if s.len() > 0 {
        lemma_cells_accounted(s.drop_last());
    }
}

/// Mandatory capture: when some piece of `color` can capture, only pieces that can capture
/// are movable; and a piece that can capture is offered no step.
pub proof fn lemma_mandatory_capture(b: Board, color: Color)
    ensures
        (exists|i: int|
            0 <= i < b.pieces_spec(color).len() && b.can_capture(#[trigger] b.pieces_spec(color)[i]))
            ==> forall|j: int|
            0 <= j < b.movable_spec(color).len() ==> b.can_capture(
                #[trigger] b.movable_spec(color)[j],
            ),
        forall|row: int, col: int, j: int|
            b.at(row, col) is Some && has_forced(
                candidate_moves(b, b.at(row, col)->Some_0, row, col),
            ) && 0 <= j < legal_moves(b, row, col).len() ==> (#[trigger] legal_moves(
                b,
                row,
                col,
            )[j]).movement_type == MovementType::Forced,
{
    let ps = b.pieces_spec(color);
    let forced = ps.filter_map(b.capturing());
    if exists|i: int| 0 <= i < ps.len() && b.can_capture(#[trigger] ps[i]) {
        let i = choose|i: int| 0 <= i < ps.len() && b.can_capture(#[trigger] ps[i]);
        lemma_filter_map_nonempty(ps, b.capturing(), i);
        assert forall|j: int| 0 <= j < forced.len() implies b.can_capture(#[trigger] forced[j]) by {
            assert(forced.contains(forced[j]));
            ps.lemma_filter_map_contains(b.capturing(), forced[j]);
        }
    }
    assert forall|row: int, col: int, j: int|
        b.at(row, col) is Some && has_forced(candidate_moves(b, b.at(row, col)->Some_0, row, col))
            && 0 <= j < legal_moves(b, row, col).len() implies (#[trigger] legal_moves(
        b,
        row,
        col,
    )[j]).movement_type == MovementType::Forced by {
        let ms = candidate_moves(b, b.at(row, col)->Some_0, row, col);
        let lm = legal_moves(b, row, col);
        assert(lm.contains(lm[j]));
        ms.lemma_filter_map_contains(forced_only(), lm[j]);
    }
}

/// An element that maps to a value leaves the `filter_map` non-empty.
proof fn lemma_filter_map_nonempty<A, B>(s: Seq<A>, f: spec_fn(A) -> Option<B>, i: int)
    requires
        0 <= i < s.len(),
        f(s[i]) is Some,
    ensures
        s.filter_map(f).len() > 0,
    decreases s.len(),
{
    if i < s.len() - 1 {
        lemma_filter_map_nonempty(s.drop_last(), f, i);
    }
}

/// Promotion: the moving piece lands on its destination, and is a king there exactly when
/// it was one or the destination is its crowning row; so a king stays a king.
pub proof fn lemma_promotion(b: Board, from_row: int, from_col: int, m: Movement)
    requires
        legal_moves(b, from_row, from_col).contains(m),
    ensures
        ({
            let p = b.at(from_row, from_col)->Some_0;
            b.moved(from_row, from_col, m.row as int, m.col as int).at(m.row as int, m.col as int)
                == Some(
                Piece {
                    color: p.color,
                    is_king: p.is_king || m.row as int == crowning_row(p.color),
                },
            )
        }),
{
    lemma_legal_movement(b, from_row, from_col, m);
    let to_row = m.row as int;
    let to_col = m.col as int;
    let piece = b.at(from_row, from_col)->Some_0;
    let crowned = Piece {
        color: piece.color,
        is_king: piece.is_king || to_row == crowning_row(piece.color),
    };
    let cleared = if is_jump(from_row, to_row) {
        b.with_square((from_row + to_row) / 2, (from_col + to_col) / 2, None)
    } else {
        b
    };
    let b2 = cleared.with_square(from_row, from_col, None);
    lemma_cells_with_square(b2, to_row, to_col, Some(crowned));
    assert(b2.with_square(to_row, to_col, Some(crowned)).at(to_row, to_col) == Some(crowned));
}

/// A move fails when its origin is empty, when its destination is occupied, or when its
/// destination is not among the origin piece's legal movements.
pub proof fn lemma_invalid_moves(b: Board, from_row: int, from_col: int, to_row: int, to_col: int)
    ensures
        b.at(from_row, from_col) is None ==> !b.is_legal(from_row, from_col, to_row, to_col),
        b.at(to_row, to_col) is Some ==> !b.is_legal(from_row, from_col, to_row, to_col),
        !legal_moves(b, from_row, from_col).contains(
            Movement { movement_type: MovementType::Free, row: to_row as usize, col: to_col as usize },
        ) && !legal_moves(b, from_row, from_col).contains(
            Movement { movement_type: MovementType::Forced, row: to_row as usize, col: to_col as usize },
        ) && 0 <= to_row && 0 <= to_col ==> !b.is_legal(from_row, from_col, to_row, to_col),
{
    let ms = legal_moves(b, from_row, from_col);
    if b.is_legal(from_row, from_col, to_row, to_col) {
        let i = choose|i: int| 0 <= i < ms.len() && (#[trigger] ms[i]).row == to_row && ms[i].col == to_col;
        assert(ms.contains(ms[i]));
        lemma_legal_movement(b, from_row, from_col, ms[i]);
        match ms[i].movement_type {
            MovementType::Free => assert(ms[i] == Movement {
                movement_type: MovementType::Free,
                row: to_row as usize,
                col: to_col as usize,
            }),
            MovementType::Forced => assert(ms[i] == Movement {
                movement_type: MovementType::Forced,
                row: to_row as usize,
                col: to_col as usize,
            }),
        }
    }
}

/// Extending a prefix by one element extends its `filter_map` by what the element maps to.
pub proof fn lemma_filter_map_take<A, B>(s: Seq<A>, f: spec_fn(A) -> Option<B>, k: int)
    requires
        0 <= k < s.len(),
    ensures
        s.take(k + 1).filter_map(f) == (match f(s[k]) {
            Some(x) => s.take(k).filter_map(f).push(x),
            None => s.take(k).filter_map(f),
        }),
{
    assert(s.take(k + 1).drop_last() =~= s.take(k));
    assert(s.take(k + 1).last() == s[k]);
    match f(s[k]) {
        Some(x) => {
            assert(s.take(k).filter_map(f) + seq![x] =~= s.take(k).filter_map(f).push(x));
        },
        None => {},
    }
}

} // verus!
