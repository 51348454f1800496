use vstd::prelude::*;

verus! {

/// Side length of the square board.
pub const BOARD_SIZE: usize = 19;

/// Number of cells on the board.
pub const NUM_CELLS: usize = 361;

#[derive(Clone, Copy, Debug, PartialEq, Eq, Structural)]
pub enum TileState {
    Empty,
    White,
    Black,
}

#[derive(Clone, Copy, Debug)]
pub enum Move {
    Stone((usize, usize)),
    Pass,
}

/// Why a move or a cell access was refused.
#[derive(Clone, Copy, Debug, PartialEq, Eq, Structural)]
pub enum MoveError {
    OutOfBounds,
    OccupiedTile,
}

/// The board of one game, stored row by row: the tile at `(x, y)` lives at
/// index `x * BOARD_SIZE + y`.
pub struct GameState {
    pub board: Vec<TileState>,
}

/// A position, as mathematical integers, lies on the board.
pub open spec fn in_bounds(p: (int, int)) -> bool {
    0 <= p.0 < BOARD_SIZE && 0 <= p.1 < BOARD_SIZE
}

/// Index of a position in the flat cell sequence.
pub open spec fn idx(p: (int, int)) -> int {
    p.0 * (BOARD_SIZE as int) + p.1
}

/// The position whose flat index is `i`.
pub open spec fn pos_of(i: int) -> (int, int) {
    (i / (BOARD_SIZE as int), i % (BOARD_SIZE as int))
}

/// The tile at a position of a cell sequence.
pub open spec fn tile(cells: Seq<TileState>, p: (int, int)) -> TileState {
    cells[idx(p)]
}

/// Two on-board positions are orthogonal neighbours.
pub open spec fn adjacent(p: (int, int), q: (int, int)) -> bool {
    &&& in_bounds(p)
    &&& in_bounds(q)
    &&& ((p.0 == q.0 && (p.1 - q.1 == 1 || q.1 - p.1 == 1)) || (p.1 == q.1 && (p.0 - q.0 == 1
        || q.0 - p.0 == 1)))
}

/// A cell sequence has the size of a board.
pub open spec fn board_sized(cells: Seq<TileState>) -> bool {
    cells.len() == NUM_CELLS
}

/// No cell of the board is empty.
pub open spec fn full(cells: Seq<TileState>) -> bool {
    forall|p: (int, int)| in_bounds(p) ==> #[trigger] tile(cells, p) != TileState::Empty
}

pub open spec fn pos_int(p: (usize, usize)) -> (int, int) {
    (p.0 as int, p.1 as int)
}

/// The in-bounds orthogonal neighbours of a position, in the order left,
/// right, up, down (left and right along the first coordinate).
pub open spec fn neighbors_of(p: (int, int)) -> Seq<(int, int)> {
    let l = if p.0 > 0 { seq![(p.0 - 1, p.1)] } else { Seq::empty() };
    let r = if p.0 + 1 < BOARD_SIZE { seq![(p.0 + 1, p.1)] } else { Seq::empty() };
    let u = if p.1 > 0 { seq![(p.0, p.1 - 1)] } else { Seq::empty() };
    let d = if p.1 + 1 < BOARD_SIZE { seq![(p.0, p.1 + 1)] } else { Seq::empty() };
    l + r + u + d
}

/// Distinct on-board positions have distinct indices, all inside the board.
pub proof fn lemma_idx(p: (int, int), q: (int, int))
    requires
        in_bounds(p),
        in_bounds(q),
    ensures
        0 <= idx(p) < NUM_CELLS,
        idx(p) == idx(q) <==> p == q,
{
}

pub fn index_of(p: (usize, usize)) -> (r: usize)
    requires
        in_bounds(pos_int(p)),
    ensures
        r as int == idx(pos_int(p)),
        r < NUM_CELLS,
{
    proof {
        lemma_idx(pos_int(p), pos_int(p));
    }
    p.0 * BOARD_SIZE + p.1
}

/// The position whose index is `i`.
pub fn position_of(i: usize) -> (r: (usize, usize))
    requires
        i < NUM_CELLS,
    ensures
        in_bounds(pos_int(r)),
        idx(pos_int(r)) == i,
        pos_int(r) == pos_of(i as int),
{
    (i / BOARD_SIZE, i % BOARD_SIZE)
}

impl GameState {
    pub open spec fn cells(&self) -> Seq<TileState> {
        self.board@
    }

    pub open spec fn wf(&self) -> bool {
        board_sized(self.cells())
    }

    /// A board whose cells are all empty.
    pub fn new() -> (r: GameState)
        ensures
            r.wf(),
            forall|p: (int, int)| in_bounds(p) ==> #[trigger] tile(r.cells(), p) == TileState::Empty,
    {
        let mut board: Vec<TileState> = Vec::new();
        let mut i: usize = 0;
        while i < NUM_CELLS
            invariant
                i <= NUM_CELLS,
                board@.len() == i,
                forall|j: int| 0 <= j < i ==> board@[j] == TileState::Empty,
            decreases NUM_CELLS - i,
        {
            board.push(TileState::Empty);
            i = i + 1;
        }
        let r = GameState { board };
        assert forall|p: (int, int)| in_bounds(p) implies tile(r.cells(), p) == TileState::Empty by {
            lemma_idx(p, p);
        }
        r
    }

    /// Whether no cell is empty; stops at the first empty cell.
    pub fn is_full(&self) -> (r: bool)
        requires
            self.wf(),
        ensures
            r == full(self.cells()),
    {
        let mut i: usize = 0;
        while i < NUM_CELLS
            invariant
                self.wf(),
                i <= NUM_CELLS,
                forall|j: int| 0 <= j < i ==> self.board@[j] != TileState::Empty,
            decreases NUM_CELLS - i,
        {
            if self.board[i] == TileState::Empty {
                proof {
                    let p = ((i / BOARD_SIZE) as int, (i % BOARD_SIZE) as int);
                    assert(idx(p) == i);
                    assert(in_bounds(p));
                    assert(tile(self.cells(), p) == TileState::Empty);
                }
                return false;
            }
            i = i + 1;
        }
        assert forall|p: (int, int)| in_bounds(p) implies tile(self.cells(), p) != TileState::Empty by {
            lemma_idx(p, p);
        }
        true
    }

    pub fn get_tile(&self, pos: (usize, usize)) -> (r: TileState)
        requires
            self.wf(),
            in_bounds(pos_int(pos)),
        ensures
            r == tile(self.cells(), pos_int(pos)),
    {
        self.board[index_of(pos)]
    }

    /// The tile at `pos`, or `OutOfBounds` for a position off the board.
    pub fn get(&self, pos: (usize, usize)) -> (r: Result<TileState, MoveError>)
        requires
            self.wf(),
        ensures
            in_bounds(pos_int(pos)) ==> r == Ok::<TileState, MoveError>(
                tile(self.cells(), pos_int(pos)),
            ),
            !in_bounds(pos_int(pos)) ==> r == Err::<TileState, MoveError>(MoveError::OutOfBounds),
    {
        if pos.0 >= BOARD_SIZE || pos.1 >= BOARD_SIZE {
            Err(MoveError::OutOfBounds)
        } else {
            Ok(self.get_tile(pos))
        }
    }

    /// Overwrites the cell at `pos`, whatever it held, or leaves the board
    /// alone and returns `OutOfBounds` for a position off the board.
    pub fn set(&mut self, pos: (usize, usize), state: TileState) -> (r: Result<(), MoveError>)
        requires
            old(self).wf(),
        ensures
            final(self).wf(),
            in_bounds(pos_int(pos)) ==> r == Ok::<(), MoveError>(()) && final(self).cells() == old(
                self,
            ).cells().update(idx(pos_int(pos)), state),
            !in_bounds(pos_int(pos)) ==> r == Err::<(), MoveError>(MoveError::OutOfBounds)
                && final(self).cells() == old(self).cells(),
    {
        if pos.0 >= BOARD_SIZE || pos.1 >= BOARD_SIZE {
            Err(MoveError::OutOfBounds)
        } else {
            self.set_tile(pos, state);
            Ok(())
        }
    }

    /// Overwrites one cell, whatever it held.
    pub fn set_tile(&mut self, pos: (usize, usize), state: TileState)
        requires
            old(self).wf(),
            in_bounds(pos_int(pos)),
        ensures
            final(self).wf(),
            final(self).cells() == old(self).cells().update(idx(pos_int(pos)), state),
    {
        let i = index_of(pos);
        self.board.set(i, state);
    }

    /// The in-bounds orthogonal neighbours of a position.
    pub fn neighbors(pos: (usize, usize)) -> (r: Vec<(usize, usize)>)
        requires
            in_bounds(pos_int(pos)),
        ensures
            r@.map_values(|q: (usize, usize)| pos_int(q)) == neighbors_of(pos_int(pos)),
    {
        let (x, y) = pos;
        let mut r: Vec<(usize, usize)> = Vec::new();
        if x > 0 {
            r.push((x - 1, y));
        }
        if x + 1 < BOARD_SIZE {
            r.push((x + 1, y));
        }
        if y > 0 {
            r.push((x, y - 1));
        }
        if y + 1 < BOARD_SIZE {
            r.push((x, y + 1));
        }
        assert(r@.map_values(|q: (usize, usize)| pos_int(q)) =~= neighbors_of(pos_int(pos)));
        r
    }
}

} // verus!
