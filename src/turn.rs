use rand::Rng;
use vstd::prelude::*;
use vstd::string::StringSliceAdditionalSpecFns;
use crate::board::{
    full, idx, in_bounds, pos_int, pos_of, position_of, tile, GameState, Move, TileState, NUM_CELLS,
};
use crate::capture::resolves;
use crate::protocol::{move_of, parse_move, rendering};

verus! {

#[derive(Clone, Copy, Debug, PartialEq, Eq, Structural)]
pub enum EndReason {
    IllegalMove,
    BoardFull,
}

/// Where the game stands after one side has moved.
#[derive(Clone, Copy, Debug, PartialEq, Eq, Structural)]
pub enum Outcome {
    Continue,
    Finished(EndReason),
}

/// What goes back to the human player after a message: the board, or the
/// end of the session.
#[derive(Debug)]
pub enum Reply {
    Board(String),
    Close(EndReason),
}

/// The empty positions among the first `n` cells, in scan order.
pub open spec fn empties(c: Seq<TileState>, n: int) -> Seq<(int, int)>
    decreases n,
{
    if n <= 0 {
        Seq::empty()
    } else if c[n - 1] == TileState::Empty {
        empties(c, n - 1).push(pos_of(n - 1))
    } else {
        empties(c, n - 1)
    }
}

/// The outcome once a stone is placed and captures resolved: the game ends
/// when the board is full.
pub open spec fn after_placement(n: Seq<TileState>) -> Outcome {
    if full(n) {
        Outcome::Finished(EndReason::BoardFull)
    } else {
        Outcome::Continue
    }
}

/// The human's move `mv` takes the board `c` to `n` with outcome `o`. A pass
/// leaves the board alone; an off-board or occupied target ends the game;
/// otherwise a white stone is placed and captures are resolved.
pub open spec fn human_step(c: Seq<TileState>, mv: Move, n: Seq<TileState>, o: Outcome) -> bool {
    match mv {
        Move::Pass => n == c && o == after_placement(c),
        Move::Stone(p) => if !in_bounds(pos_int(p)) || tile(c, pos_int(p)) != TileState::Empty {
            n == c && o == Outcome::Finished(EndReason::IllegalMove)
        } else {
            resolves(c.update(idx(pos_int(p)), TileState::White), n) && o == after_placement(n)
        },
    }
}

/// The opponent places a black stone on the empty cell `q` of `c`, and
/// captures resolved, give `n`.
pub open spec fn opponent_step(c: Seq<TileState>, q: (int, int), n: Seq<TileState>) -> bool {
    &&& in_bounds(q)
    &&& tile(c, q) == TileState::Empty
    &&& resolves(c.update(idx(q), TileState::Black), n)
}

/// Relies on rand's `thread_rng().gen_range(0, n)`, which returns a value in
/// `[0, n)` and panics when `n` is zero.
#[verifier::external_body]
fn random_below(n: usize) -> (r: usize)
    requires
        n > 0,
    ensures
        r < n,
{
    rand::thread_rng().gen_range(0, n)
}

impl GameState {
    /// The empty cells, in scan order.
    pub fn empty_positions(&self) -> (r: Vec<(usize, usize)>)
        requires
            self.wf(),
        ensures
            r@.map_values(|q: (usize, usize)| pos_int(q)) == empties(self.cells(), NUM_CELLS as int),
            forall|i: int|
                0 <= i < r@.len() ==> in_bounds(pos_int(#[trigger] r@[i])) && tile(
                    self.cells(),
                    pos_int(r@[i]),
                ) == TileState::Empty,
            r@.len() == 0 <==> full(self.cells()),
    {
        let ghost c = self.cells();
        let mut r: Vec<(usize, usize)> = Vec::new();
        let mut i: usize = 0;
        while i < NUM_CELLS
            invariant
                self.wf(),
                c == self.cells(),
                i <= NUM_CELLS,
                r@.map_values(|q: (usize, usize)| pos_int(q)) == empties(c, i as int),
                forall|j: int|
                    0 <= j < r@.len() ==> in_bounds(pos_int(#[trigger] r@[j])) && tile(
                        c,
                        pos_int(r@[j]),
                    ) == TileState::Empty,
                r@.len() == 0 <==> forall|j: int| 0 <= j < i ==> c[j] != TileState::Empty,
            decreases NUM_CELLS - i,
        {
            if self.board[i] == TileState::Empty {
                let p = position_of(i);
                r.push(p);
                proof {
                    assert(r@.map_values(|q: (usize, usize)| pos_int(q)) =~= empties(c, i + 1));
                }
            } else {
                proof {
                    assert(empties(c, i + 1) == empties(c, i as int));
                }
            }
            i = i + 1;
        }
        proof {
            if full(c) {
                assert forall|j: int| 0 <= j < NUM_CELLS implies c[j] != TileState::Empty by {
                    let p = pos_of(j);
                    assert(idx(p) == j);
                    assert(in_bounds(p));
                    assert(tile(c, p) != TileState::Empty);
                }
            }
            if r@.len() == 0 {
                assert forall|p: (int, int)| in_bounds(p) implies tile(c, p) != TileState::Empty by {
                    assert(0 <= idx(p) < NUM_CELLS);
                }
            }
        }
        r
    }

    /// The opponent's choice: a random empty cell, or `None` when the board
    /// is full. Each call draws once; it never retries.
    pub fn make_move(&self) -> (r: Option<(usize, usize)>)
        requires
            self.wf(),
        ensures
            r is None <==> full(self.cells()),
            r is Some ==> in_bounds(pos_int(r->0)) && tile(self.cells(), pos_int(r->0))
                == TileState::Empty,
    {
        let e = self.empty_positions();
        if e.len() == 0 {
            None
        } else {
            let k = random_below(e.len());
            Some(e[k])
        }
    }

    /// Plays the human's move as White.
    pub fn human_turn(&mut self, mv: Move) -> (r: Outcome)
        requires
            old(self).wf(),
        ensures
            final(self).wf(),
            human_step(old(self).cells(), mv, final(self).cells(), r),
    {
        match mv {
            Move::Pass => {
                if self.is_full() {
                    Outcome::Finished(EndReason::BoardFull)
                } else {
                    Outcome::Continue
                }
            },
            Move::Stone(p) => {
                match self.apply_move(p, TileState::White) {
                    Err(_) => Outcome::Finished(EndReason::IllegalMove),
                    Ok(()) => {
                        if self.is_full() {
                            Outcome::Finished(EndReason::BoardFull)
                        } else {
                            Outcome::Continue
                        }
                    },
                }
            },
        }
    }

    /// Plays the opponent's stone, as Black, on the empty cell `pos`.
    pub fn opponent_turn(&mut self, pos: (usize, usize)) -> (r: Outcome)
        requires
            old(self).wf(),
            in_bounds(pos_int(pos)),
            tile(old(self).cells(), pos_int(pos)) == TileState::Empty,
        ensures
            final(self).wf(),
            opponent_step(old(self).cells(), pos_int(pos), final(self).cells()),
            r == after_placement(final(self).cells()),
    {
        let _placed = self.apply_move(pos, TileState::Black);
        if self.is_full() {
            Outcome::Finished(EndReason::BoardFull)
        } else {
            Outcome::Continue
        }
    }

    /// Handles one message of the human player: a malformed message gets the
    /// unchanged board back; otherwise the human's move is played, then, if
    /// the game goes on, a random move of the opponent, and the reply is the
    /// new board or the end of the session.
    pub fn handle_message(&mut self, message: &str) -> (r: Reply)
        requires
            old(self).wf(),
        ensures
            final(self).wf(),
            move_of(message.spec_bytes()) is None ==> final(self).cells() == old(self).cells()
                && r is Board && r->Board_0@ == rendering(old(self).cells()),
            move_of(message.spec_bytes()) is Some ==> exists|n: Seq<TileState>, o: Outcome|
                #[trigger] human_step(old(self).cells(), move_of(message.spec_bytes())->0, n, o)
                    && (o is Finished ==> final(self).cells() == n && r == Reply::Close(
                    o->Finished_0,
                )) && (o is Continue ==> exists|q: (int, int)| #[trigger]
                    opponent_step(n, q, final(self).cells()) && (full(final(self).cells())
                        ==> r == Reply::Close(EndReason::BoardFull)) && (!full(final(self).cells())
                        ==> r is Board && r->Board_0@ == rendering(final(self).cells()))),
    {
        let ghost c = self.cells();
        let mv = match parse_move(message) {
            Some(mv) => mv,
            None => {
                return Reply::Board(self.to_string());
            },
        };
        let o = self.human_turn(mv);
        let ghost n = self.cells();
        match o {
            Outcome::Finished(reason) => {
                return Reply::Close(reason);
            },
            Outcome::Continue => {},
        }
        match self.make_move() {
            None => Reply::Close(EndReason::BoardFull),
            Some(q) => {
                match self.opponent_turn(q) {
                    Outcome::Finished(reason) => Reply::Close(reason),
                    Outcome::Continue => Reply::Board(self.to_string()),
                }
            },
        }
    }
}

} // verus!
