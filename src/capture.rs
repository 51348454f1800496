use vstd::prelude::*;
use crate::board::{
    adjacent, full, idx, in_bounds, pos_int, pos_of, position_of, tile, GameState, MoveError,
    TileState, NUM_CELLS,
};
use crate::groups::{
    connected, is_liberty, lemma_closed_holds_connected, lemma_positions_finite, lemma_connected_ends,
    lemma_connected_refl, lemma_connected_step, lemma_group_shares_liberties, liberties,
    liberty_at, liberty_count,
};

verus! {

/// What a cell holds once captures are resolved: a cell whose liberty count
/// is zero is emptied, every other cell keeps its tile.
pub open spec fn resolved_tile(c: Seq<TileState>, p: (int, int)) -> TileState {
    if liberty_at(c, p) == 0 {
        TileState::Empty
    } else {
        tile(c, p)
    }
}

/// `n` is the board `c` after one capture pass, all removals decided on the
/// counts of `c`.
pub open spec fn resolves(c: Seq<TileState>, n: Seq<TileState>) -> bool {
    &&& n.len() == NUM_CELLS
    &&& forall|p: (int, int)| in_bounds(p) ==> #[trigger] tile(n, p) == resolved_tile(c, p)
}

/// A stone next to an empty cell has at least one liberty.
pub proof fn lemma_empty_neighbor_is_liberty(c: Seq<TileState>, p: (int, int), e: (int, int))
    requires
        in_bounds(p),
        adjacent(p, e),
        tile(c, e) == TileState::Empty,
    ensures
        liberty_count(c, p) > 0,
{
    lemma_connected_refl(c, p);
    assert(is_liberty(c, p, e));
    assert(liberties(c, p).contains(e));
    lemma_positions_finite(liberties(c, p));
}

/// A stone with an empty orthogonal neighbour is never removed, whatever
/// surrounds it otherwise.
pub proof fn lemma_no_false_capture(c: Seq<TileState>, n: Seq<TileState>, p: (int, int), e: (int, int))
    requires
        resolves(c, n),
        in_bounds(p),
        tile(c, p) != TileState::Empty,
        adjacent(p, e),
        tile(c, e) == TileState::Empty,
    ensures
        tile(n, p) == tile(c, p),
{
    lemma_empty_neighbor_is_liberty(c, p, e);
}

/// After one capture pass every remaining stone has a liberty, so a second
/// pass on the result changes nothing.
pub proof fn lemma_capture_idempotent(c: Seq<TileState>, n: Seq<TileState>, n2: Seq<TileState>)
    requires
        c.len() == NUM_CELLS,
        resolves(c, n),
        resolves(n, n2),
    ensures
        n2 == n,
{
    assert forall|p: (int, int)| in_bounds(p) implies #[trigger] tile(n2, p) == tile(n, p) by {
        if tile(n, p) != TileState::Empty {
            lemma_survivor_keeps_liberty(c, n, p);
        }
    }
    assert forall|i: int| 0 <= i < NUM_CELLS implies #[trigger] n2[i] == n[i] by {
        let p = pos_of(i);
        assert(idx(p) == i);
        assert(tile(n2, p) == tile(n, p));
    }
    assert(n2 =~= n);
}

/// A board that just went through a capture pass is never full: on a full
/// board no group has a liberty, so every stone is removed.
pub proof fn lemma_resolved_board_not_full(c: Seq<TileState>, n: Seq<TileState>)
    requires
        c.len() == NUM_CELLS,
        resolves(c, n),
    ensures
        !full(n),
{
    let p = (0int, 0int);
    if tile(n, p) != TileState::Empty {
        assert(tile(n, p) == resolved_tile(c, p));
        assert(liberty_count(c, p) > 0);
        lemma_positions_finite(liberties(c, p));
        assert(liberties(c, p).len() > 0);
        let e = liberties(c, p).choose();
        assert(liberties(c, p).contains(e));
        assert(tile(n, e) == resolved_tile(c, e));
        assert(tile(n, e) == TileState::Empty);
    } else {
        assert(in_bounds(p));
    }
}

proof fn lemma_survivor_keeps_liberty(c: Seq<TileState>, n: Seq<TileState>, p: (int, int))
    requires
        c.len() == NUM_CELLS,
        resolves(c, n),
        in_bounds(p),
        tile(n, p) != TileState::Empty,
    ensures
        liberty_count(n, p) > 0,
{
    // `p` survived, so it was a stone with a liberty `e` next to a member `m`.
    assert(tile(n, p) == resolved_tile(c, p));
    assert(liberty_count(c, p) > 0);
    lemma_positions_finite(liberties(c, p));
    assert(liberties(c, p).len() > 0);
    let e = liberties(c, p).choose();
    assert(liberties(c, p).contains(e));
    let m = choose|m: (int, int)| #[trigger] connected(c, p, m) && adjacent(m, e);
    // The whole group of `p` survives with its connections.
    let both = Set::new(|a: (int, int)| connected(n, p, a) && connected(c, p, a));
    lemma_connected_refl(n, p);
    lemma_connected_refl(c, p);
    assert forall|a: (int, int), b: (int, int)|
        #[trigger] both.contains(a) && #[trigger] adjacent(a, b) && tile(c, b) == tile(c, p)
            implies both.contains(b) by {
        lemma_connected_step(c, p, a, b);
        lemma_group_shares_liberties(c, p, b);
        lemma_connected_ends(c, p, b);
        assert(tile(n, b) == resolved_tile(c, b));
        lemma_connected_step(n, p, a, b);
    }
    lemma_closed_holds_connected(c, p, both, m);
    assert(tile(n, e) == resolved_tile(c, e));
    assert(is_liberty(n, p, e));
    assert(liberties(n, p).contains(e));
    lemma_positions_finite(liberties(n, p));
}

impl GameState {
    /// Removes every group without liberties. All counts are computed first,
    /// then all removals are applied, so captures are simultaneous.
    pub fn handle_captures(&mut self)
        requires
            old(self).wf(),
        ensures
            final(self).wf(),
            resolves(old(self).cells(), final(self).cells()),
    {
        let ghost c = self.cells();
        let libs = self.get_liberties();
        let mut i: usize = 0;
        while i < NUM_CELLS
            invariant
                self.wf(),
                i <= NUM_CELLS,
                libs@.len() == NUM_CELLS,
                forall|p: (int, int)|
                    in_bounds(p) ==> #[trigger] libs@[idx(p)] as int == liberty_at(c, p),
                forall|p: (int, int)|
                    in_bounds(p) && idx(p) < i ==> #[trigger] tile(self.cells(), p) == resolved_tile(c, p),
                forall|p: (int, int)|
                    in_bounds(p) && idx(p) >= i ==> #[trigger] tile(self.cells(), p) == tile(c, p),
            decreases NUM_CELLS - i,
        {
            let pos = position_of(i);
            proof {
                assert(libs@[idx(pos_int(pos))] as int == liberty_at(c, pos_int(pos)));
            }
            let ghost prev = self.cells();
            if libs[i] == 0 {
                self.board.set(i, TileState::Empty);
            }
            proof {
                assert forall|p: (int, int)| in_bounds(p) && idx(p) < i + 1 implies #[trigger] tile(
                    self.cells(),
                    p,
                ) == resolved_tile(c, p) by {
                    if idx(p) == i {
                        assert(libs@[idx(p)] as int == liberty_at(c, p));
                        assert(tile(prev, p) == tile(c, p));
                    } else {
                        assert(tile(prev, p) == tile(self.cells(), p));
                    }
                }
                assert forall|p: (int, int)| in_bounds(p) && idx(p) >= i + 1 implies #[trigger] tile(
                    self.cells(),
                    p,
                ) == tile(c, p) by {
                    assert(tile(prev, p) == tile(self.cells(), p));
                }
            }
            i = i + 1;
        }
    }

    /// Places a stone of `color` at `pos` if that cell exists and is empty,
    /// then resolves captures on the whole board.
    pub fn apply_move(&mut self, pos: (usize, usize), color: TileState) -> (r: Result<(), MoveError>)
        requires
            old(self).wf(),
        ensures
            final(self).wf(),
            !in_bounds(pos_int(pos)) ==> r == Err::<(), MoveError>(MoveError::OutOfBounds)
                && final(self).cells() == old(self).cells(),
            in_bounds(pos_int(pos)) && tile(old(self).cells(), pos_int(pos)) != TileState::Empty
                ==> r == Err::<(), MoveError>(MoveError::OccupiedTile) && final(self).cells() == old(
                self,
            ).cells(),
            in_bounds(pos_int(pos)) && tile(old(self).cells(), pos_int(pos)) == TileState::Empty
                ==> r == Ok::<(), MoveError>(()) && resolves(
                old(self).cells().update(idx(pos_int(pos)), color),
                final(self).cells(),
            ),
    {
        match self.get(pos) {
            Err(e) => {
                return Err(e);
            },
            Ok(TileState::Empty) => {},
            Ok(_) => {
                return Err(MoveError::OccupiedTile);
            },
        }
        self.set_tile(pos, color);
        self.handle_captures();
        Ok(())
    }
}

} // verus!
