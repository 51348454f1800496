use vstd::prelude::*;
use vstd::set_lib::{
    lemma_int_range, lemma_len_subset, lemma_map_size, lemma_map_size_bound, set_int_range,
};
use crate::board::{
    adjacent, board_sized, idx, in_bounds, index_of, neighbors_of, pos_int, pos_of, position_of, tile,
    GameState, TileState, BOARD_SIZE, NUM_CELLS,
};

verus! {

/// A non-empty walk over orthogonal neighbours whose tiles all match the
/// first one.
pub open spec fn is_path(c: Seq<TileState>, s: Seq<(int, int)>) -> bool {
    &&& s.len() > 0
    &&& forall|i: int|
        0 <= i < s.len() ==> in_bounds(#[trigger] s[i]) && tile(c, s[i]) == tile(c, s[0])
    &&& forall|i: int| 0 <= i < s.len() - 1 ==> #[trigger] adjacent(s[i], s[i + 1])
}

/// `q` can be reached from `p` through orthogonal neighbours holding the
/// same tile as `p`.
pub open spec fn connected(c: Seq<TileState>, p: (int, int), q: (int, int)) -> bool {
    exists|s: Seq<(int, int)>| #[trigger] is_path(c, s) && s[0] == p && s.last() == q
}

/// The group of the stone at `p`: every position connected to it.
pub open spec fn group(c: Seq<TileState>, p: (int, int)) -> Set<(int, int)> {
    Set::new(|q: (int, int)| connected(c, p, q))
}

/// `e` is an empty position next to some member of the group of `p`.
pub open spec fn is_liberty(c: Seq<TileState>, p: (int, int), e: (int, int)) -> bool {
    &&& in_bounds(e)
    &&& tile(c, e) == TileState::Empty
    &&& exists|m: (int, int)| #[trigger] connected(c, p, m) && adjacent(m, e)
}

/// The distinct liberties of the group of `p`.
pub open spec fn liberties(c: Seq<TileState>, p: (int, int)) -> Set<(int, int)> {
    Set::new(|e: (int, int)| is_liberty(c, p, e))
}

pub open spec fn liberty_count(c: Seq<TileState>, p: (int, int)) -> nat {
    liberties(c, p).len()
}

pub proof fn lemma_connected_refl(c: Seq<TileState>, p: (int, int))
    requires
        in_bounds(p),
    ensures
        connected(c, p, p),
{
    let s = seq![p];
    assert(is_path(c, s));
}

pub proof fn lemma_connected_ends(c: Seq<TileState>, p: (int, int), q: (int, int))
    requires
        connected(c, p, q),
    ensures
        in_bounds(p),
        in_bounds(q),
        tile(c, q) == tile(c, p),
{
    let s = choose|s: Seq<(int, int)>| #[trigger] is_path(c, s) && s[0] == p && s.last() == q;
    assert(in_bounds(s[0]));
    assert(in_bounds(s[s.len() - 1]));
}

/// Extends a connection by one same-tile neighbour.
pub proof fn lemma_connected_step(
    c: Seq<TileState>,
    p: (int, int),
    q: (int, int),
    r: (int, int),
)
    requires
        connected(c, p, q),
        adjacent(q, r),
        tile(c, r) == tile(c, p),
    ensures
        connected(c, p, r),
{
    let s = choose|s: Seq<(int, int)>| #[trigger] is_path(c, s) && s[0] == p && s.last() == q;
    let t = s.push(r);
    assert forall|i: int| 0 <= i < t.len() - 1 implies #[trigger] adjacent(t[i], t[i + 1]) by {
        if i < s.len() - 1 {
            assert(adjacent(s[i], s[i + 1]));
        }
    }
    assert(is_path(c, t));
}

pub proof fn lemma_connected_symm(c: Seq<TileState>, p: (int, int), q: (int, int))
    requires
        connected(c, p, q),
    ensures
        connected(c, q, p),
{
    let s = choose|s: Seq<(int, int)>| #[trigger] is_path(c, s) && s[0] == p && s.last() == q;
    let n = s.len();
    let t = Seq::new(n, |i: int| s[n - 1 - i]);
    assert(in_bounds(s[n - 1]));
    assert forall|i: int| 0 <= i < t.len() - 1 implies #[trigger] adjacent(t[i], t[i + 1]) by {
        assert(adjacent(s[n - 2 - i], s[n - 2 - i + 1]));
    }
    assert forall|i: int| 0 <= i < t.len() implies in_bounds(#[trigger] t[i]) && tile(c, t[i])
        == tile(c, t[0]) by {
        assert(in_bounds(s[n - 1 - i]));
        assert(in_bounds(s[n - 1]));
    }
    assert(is_path(c, t));
}

pub proof fn lemma_connected_trans(
    c: Seq<TileState>,
    p: (int, int),
    q: (int, int),
    r: (int, int),
)
    requires
        connected(c, p, q),
        connected(c, q, r),
    ensures
        connected(c, p, r),
{
    let s = choose|s: Seq<(int, int)>| #[trigger] is_path(c, s) && s[0] == q && s.last() == r;
    lemma_path_prefixes(c, p, s);
}

proof fn lemma_path_prefixes(c: Seq<TileState>, p: (int, int), s: Seq<(int, int)>)
    requires
        is_path(c, s),
        connected(c, p, s[0]),
    ensures
        connected(c, p, s.last()),
    decreases s.len(),
{
    if s.len() > 1 {
        let t = s.drop_last();
        assert forall|i: int| 0 <= i < t.len() - 1 implies #[trigger] adjacent(t[i], t[i + 1]) by {
            assert(adjacent(s[i], s[i + 1]));
        }
        assert forall|i: int| 0 <= i < t.len() implies in_bounds(#[trigger] t[i]) && tile(c, t[i])
            == tile(c, t[0]) by {
            assert(in_bounds(s[i]));
        }
        assert(is_path(c, t));
        lemma_path_prefixes(c, p, t);
        assert(adjacent(s[s.len() - 2], s[s.len() - 2 + 1]));
        assert(in_bounds(s[s.len() - 1]));
        lemma_connected_ends(c, p, s[0]);
        lemma_connected_step(c, p, t.last(), s.last());
    }
}

/// A set of positions that holds `p` and is closed under same-tile
/// neighbours holds everything connected to `p`.
pub proof fn lemma_closed_holds_connected(
    c: Seq<TileState>,
    p: (int, int),
    m: Set<(int, int)>,
    q: (int, int),
)
    requires
        m.contains(p),
        forall|a: (int, int), b: (int, int)|
            #[trigger] m.contains(a) && #[trigger] adjacent(a, b) && tile(c, b) == tile(c, p)
                ==> m.contains(b),
        connected(c, p, q),
    ensures
        m.contains(q),
{
    let s = choose|s: Seq<(int, int)>| #[trigger] is_path(c, s) && s[0] == p && s.last() == q;
    lemma_closed_holds_path(c, p, m, s);
}

proof fn lemma_closed_holds_path(
    c: Seq<TileState>,
    p: (int, int),
    m: Set<(int, int)>,
    s: Seq<(int, int)>,
)
    requires
        m.contains(p),
        forall|a: (int, int), b: (int, int)|
            #[trigger] m.contains(a) && #[trigger] adjacent(a, b) && tile(c, b) == tile(c, p)
                ==> m.contains(b),
        is_path(c, s),
        s[0] == p,
    ensures
        m.contains(s.last()),
    decreases s.len(),
{
    if s.len() > 1 {
        let t = s.drop_last();
        assert forall|i: int| 0 <= i < t.len() - 1 implies #[trigger] adjacent(t[i], t[i + 1]) by {
            assert(adjacent(s[i], s[i + 1]));
        }
        assert forall|i: int| 0 <= i < t.len() implies in_bounds(#[trigger] t[i]) && tile(c, t[i])
            == tile(c, t[0]) by {
            assert(in_bounds(s[i]));
        }
        lemma_closed_holds_path(c, p, m, t);
        assert(adjacent(s[s.len() - 2], s[s.len() - 2 + 1]));
        assert(in_bounds(s[s.len() - 1]));
    }
}

/// Any set of on-board positions is finite.
pub proof fn lemma_positions_finite(m: Set<(int, int)>)
    requires
        forall|p: (int, int)| #[trigger] m.contains(p) ==> in_bounds(p),
    ensures
        m.finite(),
{
    let f = |i: int| pos_of(i);
    let r = set_int_range(0, NUM_CELLS as int);
    lemma_int_range(0, NUM_CELLS as int);
    let all = r.map(f);
    lemma_map_size_bound(r, all, f);
    assert forall|p: (int, int)| #[trigger] m.contains(p) implies all.contains(p) by {
        assert(f(idx(p)) == p);
        assert(r.contains(idx(p)));
    }
    lemma_len_subset(m, all);
}

/// A finite set of on-board positions has at most as many elements as the
/// board has cells.
pub proof fn lemma_positions_bounded(m: Set<(int, int)>)
    requires
        m.finite(),
        forall|p: (int, int)| #[trigger] m.contains(p) ==> in_bounds(p),
    ensures
        m.len() <= NUM_CELLS,
{
    let f = |p: (int, int)| idx(p);
    let im = m.map(f);
    assert(vstd::relations::injective_on(f, m)) by {
        assert forall|a: (int, int), b: (int, int)|
            m.contains(a) && m.contains(b) && #[trigger] f(a) == #[trigger] f(b) implies a == b by {
        }
    }
    lemma_map_size(m, im, f);
    lemma_int_range(0, NUM_CELLS as int);
    assert(im.subset_of(set_int_range(0, NUM_CELLS as int))) by {
        assert forall|i: int| #[trigger] im.contains(i) implies set_int_range(
            0,
            NUM_CELLS as int,
        ).contains(i) by {
            let a = choose|a: (int, int)| m.contains(a) && f(a) == i;
        }
    }
    lemma_len_subset(im, set_int_range(0, NUM_CELLS as int));
}

/// Every on-board orthogonal neighbour of `p` is listed by `neighbors_of`,
/// and each listed position is one.
pub proof fn lemma_neighbors_adjacent(p: (int, int))
    requires
        in_bounds(p),
    ensures
        forall|i: int|
            0 <= i < neighbors_of(p).len() ==> #[trigger] adjacent(p, neighbors_of(p)[i]),
        forall|r: (int, int)| #[trigger] adjacent(p, r) ==> neighbors_of(p).contains(r),
{
    let n = neighbors_of(p);
    assert forall|r: (int, int)| #[trigger] adjacent(p, r) implies n.contains(r) by {
        let l: Seq<(int, int)> = if p.0 > 0 { seq![(p.0 - 1, p.1)] } else { Seq::empty() };
        let rr: Seq<(int, int)> = if p.0 + 1 < BOARD_SIZE { seq![(p.0 + 1, p.1)] } else { Seq::empty() };
        let u: Seq<(int, int)> = if p.1 > 0 { seq![(p.0, p.1 - 1)] } else { Seq::empty() };
        let d: Seq<(int, int)> = if p.1 + 1 < BOARD_SIZE { seq![(p.0, p.1 + 1)] } else { Seq::empty() };
        assert(n == l + rr + u + d);
        if r == (p.0 - 1, p.1) {
            assert(n[0] == r);
        } else if r == (p.0 + 1, p.1) {
            assert(n[l.len() as int] == r);
        } else if r == (p.0, p.1 - 1) {
            assert(n[(l.len() + rr.len()) as int] == r);
        } else {
            assert(n[(l.len() + rr.len() + u.len()) as int] == r);
        }
    }
}

/// A vector of one `false` per cell.
fn all_unmarked() -> (r: Vec<bool>)
    ensures
        r@.len() == NUM_CELLS,
        forall|i: int| 0 <= i < NUM_CELLS ==> !#[trigger] r@[i],
{
    let mut r: Vec<bool> = Vec::new();
    let mut i: usize = 0;
    while i < NUM_CELLS
        invariant
            i <= NUM_CELLS,
            r@.len() == i,
            forall|j: int| 0 <= j < i ==> !#[trigger] r@[j],
        decreases NUM_CELLS - i,
    {
        r.push(false);
        i = i + 1;
    }
    r
}

/// What holds between steps of the traversal of the group of `s`: `seen`
/// is the set of queued positions, all connected to `s`, marked in
/// `visited`; the first `head` queued positions have had every neighbour
/// examined, and `found` is the set of liberties found so far, marked in
/// `libs` and counted by `count`.
pub open spec fn traversal_state(
    c: Seq<TileState>,
    s: (int, int),
    visited: Seq<bool>,
    libs: Seq<bool>,
    count: nat,
    found: Set<(int, int)>,
    seen: Set<(int, int)>,
    queue: Seq<(usize, usize)>,
    head: int,
) -> bool {
    &&& board_sized(c)
    &&& in_bounds(s)
    &&& tile(c, s) != TileState::Empty
    &&& visited.len() == NUM_CELLS
    &&& libs.len() == NUM_CELLS
    &&& 0 <= head <= queue.len()
    &&& queue.len() > 0
    &&& pos_int(queue[0]) == s
    &&& seen.finite()
    &&& queue.len() == seen.len()
    &&& forall|q: (int, int)| in_bounds(q) ==> (#[trigger] visited[idx(q)] <==> seen.contains(q))
    &&& forall|q: (int, int)| #[trigger] seen.contains(q) ==> in_bounds(q) && connected(c, s, q)
    &&& forall|i: int| 0 <= i < queue.len() ==> #[trigger] seen.contains(pos_int(queue[i]))
    &&& forall|q: (int, int)| #[trigger]
        seen.contains(q) ==> exists|i: int| 0 <= i < queue.len() && pos_int(queue[i]) == q
    &&& forall|i: int, r: (int, int)|
        0 <= i < head && #[trigger] adjacent(pos_int(queue[i]), r) && tile(c, r) == tile(c, s)
            ==> seen.contains(r)
    &&& forall|i: int, e: (int, int)|
        0 <= i < head && #[trigger] adjacent(pos_int(queue[i]), e) && tile(c, e)
            == TileState::Empty ==> found.contains(e)
    &&& forall|e: (int, int)| in_bounds(e) ==> (#[trigger] libs[idx(e)] <==> found.contains(e))
    &&& forall|e: (int, int)| #[trigger] found.contains(e) ==> is_liberty(c, s, e)
    &&& found.finite()
    &&& count == found.len()
}

impl GameState {
    /// Breadth-first traversal of the group of the stone at `start`: marks
    /// every member of the group, each exactly once, and counts the distinct
    /// empty cells next to it.
    pub fn explore_group(&self, start: (usize, usize)) -> (r: (Vec<bool>, usize))
        requires
            self.wf(),
            in_bounds(pos_int(start)),
            tile(self.cells(), pos_int(start)) != TileState::Empty,
        ensures
            r.0@.len() == NUM_CELLS,
            forall|q: (int, int)|
                in_bounds(q) ==> (#[trigger] r.0@[idx(q)] <==> group(self.cells(), pos_int(start)).contains(q)),
            r.1 == liberty_count(self.cells(), pos_int(start)),
    {
        let ghost c = self.cells();
        let ghost s = pos_int(start);
        let color = self.get_tile(start);
        let mut visited = all_unmarked();
        let mut libs = all_unmarked();
        let mut count: usize = 0;
        let ghost mut found: Set<(int, int)> = Set::empty();
        let ghost mut seen: Set<(int, int)> = Set::empty().insert(s);
        let mut queue: Vec<(usize, usize)> = Vec::new();
        queue.push(start);
        visited.set(index_of(start), true);
        let mut head: usize = 0;
        proof {
            lemma_connected_refl(c, s);
            assert(seen.len() == 1);
            assert forall|q: (int, int)| #[trigger] seen.contains(q) implies exists|i: int|
                0 <= i < queue@.len() && pos_int(queue@[i]) == q by {
                assert(pos_int(queue@[0]) == q);
            }
        }
        while head < queue.len()
            invariant
                self.wf(),
                c == self.cells(),
                s == pos_int(start),
                color == tile(c, s),
                traversal_state(c, s, visited@, libs@, count as nat, found, seen, queue@, head as int),
            decreases NUM_CELLS - head,
        {
            proof {
                lemma_positions_bounded(seen);
            }
            let u = queue[head];
            proof {
                assert(seen.contains(pos_int(queue@[head as int])));
            }
            let nbrs = Self::neighbors(u);
            proof {
                lemma_neighbors_adjacent(pos_int(u));
            }
            let mut k: usize = 0;
            while k < nbrs.len()
                invariant
                    self.wf(),
                    c == self.cells(),
                    s == pos_int(start),
                    color == tile(c, s),
                    traversal_state(c, s, visited@, libs@, count as nat, found, seen, queue@, head as int),
                    head < queue@.len(),
                    u == queue@[head as int],
                    in_bounds(pos_int(u)),
                    nbrs@.map_values(|q: (usize, usize)| pos_int(q)) == neighbors_of(pos_int(u)),
                    forall|i: int|
                        0 <= i < neighbors_of(pos_int(u)).len() ==> #[trigger] adjacent(
                            pos_int(u),
                            neighbors_of(pos_int(u))[i],
                        ),
                    k <= nbrs@.len(),
                    forall|j: int|
                        0 <= j < k && tile(c, #[trigger] pos_int(nbrs@[j])) == color ==> seen.contains(
                            pos_int(nbrs@[j]),
                        ),
                    forall|j: int|
                        0 <= j < k && tile(c, #[trigger] pos_int(nbrs@[j])) == TileState::Empty
                            ==> found.contains(pos_int(nbrs@[j])),
                decreases nbrs@.len() - k,
            {
                let v = nbrs[k];
                let ghost pv = pos_int(v);
                proof {
                    assert(neighbors_of(pos_int(u))[k as int] == pv);
                    assert(adjacent(pos_int(u), pv));
                    assert(seen.contains(pos_int(queue@[head as int])));
                }
                let t = self.get_tile(v);
                if t == color {
                    let vi = index_of(v);
                    if !visited[vi] {
                        proof {
                            lemma_connected_step(c, s, pos_int(u), pv);
                            lemma_connected_ends(c, s, pv);
                            lemma_positions_bounded(seen.insert(pv));
                        }
                        let ghost old_queue = queue@;
                        visited.set(vi, true);
                        queue.push(v);
                        proof {
                            let old_seen = seen;
                            seen = seen.insert(pv);
                            assert forall|q: (int, int)| #[trigger] seen.contains(q) implies exists|i: int|
                                0 <= i < queue@.len() && pos_int(queue@[i]) == q by {
                                if q == pv {
                                    assert(pos_int(queue@[queue@.len() - 1]) == q);
                                } else {
                                    assert(old_seen.contains(q));
                                    let i = choose|i: int| 0 <= i < old_queue.len() && pos_int(old_queue[i]) == q;
                                    assert(queue@[i] == old_queue[i]);
                                }
                            }
                        }
                    }
                } else if t == TileState::Empty {
                    let vi = index_of(v);
                    if !libs[vi] {
                        proof {
                            assert(is_liberty(c, s, pv));
                            lemma_positions_bounded(found.insert(pv));
                        }
                        libs.set(vi, true);
                        count = count + 1;
                        proof {
                            found = found.insert(pv);
                        }
                    }
                }
                k = k + 1;
            }
            proof {
                let pu = pos_int(u);
                assert forall|i: int, r: (int, int)|
                    0 <= i < head + 1 && #[trigger] adjacent(pos_int(queue@[i]), r) && tile(c, r) == tile(c, s)
                        implies seen.contains(r) by {
                    if i == head {
                        assert(neighbors_of(pu).contains(r));
                        let j = choose|j: int| 0 <= j < neighbors_of(pu).len() && neighbors_of(pu)[j] == r;
                        assert(pos_int(nbrs@[j]) == r);
                    }
                }
                assert forall|i: int, e: (int, int)|
                    0 <= i < head + 1 && #[trigger] adjacent(pos_int(queue@[i]), e) && tile(c, e) == TileState::Empty
                        implies found.contains(e) by {
                    if i == head {
                        assert(neighbors_of(pu).contains(e));
                        let j = choose|j: int| 0 <= j < neighbors_of(pu).len() && neighbors_of(pu)[j] == e;
                        assert(pos_int(nbrs@[j]) == e);
                    }
                }
            }
            head = head + 1;
        }
        proof {
            assert(seen.contains(s));
            assert forall|a: (int, int), b: (int, int)|
                #[trigger] seen.contains(a) && #[trigger] adjacent(a, b) && tile(c, b) == tile(c, s)
                    implies seen.contains(b) by {
                let i = choose|i: int| 0 <= i < queue@.len() && pos_int(queue@[i]) == a;
                assert(adjacent(pos_int(queue@[i]), b));
            }
            assert forall|q: (int, int)| in_bounds(q) implies (#[trigger] visited@[idx(q)] <==> group(c, s).contains(q)) by {
                if connected(c, s, q) {
                    lemma_closed_holds_connected(c, s, seen, q);
                }
            }
            assert forall|e: (int, int)| is_liberty(c, s, e) implies #[trigger] found.contains(e) by {
                let m = choose|m: (int, int)| #[trigger] connected(c, s, m) && adjacent(m, e);
                lemma_closed_holds_connected(c, s, seen, m);
                let i = choose|i: int| 0 <= i < queue@.len() && pos_int(queue@[i]) == m;
                assert(adjacent(pos_int(queue@[i]), e));
            }
            assert(found =~= liberties(c, s));
        }
        (visited, count)
    }
}


/// The liberty count reported for a cell: that of its group for a stone,
/// zero for an empty cell.
pub open spec fn liberty_at(c: Seq<TileState>, p: (int, int)) -> nat {
    if tile(c, p) == TileState::Empty {
        0
    } else {
        liberty_count(c, p)
    }
}

/// Two stones of one group have the same group and the same liberties, so
/// the count found for a group does not depend on which member the
/// traversal starts from, nor on the order in which cells are scanned.
pub proof fn lemma_group_shares_liberties(c: Seq<TileState>, p: (int, int), q: (int, int))
    requires
        connected(c, p, q),
    ensures
        group(c, p) == group(c, q),
        liberties(c, p) == liberties(c, q),
        liberty_count(c, p) == liberty_count(c, q),
{
    lemma_connected_symm(c, p, q);
    assert forall|r: (int, int)| connected(c, p, r) <==> connected(c, q, r) by {
        if connected(c, p, r) {
            lemma_connected_trans(c, q, p, r);
        }
        if connected(c, q, r) {
            lemma_connected_trans(c, p, q, r);
        }
    }
    assert(group(c, p) =~= group(c, q));
    assert forall|e: (int, int)| is_liberty(c, p, e) <==> is_liberty(c, q, e) by {
        if is_liberty(c, p, e) {
            let m = choose|m: (int, int)| #[trigger] connected(c, p, m) && adjacent(m, e);
            assert(connected(c, q, m));
        }
        if is_liberty(c, q, e) {
            let m = choose|m: (int, int)| #[trigger] connected(c, q, m) && adjacent(m, e);
            assert(connected(c, p, m));
        }
    }
    assert(liberties(c, p) =~= liberties(c, q));
}

/// Groups partition the stones of a board: every stone lies in its own
/// group, every member of a group is a stone of the same colour, and any
/// two groups are either the same group or have no member in common.
pub proof fn lemma_groups_partition(c: Seq<TileState>, p: (int, int), q: (int, int))
    requires
        c.len() == NUM_CELLS,
        in_bounds(p),
        in_bounds(q),
        tile(c, p) != TileState::Empty,
        tile(c, q) != TileState::Empty,
    ensures
        group(c, p).contains(p),
        forall|r: (int, int)| #[trigger]
            group(c, p).contains(r) ==> in_bounds(r) && tile(c, r) == tile(c, p),
        group(c, p) == group(c, q) || group(c, p).disjoint(group(c, q)),
{
    lemma_connected_refl(c, p);
    assert forall|r: (int, int)| #[trigger] group(c, p).contains(r) implies in_bounds(r) && tile(
        c,
        r,
    ) == tile(c, p) by {
        lemma_connected_ends(c, p, r);
    }
    if !group(c, p).disjoint(group(c, q)) {
        let r = choose|r: (int, int)| group(c, p).contains(r) && group(c, q).contains(r);
        lemma_connected_symm(c, q, r);
        lemma_connected_trans(c, p, r, q);
        lemma_group_shares_liberties(c, p, q);
    }
}

/// A vector of one zero per cell.
fn all_zero() -> (r: Vec<usize>)
    ensures
        r@.len() == NUM_CELLS,
        forall|i: int| 0 <= i < NUM_CELLS ==> #[trigger] r@[i] == 0,
{
    let mut r: Vec<usize> = Vec::new();
    let mut i: usize = 0;
    while i < NUM_CELLS
        invariant
            i <= NUM_CELLS,
            r@.len() == i,
            forall|j: int| 0 <= j < i ==> #[trigger] r@[j] == 0,
        decreases NUM_CELLS - i,
    {
        r.push(0);
        i = i + 1;
    }
    r
}

impl GameState {
    /// The liberty count of every cell, indexed like the board: each group
    /// is traversed once, from its first cell in scan order, and its count
    /// is given to all its members; empty cells get zero.
    pub fn get_liberties(&self) -> (r: Vec<usize>)
        requires
            self.wf(),
        ensures
            r@.len() == NUM_CELLS,
            forall|p: (int, int)|
                in_bounds(p) ==> #[trigger] r@[idx(p)] as int == liberty_at(self.cells(), p),
    {
        let ghost c = self.cells();
        let mut result = all_zero();
        let mut done = all_unmarked();
        let mut i: usize = 0;
        while i < NUM_CELLS
            invariant
                self.wf(),
                c == self.cells(),
                i <= NUM_CELLS,
                result@.len() == NUM_CELLS,
                done@.len() == NUM_CELLS,
                forall|p: (int, int)|
                    in_bounds(p) && #[trigger] done@[idx(p)] ==> result@[idx(p)] as int == liberty_at(c, p),
                forall|j: int| 0 <= j < i ==> #[trigger] done@[j],
            decreases NUM_CELLS - i,
        {
            if !done[i] {
                let pos = position_of(i);
                let ghost p = pos_int(pos);
                if self.board[i] == TileState::Empty {
                    result.set(i, 0);
                    done.set(i, true);
                } else {
                    let (members, count) = self.explore_group(pos);
                    proof {
                        lemma_connected_refl(c, p);
                    }
                    let mut j: usize = 0;
                    while j < NUM_CELLS
                        invariant
                            self.wf(),
                            c == self.cells(),
                            i < NUM_CELLS,
                            j <= NUM_CELLS,
                            in_bounds(p),
                            idx(p) == i,
                            tile(c, p) != TileState::Empty,
                            count == liberty_count(c, p),
                            members@.len() == NUM_CELLS,
                            forall|q: (int, int)|
                                in_bounds(q) ==> (#[trigger] members@[idx(q)] <==> group(c, p).contains(q)),
                            result@.len() == NUM_CELLS,
                            done@.len() == NUM_CELLS,
                            forall|q: (int, int)|
                                in_bounds(q) && #[trigger] done@[idx(q)] ==> result@[idx(q)] as int
                                    == liberty_at(c, q),
                            forall|jj: int| 0 <= jj < i ==> #[trigger] done@[jj],
                            forall|jj: int| 0 <= jj < j && #[trigger] members@[jj] ==> done@[jj],
                        decreases NUM_CELLS - j,
                    {
                        if members[j] {
                            let qpos = position_of(j);
                            let ghost q = pos_int(qpos);
                            proof {
                                assert(members@[idx(q)]);
                                lemma_connected_ends(c, p, q);
                                lemma_group_shares_liberties(c, p, q);
                            }
                            result.set(j, count);
                            done.set(j, true);
                        }
                        j = j + 1;
                    }
                    proof {
                        assert(members@[idx(p)]);
                    }
                }
            }
            i = i + 1;
        }
        proof {
            assert forall|p: (int, int)| in_bounds(p) implies #[trigger] result@[idx(p)] as int
                == liberty_at(c, p) by {
                assert(done@[idx(p)]);
            }
        }
        result
    }
}

} // verus!
