use vstd::prelude::*;
use vstd::string::*;
use crate::board::{tile, GameState, Move, TileState, BOARD_SIZE};

verus! {

pub open spec fn is_digit(b: u8) -> bool {
    48 <= b <= 57
}

/// A non-empty run of ASCII decimal digits.
pub open spec fn all_digits(s: Seq<u8>) -> bool {
    s.len() > 0 && forall|i: int| 0 <= i < s.len() ==> is_digit(#[trigger] s[i])
}

/// The base-10 value of a run of digits.
pub open spec fn digits_value(s: Seq<u8>) -> int
    decreases s.len(),
{
    if s.len() == 0 {
        0
    } else {
        digits_value(s.drop_last()) * 10 + (s.last() - 48)
    }
}

/// `b` is two runs of digits with a comma at `k` between them.
pub open spec fn stone_split(b: Seq<u8>, k: int) -> bool {
    &&& 0 <= k < b.len()
    &&& b[k] == 44
    &&& all_digits(b.subrange(0, k))
    &&& all_digits(b.subrange(k + 1, b.len() as int))
}

/// The bytes of the word `pass`.
pub open spec fn pass_text() -> Seq<u8> {
    seq![112u8, 97u8, 115u8, 115u8]
}

/// The move a message spells: `pass`, or `<x>,<y>` with both coordinates
/// base-10 numbers that fit in a `usize`; `None` for anything else.
pub open spec fn move_of(b: Seq<u8>) -> Option<Move> {
    if b == pass_text() {
        Some(Move::Pass)
    } else if exists|k: int| stone_split(b, k) {
        let k = choose|k: int| stone_split(b, k);
        let x = digits_value(b.subrange(0, k));
        let y = digits_value(b.subrange(k + 1, b.len() as int));
        if x <= usize::MAX && y <= usize::MAX {
            Some(Move::Stone((x as usize, y as usize)))
        } else {
            None
        }
    } else {
        None
    }
}

proof fn lemma_digits_prefix(s: Seq<u8>, j: int)
    requires
        forall|i: int| 0 <= i < s.len() ==> is_digit(#[trigger] s[i]),
        0 <= j <= s.len(),
    ensures
        0 <= digits_value(s.subrange(0, j)) <= digits_value(s),
    decreases s.len(),
{
    if s.len() > 0 {
        let t = s.drop_last();
        if j < s.len() {
            assert(t.subrange(0, j) =~= s.subrange(0, j));
            lemma_digits_prefix(t, j);
        } else {
            assert(s.subrange(0, j) =~= s);
            lemma_digits_prefix(t, 0);
        }
        lemma_digits_prefix(t, t.len() as int);
        assert(t.subrange(0, t.len() as int) =~= t);
    } else {
        assert(s.subrange(0, j) =~= s);
    }
}

/// Reads the digits of `b[lo..hi]` as a number, if they are all digits and
/// the number fits.
fn parse_number(b: &[u8], lo: usize, hi: usize) -> (r: Option<usize>)
    requires
        lo <= hi <= b@.len(),
    ensures
        r is Some <==> all_digits(b@.subrange(lo as int, hi as int)) && digits_value(
            b@.subrange(lo as int, hi as int),
        ) <= usize::MAX,
        r is Some ==> r->0 == digits_value(b@.subrange(lo as int, hi as int)),
{
    let ghost s = b@.subrange(lo as int, hi as int);
    if lo == hi {
        return None;
    }
    let mut acc: usize = 0;
    let mut j: usize = lo;
    while j < hi
        invariant
            lo <= j <= hi <= b@.len(),
            s == b@.subrange(lo as int, hi as int),
            forall|i: int| lo <= i < j ==> is_digit(#[trigger] b@[i]),
            acc == digits_value(b@.subrange(lo as int, j as int)),
        decreases hi - j,
    {
        let d = b[j];
        if d < 48 || d > 57 {
            proof {
                assert(!is_digit(s[j - lo]));
            }
            return None;
        }
        proof {
            assert(b@.subrange(lo as int, j + 1).drop_last() =~= b@.subrange(lo as int, j as int));
        }
        let next = match acc.checked_mul(10) {
            Some(m) => m.checked_add((d - 48) as usize),
            None => None,
        };
        match next {
            Some(v) => {
                acc = v;
            },
            None => {
                proof {
                    if all_digits(s) {
                        lemma_digits_prefix(s, j + 1 - lo);
                        assert(s.subrange(0, j + 1 - lo) =~= b@.subrange(lo as int, j + 1));
                    }
                }
                return None;
            },
        }
        j = j + 1;
    }
    proof {
        assert(b@.subrange(lo as int, j as int) =~= s);
    }
    Some(acc)
}

/// Reads a move message: `pass`, or `<x>,<y>` in base 10.
pub fn parse_move(message: &str) -> (r: Option<Move>)
    ensures
        r == move_of(message.spec_bytes()),
{
    let b = message.as_bytes();
    let n = b.len();
    if n == 4 && b[0] == 112 && b[1] == 97 && b[2] == 115 && b[3] == 115 {
        proof {
            assert(b@ =~= pass_text());
        }
        return Some(Move::Pass);
    }
    proof {
        if b@ == pass_text() {
            assert(b@[0] == 112 && b@[1] == 97 && b@[2] == 115 && b@[3] == 115);
        }
    }
    let mut k: usize = 0;
    while k < n && b[k] != 44
        invariant
            k <= n == b@.len(),
            forall|i: int| 0 <= i < k ==> b@[i] != 44,
        decreases n - k,
    {
        k = k + 1;
    }
    proof {
        assert forall|k2: int| stone_split(b@, k2) implies k2 == k by {
            if k2 < k {
                assert(b@[k2] != 44);
            }
            if k < k2 {
                assert(b@.subrange(0, k2)[k as int] == b@[k as int]);
                assert(is_digit(b@.subrange(0, k2)[k as int]));
            }
        }
    }
    if k == n {
        return None;
    }
    let x = parse_number(b, 0, k);
    let y = parse_number(b, k + 1, n);
    match (x, y) {
        (Some(x), Some(y)) => {
            proof {
                assert(stone_split(b@, k as int));
            }
            Some(Move::Stone((x, y)))
        },
        _ => None,
    }
}

/// The character that shows a tile.
pub open spec fn symbol(t: TileState) -> char {
    match t {
        TileState::Empty => '.',
        TileState::White => 'W',
        TileState::Black => 'B',
    }
}

/// The first `n` cells of the row with second coordinate `y`.
pub open spec fn row_prefix(c: Seq<TileState>, y: int, n: int) -> Seq<char> {
    Seq::new(n as nat, |x: int| symbol(tile(c, (x, y))))
}

/// The first `n` lines of the rendering, each a row ended by a newline.
pub open spec fn board_text(c: Seq<TileState>, n: int) -> Seq<char>
    decreases n,
{
    if n <= 0 {
        Seq::empty()
    } else {
        board_text(c, n - 1) + row_prefix(c, n - 1, BOARD_SIZE as int).push('\n')
    }
}

/// The whole rendering of a board.
pub open spec fn rendering(c: Seq<TileState>) -> Seq<char> {
    board_text(c, BOARD_SIZE as int)
}

impl GameState {
    /// One line per value of the second coordinate, one character per cell.
    pub fn to_string(&self) -> (r: String)
        requires
            self.wf(),
        ensures
            r@ == rendering(self.cells()),
    {
        let ghost c = self.cells();
        let mut r = String::new();
        let mut y: usize = 0;
        while y < BOARD_SIZE
            invariant
                self.wf(),
                c == self.cells(),
                y <= BOARD_SIZE,
                r@ == board_text(c, y as int),
            decreases BOARD_SIZE - y,
        {
            let mut x: usize = 0;
            while x < BOARD_SIZE
                invariant
                    self.wf(),
                    c == self.cells(),
                    y < BOARD_SIZE,
                    x <= BOARD_SIZE,
                    r@ == board_text(c, y as int) + row_prefix(c, y as int, x as int),
                decreases BOARD_SIZE - x,
            {
                let ghost before = r@;
                match self.get_tile((x, y)) {
                    TileState::Empty => {
                        proof {
                            reveal_strlit(".");
                        }
                        r.append(".");
                    },
                    TileState::White => {
                        proof {
                            reveal_strlit("W");
                        }
                        r.append("W");
                    },
                    TileState::Black => {
                        proof {
                            reveal_strlit("B");
                        }
                        r.append("B");
                    },
                }
                proof {
                    assert(row_prefix(c, y as int, x + 1) =~= row_prefix(c, y as int, x as int).push(
                        symbol(tile(c, (x as int, y as int))),
                    ));
                    assert(r@ =~= board_text(c, y as int) + row_prefix(c, y as int, x + 1));
                }
                x = x + 1;
            }
            proof {
                reveal_strlit("\n");
            }
            r.append("\n");
            proof {
                assert(r@ =~= board_text(c, y + 1));
            }
            y = y + 1;
        }
        r
    }
}

} // verus!
