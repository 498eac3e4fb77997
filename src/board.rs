use rand::Rng;
use vstd::prelude::*;

verus! {

/// Side length of the square board.
pub const SIDE: usize = 8;

/// Number of cells on the board.
pub const CELLS: usize = 64;

/// Number of mines placed on a generated board.
pub const MINE_COUNT: usize = 16;

/// Value stored in the count layer for a cell that holds a mine.
pub const THE_BOMB: i8 = 99;

/// What the player sees of one cell.
#[derive(Clone, Copy, Debug, Default, PartialEq, Eq, Structural, Hash)]
pub enum TileState {
    #[default]
    Concealed,
    Flagged,
    Stepped,
    Detonated,
    Revealed,
}

/// The cell `(x, y)` (row `x`, column `y`) lies on the board.
pub open spec fn in_grid(x: int, y: int) -> bool {
    0 <= x < 8 && 0 <= y < 8
}

/// Position of cell `(x, y)` in the row-major cell sequence.
pub open spec fn cell(x: int, y: int) -> int {
    x * 8 + y
}

/// `(a, b)` is one of the up to eight cells around `(x, y)`.
pub open spec fn adjacent(x: int, y: int, a: int, b: int) -> bool {
    &&& in_grid(a, b)
    &&& (a != x || b != y)
    &&& x - 1 <= a <= x + 1
    &&& y - 1 <= b <= y + 1
}

/// Number of concealed tiles among the first `n` cells.
pub open spec fn concealed_in(tiles: Seq<TileState>, n: int) -> nat
    decreases n,
{
    if n <= 0 {
        0
    } else {
        concealed_in(tiles, n - 1) + if tiles[n - 1] == TileState::Concealed {
            1nat
        } else {
            0nat
        }
    }
}

/// Number of mines among the first `n` cells.
pub open spec fn mines_in(counts: Seq<i8>, n: int) -> nat
    decreases n,
{
    if n <= 0 {
        0
    } else {
        mines_in(counts, n - 1) + if counts[n - 1] == THE_BOMB {
            1nat
        } else {
            0nat
        }
    }
}

/// Mathematical picture of a board: per cell, its mine-or-count value and
/// its tile state, both in row-major order.
pub struct BoardView {
    pub counts: Seq<i8>,
    pub tiles: Seq<TileState>,
}

impl BoardView {
    pub open spec fn mine(self, x: int, y: int) -> bool {
        self.counts[cell(x, y)] == THE_BOMB
    }

    pub open spec fn tile(self, x: int, y: int) -> TileState {
        self.tiles[cell(x, y)]
    }

    pub open spec fn count(self, x: int, y: int) -> int {
        self.counts[cell(x, y)] as int
    }

    /// 1 when `(a, b)` is on the board and holds a mine, else 0.
    pub open spec fn mine_at(self, a: int, b: int) -> int {
        if in_grid(a, b) && self.mine(a, b) {
            1
        } else {
            0
        }
    }

    /// The number of mines among the eight cells around `(x, y)`.
    pub open spec fn adjacent_mines(self, x: int, y: int) -> int {
        self.mine_at(x - 1, y - 1) + self.mine_at(x - 1, y) + self.mine_at(x - 1, y + 1)
            + self.mine_at(x, y - 1) + self.mine_at(x, y + 1) + self.mine_at(x + 1, y - 1)
            + self.mine_at(x + 1, y) + self.mine_at(x + 1, y + 1)
    }

    /// Well-formed: 64 cells; every safe cell stores its true adjacency
    /// count; only mines are ever shown as detonated or revealed.
    pub open spec fn wf(self) -> bool {
        &&& self.counts.len() == 64
        &&& self.tiles.len() == 64
        &&& forall|x: int, y: int|
            in_grid(x, y) && !#[trigger] self.mine(x, y) ==> self.count(x, y)
                == self.adjacent_mines(x, y)
        &&& forall|x: int, y: int|
            in_grid(x, y) && (#[trigger] self.tile(x, y) == TileState::Detonated || self.tile(x, y)
                == TileState::Revealed) ==> self.mine(x, y)
    }

    /// Number of mines on the board.
    pub open spec fn mine_total(self) -> nat {
        mines_in(self.counts, 64)
    }

    /// Number of concealed tiles on the board.
    pub open spec fn concealed_total(self) -> nat {
        concealed_in(self.tiles, 64)
    }

    pub open spec fn all_concealed(self) -> bool {
        forall|x: int, y: int| in_grid(x, y) ==> #[trigger] self.tile(x, y) == TileState::Concealed
    }

    /// Every concealed or flagged tile hides a mine.
    pub open spec fn closed_are_mines(self) -> bool {
        forall|x: int, y: int|
            in_grid(x, y) && (#[trigger] self.tile(x, y) == TileState::Concealed || self.tile(x, y)
                == TileState::Flagged) ==> self.mine(x, y)
    }

    /// Every cell without a mine has been stepped on.
    pub open spec fn safe_all_stepped(self) -> bool {
        forall|x: int, y: int|
            in_grid(x, y) && !#[trigger] self.mine(x, y) ==> self.tile(x, y) == TileState::Stepped
    }

    pub open spec fn any_detonated(self) -> bool {
        exists|x: int, y: int| in_grid(x, y) && #[trigger] self.tile(x, y) == TileState::Detonated
    }

    /// The round is won: all safe cells stepped, no mine detonated.
    pub open spec fn won(self) -> bool {
        self.safe_all_stepped() && !self.any_detonated()
    }

    /// No tile around `(x, y)` is still concealed.
    pub open spec fn settled(self, x: int, y: int) -> bool {
        forall|a: int, b: int| adjacent(x, y, a, b) ==> #[trigger] self.tile(a, b) != TileState::Concealed
    }

    pub open spec fn with_tile(self, x: int, y: int, t: TileState) -> BoardView {
        BoardView { counts: self.counts, tiles: self.tiles.update(cell(x, y), t) }
    }

    pub open spec fn flagged(self, x: int, y: int) -> BoardView {
        if self.tile(x, y) == TileState::Concealed {
            self.with_tile(x, y, TileState::Flagged)
        } else {
            self
        }
    }

    pub open spec fn unflagged(self, x: int, y: int) -> BoardView {
        if self.tile(x, y) == TileState::Flagged {
            self.with_tile(x, y, TileState::Concealed)
        } else {
            self
        }
    }

    pub open spec fn toggled(self, x: int, y: int) -> BoardView {
        if self.tile(x, y) == TileState::Flagged {
            self.with_tile(x, y, TileState::Concealed)
        } else if self.tile(x, y) == TileState::Concealed {
            self.with_tile(x, y, TileState::Flagged)
        } else {
            self
        }
    }

    /// Every mine except the cell at position `skip` shown as `t`.
    pub open spec fn mines_shown(self, skip: int, t: TileState) -> BoardView {
        BoardView {
            counts: self.counts,
            tiles: Seq::new(
                self.tiles.len(),
                |i: int|
                    if i != skip && self.counts[i] == THE_BOMB {
                        t
                    } else {
                        self.tiles[i]
                    },
            ),
        }
    }
}

/// `after` differs from `before` only where a concealed safe tile was
/// stepped on; the counts are untouched.
pub open spec fn only_safe_opened(before: BoardView, after: BoardView) -> bool {
    &&& after.counts == before.counts
    &&& after.tiles.len() == before.tiles.len()
    &&& forall|x: int, y: int|
        in_grid(x, y) ==> #[trigger] after.tile(x, y) == before.tile(x, y) || (before.tile(x, y)
            == TileState::Concealed && after.tile(x, y) == TileState::Stepped && !before.mine(x, y))
}

/// `(a, b)` was opened by revealing `(x, y)`: it is `(x, y)` itself or a
/// tile that was concealed before and is stepped on after.
pub open spec fn opened_by(before: BoardView, after: BoardView, x: int, y: int, a: int, b: int) -> bool {
    &&& after.tile(a, b) == TileState::Stepped
    &&& (a == x && b == y) || before.tile(a, b) == TileState::Concealed
}

/// Every opened cell with no mine around it has all its neighbours open.
pub open spec fn flood_closed(before: BoardView, after: BoardView, x: int, y: int) -> bool {
    forall|a: int, b: int|
        in_grid(a, b) && #[trigger] opened_by(before, after, x, y, a, b) && after.count(a, b) == 0
            ==> after.settled(a, b)
}

/// `(a, b)` is `(x, y)`, or is joined to it by a chain of at most `n`
/// steps, each to a neighbouring opened cell with no mine around it.
pub open spec fn linked(before: BoardView, after: BoardView, x: int, y: int, a: int, b: int, n: nat) -> bool
    decreases n,
{
    if a == x && b == y {
        true
    } else if n == 0 {
        false
    } else {
        exists|p: int, q: int|
            adjacent(a, b, p, q) && #[trigger] opened_by(before, after, x, y, p, q) && after.count(p, q) == 0
                && linked(before, after, x, y, p, q, (n - 1) as nat)
    }
}

/// Every opened cell is reached from `(x, y)` through opened cells with no
/// mine around them.
#[verifier::opaque]
pub open spec fn flood_connected(before: BoardView, after: BoardView, x: int, y: int) -> bool {
    forall|a: int, b: int|
        in_grid(a, b) && #[trigger] opened_by(before, after, x, y, a, b) ==> exists|n: nat|
            linked(before, after, x, y, a, b, n)
}

/// Chains carry over to a board where at least the same cells are opened.
proof fn lemma_linked_carries(
    b1: BoardView,
    a1: BoardView,
    b2: BoardView,
    a2: BoardView,
    x: int,
    y: int,
    a: int,
    b: int,
    n: nat,
)
    requires
        linked(b1, a1, x, y, a, b, n),
        a2.counts == a1.counts,
        forall|p: int, q: int|
            in_grid(p, q) && #[trigger] opened_by(b1, a1, x, y, p, q) ==> opened_by(b2, a2, x, y, p, q),
    ensures
        linked(b2, a2, x, y, a, b, n),
    decreases n,
{
    if !(a == x && b == y) {
        let (p, q) = choose|p: int, q: int|
            adjacent(a, b, p, q) && #[trigger] opened_by(b1, a1, x, y, p, q) && a1.count(p, q) == 0
                && linked(b1, a1, x, y, p, q, (n - 1) as nat);
        lemma_linked_carries(b1, a1, b2, a2, x, y, p, q, (n - 1) as nat);
        assert(opened_by(b2, a2, x, y, p, q));
    }
}

/// The `k`-th cell, in row-major order, of the 3×3 block centred on
/// `(x, y)`.
pub open spec fn block_cell(x: int, y: int, k: int) -> (int, int) {
    (x - 1 + k / 3, y - 1 + k % 3)
}

/// Position of `(a, b)` in the 3×3 block centred on `(x, y)`.
pub open spec fn block_index(x: int, y: int, a: int, b: int) -> int {
    (a - x + 1) * 3 + (b - y + 1)
}

/// The cells around `(x, y)` that lie on the board, among the first `k`
/// cells of its block, in row-major order.
pub open spec fn neighbours_upto(x: int, y: int, k: int) -> Seq<(usize, usize)>
    decreases k,
{
    if k <= 0 {
        Seq::empty()
    } else {
        let p = neighbours_upto(x, y, k - 1);
        let c = block_cell(x, y, k - 1);
        if adjacent(x, y, c.0, c.1) {
            p.push((c.0 as usize, c.1 as usize))
        } else {
            p
        }
    }
}

/// The cells around `(x, y)` that lie on the board, in row-major order.
pub open spec fn neighbour_seq(x: int, y: int) -> Seq<(usize, usize)> {
    neighbours_upto(x, y, 9)
}

proof fn lemma_block(x: int, y: int, a: int, b: int, k: int)
    requires
        0 <= k < 9,
    ensures
        block_index(x, y, block_cell(x, y, k).0, block_cell(x, y, k).1) == k,
        x - 1 <= a <= x + 1 && y - 1 <= b <= y + 1 ==> block_cell(x, y, block_index(x, y, a, b)) == (a, b)
            && 0 <= block_index(x, y, a, b) < 9,
{
    assert(k == (k / 3) * 3 + k % 3);
    if x - 1 <= a <= x + 1 && y - 1 <= b <= y + 1 {
        let m = block_index(x, y, a, b);
        assert(m / 3 == a - x + 1 && m % 3 == b - y + 1);
    }
}

proof fn lemma_neighbours_upto(x: int, y: int, k: int)
    requires
        in_grid(x, y),
        0 <= k <= 9,
    ensures
        forall|i: int|
            0 <= i < neighbours_upto(x, y, k).len() ==> adjacent(
                x,
                y,
                #[trigger] neighbours_upto(x, y, k)[i].0 as int,
                neighbours_upto(x, y, k)[i].1 as int,
            ) && block_index(x, y, neighbours_upto(x, y, k)[i].0 as int, neighbours_upto(x, y, k)[i].1 as int) < k,
        forall|i: int, j: int|
            0 <= i < j < neighbours_upto(x, y, k).len() ==> block_index(
                x,
                y,
                #[trigger] neighbours_upto(x, y, k)[i].0 as int,
                neighbours_upto(x, y, k)[i].1 as int,
            ) < block_index(x, y, #[trigger] neighbours_upto(x, y, k)[j].0 as int, neighbours_upto(x, y, k)[j].1 as int),
        forall|a: int, b: int|
            adjacent(x, y, a, b) && block_index(x, y, a, b) < k ==> #[trigger] neighbours_upto(x, y, k).contains(
                (a as usize, b as usize),
            ),
    decreases k,
{
    if k > 0 {
        lemma_neighbours_upto(x, y, k - 1);
        let p = neighbours_upto(x, y, k - 1);
        let s = neighbours_upto(x, y, k);
        let c = block_cell(x, y, k - 1);
        lemma_block(x, y, c.0, c.1, k - 1);
        assert forall|a: int, b: int|
            adjacent(x, y, a, b) && block_index(x, y, a, b) < k implies #[trigger] s.contains(
            (a as usize, b as usize),
        ) by {
            lemma_block(x, y, a, b, 0);
            if block_index(x, y, a, b) < k - 1 {
                assert(p.contains((a as usize, b as usize)));
                let i = choose|i: int| 0 <= i < p.len() && p[i] == (a as usize, b as usize);
                assert(s[i] == p[i]);
            } else {
                assert(c == (a, b));
                assert(s[p.len() as int] == (a as usize, b as usize));
            }
        }
        assert forall|i: int| 0 <= i < s.len() implies adjacent(x, y, #[trigger] s[i].0 as int, s[i].1 as int)
            && block_index(x, y, s[i].0 as int, s[i].1 as int) < k by {
            if i < p.len() {
                assert(s[i] == p[i]);
            }
        }
        assert forall|i: int, j: int| 0 <= i < j < s.len() implies block_index(
            x,
            y,
            #[trigger] s[i].0 as int,
            s[i].1 as int,
        ) < block_index(x, y, #[trigger] s[j].0 as int, s[j].1 as int) by {
            assert(s[i] == p[i]);
            if j < p.len() {
                assert(s[j] == p[j]);
            }
        }
    }
}

/// The cells around `(x, y)` that lie on the board, in row-major order.
pub fn neighbours(x: usize, y: usize) -> (r: Vec<(usize, usize)>)
    requires
        in_grid(x as int, y as int),
    ensures
        r@ == neighbour_seq(x as int, y as int),
        r@.no_duplicates(),
        forall|k: int| 0 <= k < r.len() ==> adjacent(x as int, y as int, #[trigger] r[k].0 as int, r[k].1 as int),
        forall|a: int, b: int|
            adjacent(x as int, y as int, a, b) ==> #[trigger] r@.contains((a as usize, b as usize)),
{
    let mut r: Vec<(usize, usize)> = Vec::new();
    let mut k: usize = 0;
    while k < 9
        invariant
            in_grid(x as int, y as int),
            k <= 9,
            r@ == neighbours_upto(x as int, y as int, k as int),
        decreases 9 - k,
    {
        let a = x + k / 3;
        let b = y + k % 3;
        proof {
            lemma_block(x as int, y as int, 0, 0, k as int);
        }
        if a >= 1 && a - 1 < SIDE && b >= 1 && b - 1 < SIDE && k != 4 {
            r.push((a - 1, b - 1));
        }
        k += 1;
    }
    proof {
        let (xi, yi) = (x as int, y as int);
        lemma_neighbours_upto(xi, yi, 9);
        assert forall|i: int, j: int| 0 <= i < r.len() && 0 <= j < r.len() && i != j implies r@[i] != r@[j] by {
            if i < j {
                assert(block_index(xi, yi, r@[i].0 as int, r@[i].1 as int) < block_index(xi, yi, r@[j].0 as int, r@[j].1 as int));
            } else {
                assert(block_index(xi, yi, r@[j].0 as int, r@[j].1 as int) < block_index(xi, yi, r@[i].0 as int, r@[i].1 as int));
            }
        }
        assert forall|a: int, b: int| adjacent(xi, yi, a, b) implies #[trigger] r@.contains((a as usize, b as usize)) by {
            lemma_block(xi, yi, a, b, 0);
        }
    }
    r
}

/// Number of marked cells among the first `n` entries of a layout.
pub open spec fn marked_in(layout: Seq<bool>, n: int) -> nat
    decreases n,
{
    if n <= 0 {
        0
    } else {
        marked_in(layout, n - 1) + if layout[n - 1] {
            1nat
        } else {
            0nat
        }
    }
}

/// 1 when `(a, b)` is on the board and marked in the layout, else 0.
pub open spec fn layout_at(layout: Seq<bool>, a: int, b: int) -> int {
    if in_grid(a, b) && layout[cell(a, b)] {
        1
    } else {
        0
    }
}

/// The number of marked cells among the eight around `(x, y)`.
pub open spec fn layout_adjacent(layout: Seq<bool>, x: int, y: int) -> int {
    layout_at(layout, x - 1, y - 1) + layout_at(layout, x - 1, y) + layout_at(layout, x - 1, y + 1)
        + layout_at(layout, x, y - 1) + layout_at(layout, x, y + 1) + layout_at(layout, x + 1, y - 1)
        + layout_at(layout, x + 1, y) + layout_at(layout, x + 1, y + 1)
}

proof fn lemma_marked_set(layout: Seq<bool>, i: int, n: int)
    requires
        0 <= i < layout.len(),
        !layout[i],
        0 <= n <= layout.len(),
    ensures
        marked_in(layout.update(i, true), n) == marked_in(layout, n) + if i < n {
            1int
        } else {
            0int
        },
    decreases n,
{
    if n > 0 {
        lemma_marked_set(layout, i, n - 1);
    }
}

proof fn lemma_mines_match(counts: Seq<i8>, layout: Seq<bool>, n: int)
    requires
        0 <= n <= counts.len(),
        n <= layout.len(),
        forall|i: int| 0 <= i < n ==> (#[trigger] counts[i] == THE_BOMB) == layout[i],
    ensures
        mines_in(counts, n) == marked_in(layout, n),
    decreases n,
{
    if n > 0 {
        lemma_mines_match(counts, layout, n - 1);
    }
}

/// A fully concealed board with fewer mines than cells is not won: some
/// safe cell is still to be stepped on.
pub proof fn lemma_fresh_board_not_won(v: BoardView)
    requires
        v.wf(),
        v.all_concealed(),
        v.mine_total() < 64,
    ensures
        !v.safe_all_stepped(),
        !v.won(),
{
    if v.safe_all_stepped() {
        assert forall|i: int| 0 <= i < 64 implies #[trigger] v.counts[i] == THE_BOMB by {
            let (x, y) = (i / 8, i % 8);
            assert(cell(x, y) == i);
            assert(v.tile(x, y) == TileState::Concealed);
        }
        lemma_mines_prefix_full(v.counts, 64);
    }
}

proof fn lemma_mines_prefix_full(counts: Seq<i8>, n: int)
    requires
        0 <= n <= counts.len(),
        forall|i: int| 0 <= i < n ==> #[trigger] counts[i] == THE_BOMB,
    ensures
        mines_in(counts, n) == n,
    decreases n,
{
    if n > 0 {
        lemma_mines_prefix_full(counts, n - 1);
    }
}

/// Relies on rand's `thread_rng` and `Rng::gen_range`: a value drawn
/// uniformly from `0..bound`. `gen_range` panics only on an empty range;
/// `thread_rng` panics only where the system cannot seed it.
#[verifier::external_body]
fn random_below(bound: usize) -> (r: usize)
    requires
        bound > 0,
    ensures
        r < bound,
{
    rand::thread_rng().gen_range(0..bound)
}

/// 1 when the cell at offset `(dx - 1, dy - 1)` from `(x, y)` is on the
/// board and marked in the layout, else 0.
fn marked_at(layout: &Vec<bool>, x: usize, y: usize, dx: usize, dy: usize) -> (r: i8)
    requires
        layout.len() == 64,
        in_grid(x as int, y as int),
        dx <= 2,
        dy <= 2,
    ensures
        r as int == layout_at(layout@, x + dx - 1, y + dy - 1),
{
    if x + dx >= 1 && x + dx - 1 < SIDE && y + dy >= 1 && y + dy - 1 < SIDE && layout[(x + dx - 1) * SIDE + (y
        + dy - 1)] {
        1
    } else {
        0
    }
}

/// The number of marked cells around `(x, y)` in a layout.
fn layout_count(layout: &Vec<bool>, x: usize, y: usize) -> (r: i8)
    requires
        layout.len() == 64,
        in_grid(x as int, y as int),
    ensures
        r as int == layout_adjacent(layout@, x as int, y as int),
        0 <= r <= 8,
{
    marked_at(layout, x, y, 0, 0) + marked_at(layout, x, y, 0, 1) + marked_at(layout, x, y, 0, 2)
        + marked_at(layout, x, y, 1, 0) + marked_at(layout, x, y, 1, 2) + marked_at(layout, x, y, 2, 0)
        + marked_at(layout, x, y, 2, 1) + marked_at(layout, x, y, 2, 2)
}

/// Position of the `k`-th unmarked cell (counting from 0) at or after
/// position `i` of a layout, or 64 when there is none.
pub open spec fn kth_free_from(layout: Seq<bool>, k: int, i: int) -> int
    decreases 64 - i,
{
    if i >= 64 {
        64
    } else if !layout[i] {
        if k == 0 {
            i
        } else {
            kth_free_from(layout, k - 1, i + 1)
        }
    } else {
        kth_free_from(layout, k, i + 1)
    }
}

/// The layout once the first `n` draws placed their mines: draw `j` puts
/// a mine on the `draws[j]`-th cell that is still free.
pub open spec fn placed_by(draws: Seq<usize>, n: int) -> Seq<bool>
    decreases n,
{
    if n <= 0 {
        Seq::new(64, |i: int| false)
    } else {
        let p = placed_by(draws, n - 1);
        p.update(kth_free_from(p, draws[n - 1] as int, 0), true)
    }
}

/// Position of the `k`-th unmarked cell of a layout.
fn nth_free(layout: &Vec<bool>, k: usize) -> (r: usize)
    requires
        layout.len() == 64,
        k + marked_in(layout@, 64) < 64,
    ensures
        r < 64,
        !layout[r as int],
        r == kth_free_from(layout@, k as int, 0),
{
    let mut seen: usize = 0;
    let mut i: usize = 0;
    while i < CELLS
        invariant
            layout.len() == 64,
            k + marked_in(layout@, 64) < 64,
            i <= 64,
            seen + marked_in(layout@, i as int) == i,
            seen <= k,
            kth_free_from(layout@, k as int, 0) == kth_free_from(layout@, k - seen, i as int),
        decreases 64 - i,
    {
        if !layout[i] {
            if seen == k {
                return i;
            }
            seen += 1;
        }
        i += 1;
    }
    0
}

/// A board: the mine layout with precomputed adjacency counts, and the
/// visibility of each tile.
pub struct Board {
    counts: Vec<i8>,
    tiles: Vec<TileState>,
}

impl View for Board {
    type V = BoardView;

    closed spec fn view(&self) -> BoardView {
        BoardView { counts: self.counts@, tiles: self.tiles@ }
    }
}

impl Board {
    /// A board with no cells, standing for "no round dealt yet".
    pub fn unplaced() -> (r: Board)
        ensures
            r@.counts.len() == 0,
            r@.tiles.len() == 0,
    {
        Board { counts: Vec::new(), tiles: Vec::new() }
    }

    /// A fully concealed board with a mine on each marked cell of the
    /// row-major `layout` and adjacency counts for the others.
    pub fn with_mines(layout: &Vec<bool>) -> (r: Board)
        requires
            layout.len() == 64,
        ensures
            r@.wf(),
            r@.all_concealed(),
            forall|x: int, y: int| in_grid(x, y) ==> #[trigger] r@.mine(x, y) == layout@[cell(x, y)],
            r@.mine_total() == marked_in(layout@, 64),
    {
        let mut counts: Vec<i8> = Vec::new();
        let mut tiles: Vec<TileState> = Vec::new();
        let mut i: usize = 0;
        while i < CELLS
            invariant
                layout.len() == 64,
                i <= 64,
                counts.len() == i,
                tiles.len() == i,
                forall|k: int| 0 <= k < i ==> #[trigger] tiles@[k] == TileState::Concealed,
                forall|k: int|
                    0 <= k < i ==> (#[trigger] counts@[k] == THE_BOMB) == layout@[k],
                forall|k: int|
                    0 <= k < i && !layout@[k] ==> #[trigger] counts@[k] as int == layout_adjacent(
                        layout@,
                        k / 8,
                        k % 8,
                    ),
            decreases 64 - i,
        {
            if layout[i] {
                counts.push(THE_BOMB);
            } else {
                let c = layout_count(layout, i / SIDE, i % SIDE);
                counts.push(c);
            }
            tiles.push(TileState::Concealed);
            i += 1;
        }
        let r = Board { counts, tiles };
        proof {
            assert forall|x: int, y: int| in_grid(x, y) implies #[trigger] r@.mine(x, y)
                == layout@[cell(x, y)] && r@.tile(x, y) == TileState::Concealed by {
                assert(0 <= cell(x, y) < 64);
            }
            assert forall|x: int, y: int| in_grid(x, y) && !#[trigger] r@.mine(x, y) implies r@.count(
                x,
                y,
            ) == r@.adjacent_mines(x, y) by {
                let k = cell(x, y);
                assert(k / 8 == x && k % 8 == y);
                assert(r@.mine_at(x - 1, y - 1) == layout_at(layout@, x - 1, y - 1));
                assert(r@.mine_at(x - 1, y) == layout_at(layout@, x - 1, y));
                assert(r@.mine_at(x - 1, y + 1) == layout_at(layout@, x - 1, y + 1));
                assert(r@.mine_at(x, y - 1) == layout_at(layout@, x, y - 1));
                assert(r@.mine_at(x, y + 1) == layout_at(layout@, x, y + 1));
                assert(r@.mine_at(x + 1, y - 1) == layout_at(layout@, x + 1, y - 1));
                assert(r@.mine_at(x + 1, y) == layout_at(layout@, x + 1, y));
                assert(r@.mine_at(x + 1, y + 1) == layout_at(layout@, x + 1, y + 1));
            }
            lemma_mines_match(r@.counts, layout@, 64);
        }
        r
    }

    /// A fresh, fully concealed board with `MINE_COUNT` mines placed on
    /// distinct cells drawn uniformly at random.
    pub fn generate() -> (r: Board)
        ensures
            r@.wf(),
            r@.all_concealed(),
            r@.mine_total() == 16,
            !r@.won(),
    {
        let mut draws: Vec<usize> = Vec::new();
        let mut j: usize = 0;
        while j < MINE_COUNT
            invariant
                j <= 16,
                draws.len() == j,
                forall|m: int| 0 <= m < j ==> #[trigger] draws@[m] + m < 64,
            decreases 16 - j,
        {
            draws.push(random_below(CELLS - j));
            j += 1;
        }
        Board::from_draws(&draws)
    }

    /// A fresh, fully concealed board whose mines are placed by `draws`:
    /// draw `j` puts a mine on the `draws[j]`-th cell still free, counted
    /// in row-major order from 0.
    pub fn from_draws(draws: &Vec<usize>) -> (r: Board)
        requires
            draws.len() == 16,
            forall|m: int| 0 <= m < 16 ==> #[trigger] draws@[m] + m < 64,
        ensures
            r@.wf(),
            r@.all_concealed(),
            forall|x: int, y: int| in_grid(x, y) ==> #[trigger] r@.mine(x, y) == placed_by(draws@, 16)[cell(x, y)],
            r@.mine_total() == 16,
            !r@.won(),
    {
        let mut layout: Vec<bool> = Vec::new();
        let mut i: usize = 0;
        while i < CELLS
            invariant
                i <= 64,
                layout.len() == i,
                forall|k: int| 0 <= k < i ==> !#[trigger] layout@[k],
            decreases 64 - i,
        {
            layout.push(false);
            i += 1;
        }
        proof {
            assert(marked_in(layout@, 64) == 0) by {
                lemma_none_marked(layout@, 64);
            }
            assert(layout@ =~= placed_by(draws@, 0));
        }
        let mut placed: usize = 0;
        while placed < MINE_COUNT
            invariant
                draws.len() == 16,
                forall|m: int| 0 <= m < 16 ==> #[trigger] draws@[m] + m < 64,
                layout.len() == 64,
                placed <= 16,
                marked_in(layout@, 64) == placed,
                layout@ == placed_by(draws@, placed as int),
            decreases 16 - placed,
        {
            let k = draws[placed];
            assert(draws@[placed as int] + placed < 64);
            let c = nth_free(&layout, k);
            proof {
                lemma_marked_set(layout@, c as int, 64);
            }
            layout.set(c, true);
            placed += 1;
        }
        let r = Board::with_mines(&layout);
        proof {
            lemma_fresh_board_not_won(r@);
        }
        r
    }
}

proof fn lemma_none_marked(layout: Seq<bool>, n: int)
    requires
        0 <= n <= layout.len(),
        forall|k: int| 0 <= k < n ==> !#[trigger] layout[k],
    ensures
        marked_in(layout, n) == 0,
    decreases n,
{
    if n > 0 {
        lemma_none_marked(layout, n - 1);
    }
}

proof fn lemma_concealed_step(tiles: Seq<TileState>, i: int, n: int)
    requires
        0 <= i < tiles.len(),
        tiles[i] == TileState::Concealed,
        0 <= n <= tiles.len(),
    ensures
        concealed_in(tiles.update(i, TileState::Stepped), n) + if i < n {
            1int
        } else {
            0int
        } == concealed_in(tiles, n),
    decreases n,
{
    if n > 0 {
        lemma_concealed_step(tiles, i, n - 1);
    }
}

/// Around a safe cell whose count is zero there is no mine.
proof fn lemma_no_adjacent_mine(v: BoardView, x: int, y: int, a: int, b: int)
    requires
        v.wf(),
        in_grid(x, y),
        !v.mine(x, y),
        v.count(x, y) == 0,
        adjacent(x, y, a, b),
    ensures
        !v.mine(a, b),
{
    assert(v.adjacent_mines(x, y) == 0);
    assert(v.mine_at(a, b) == 0);
}

proof fn lemma_with_tile_wf(v: BoardView, x: int, y: int, t: TileState)
    requires
        v.wf(),
        in_grid(x, y),
        t == TileState::Detonated || t == TileState::Revealed ==> v.mine(x, y),
    ensures
        v.with_tile(x, y, t).wf(),
        v.with_tile(x, y, t).tile(x, y) == t,
        forall|a: int, b: int|
            in_grid(a, b) && (a != x || b != y) ==> #[trigger] v.with_tile(x, y, t).tile(a, b) == v.tile(a, b),
{
    let w = v.with_tile(x, y, t);
    assert forall|a: int, b: int|
        in_grid(a, b) && (a != x || b != y) implies #[trigger] w.tile(a, b) == v.tile(a, b) by {
        assert(cell(a, b) != cell(x, y));
    }
    assert forall|a: int, b: int| in_grid(a, b) && !#[trigger] w.mine(a, b) implies w.count(a, b)
        == w.adjacent_mines(a, b) by {
        assert(w.mine(a, b) == v.mine(a, b));
        assert(v.count(a, b) == v.adjacent_mines(a, b));
    }
}

impl Board {
    /// The tile state of cell `(x, y)`.
    pub fn tile(&self, x: usize, y: usize) -> (r: TileState)
        requires
            self@.tiles.len() == 64,
            in_grid(x as int, y as int),
        ensures
            r == self@.tile(x as int, y as int),
    {
        self.tiles[x * SIDE + y]
    }

    /// The count layer at `(x, y)`: `THE_BOMB` for a mine, else the number
    /// of mines around it.
    pub fn adjacency(&self, x: usize, y: usize) -> (r: i8)
        requires
            self@.counts.len() == 64,
            in_grid(x as int, y as int),
        ensures
            r == self@.counts[cell(x as int, y as int)],
    {
        self.counts[x * SIDE + y]
    }

    /// Whether `(x, y)` holds a mine.
    pub fn is_mine(&self, x: usize, y: usize) -> (r: bool)
        requires
            self@.counts.len() == 64,
            in_grid(x as int, y as int),
        ensures
            r == self@.mine(x as int, y as int),
    {
        self.counts[x * SIDE + y] == THE_BOMB
    }

    fn set_tile(&mut self, x: usize, y: usize, t: TileState)
        requires
            old(self)@.tiles.len() == 64,
            in_grid(x as int, y as int),
        ensures
            final(self)@ == old(self)@.with_tile(x as int, y as int, t),
    {
        self.tiles.set(x * SIDE + y, t);
    }

    /// `set_tile` for a state that keeps the board well-formed.
    fn put_tile(&mut self, x: usize, y: usize, t: TileState)
        requires
            old(self)@.wf(),
            in_grid(x as int, y as int),
            t == TileState::Detonated || t == TileState::Revealed ==> old(self)@.mine(x as int, y as int),
        ensures
            final(self)@ == old(self)@.with_tile(x as int, y as int, t),
            final(self)@.wf(),
            final(self)@.tile(x as int, y as int) == t,
            forall|a: int, b: int|
                in_grid(a, b) && (a != x || b != y) ==> #[trigger] final(self)@.tile(a, b) == old(self)@.tile(a, b),
    {
        proof {
            lemma_with_tile_wf(self@, x as int, y as int, t);
        }
        self.set_tile(x, y, t);
    }

    /// Puts a flag on a concealed tile; any other tile is left alone.
    pub fn flag(&mut self, x: usize, y: usize)
        requires
            old(self)@.wf(),
            in_grid(x as int, y as int),
        ensures
            final(self)@ == old(self)@.flagged(x as int, y as int),
            final(self)@.wf(),
    {
        if self.tile(x, y) == TileState::Concealed {
            self.put_tile(x, y, TileState::Flagged);
        }
    }

    /// Takes the flag off a flagged tile; any other tile is left alone.
    pub fn unflag(&mut self, x: usize, y: usize)
        requires
            old(self)@.wf(),
            in_grid(x as int, y as int),
        ensures
            final(self)@ == old(self)@.unflagged(x as int, y as int),
            final(self)@.wf(),
    {
        if self.tile(x, y) == TileState::Flagged {
            self.put_tile(x, y, TileState::Concealed);
        }
    }

    /// Flagged becomes concealed, concealed becomes flagged, anything else
    /// stays.
    pub fn toggle_flag(&mut self, x: usize, y: usize)
        requires
            old(self)@.wf(),
            in_grid(x as int, y as int),
        ensures
            final(self)@ == old(self)@.toggled(x as int, y as int),
            final(self)@.wf(),
    {
        let t = self.tile(x, y);
        if t == TileState::Flagged {
            self.put_tile(x, y, TileState::Concealed);
        } else if t == TileState::Concealed {
            self.put_tile(x, y, TileState::Flagged);
        }
    }

    /// Shows every mine but the one at position `skip` (pass `CELLS` to
    /// skip none) as `t`.
    pub fn all_bombs(&mut self, skip: usize, t: TileState)
        requires
            old(self)@.wf(),
            t == TileState::Detonated || t == TileState::Revealed,
        ensures
            final(self)@ == old(self)@.mines_shown(skip as int, t),
            final(self)@.wf(),
    {
        let ghost start = self@;
        let mut i: usize = 0;
        while i < CELLS
            invariant
                start.wf(),
                i <= 64,
                self@.counts == start.counts,
                self@.tiles.len() == 64,
                forall|k: int|
                    0 <= k < 64 ==> #[trigger] self@.tiles[k] == if k < i {
                        start.mines_shown(skip as int, t).tiles[k]
                    } else {
                        start.tiles[k]
                    },
            decreases 64 - i,
        {
            if i != skip && self.counts[i] == THE_BOMB {
                self.tiles.set(i, t);
            }
            i += 1;
        }
        assert(self@.tiles =~= start.mines_shown(skip as int, t).tiles);
        assert(self@.wf()) by {
            assert forall|x: int, y: int|
                in_grid(x, y) && (#[trigger] self@.tile(x, y) == TileState::Detonated || self@.tile(x, y)
                    == TileState::Revealed) implies self@.mine(x, y) by {
                assert(0 <= cell(x, y) < 64);
                assert(start.tile(x, y) == start.tiles[cell(x, y)]);
            }
            assert forall|x: int, y: int| in_grid(x, y) && !#[trigger] self@.mine(x, y) implies self@.count(
                x,
                y,
            ) == self@.adjacent_mines(x, y) by {
                assert(self@.mine(x, y) == start.mine(x, y));
                assert(start.count(x, y) == start.adjacent_mines(x, y));
            }
        }
    }

    /// Every concealed or flagged tile hides a mine.
    pub fn all_closed_or_flagged_tiles_are_mines(&self) -> (r: bool)
        requires
            self@.wf(),
        ensures
            r == self@.closed_are_mines(),
    {
        let mut i: usize = 0;
        while i < CELLS
            invariant
                self@.wf(),
                i <= 64,
                forall|k: int|
                    0 <= k < i ==> (#[trigger] self@.tiles[k] == TileState::Concealed || self@.tiles[k]
                        == TileState::Flagged) ==> self@.counts[k] == THE_BOMB,
            decreases 64 - i,
        {
            let t = self.tiles[i];
            if (t == TileState::Concealed || t == TileState::Flagged) && self.counts[i] != THE_BOMB {
                proof {
                    let (x, y) = (i / 8, i % 8);
                    assert(cell(x as int, y as int) == i);
                    assert(self@.tile(x as int, y as int) == t);
                }
                return false;
            }
            i += 1;
        }
        proof {
            assert forall|x: int, y: int|
                in_grid(x, y) && (#[trigger] self@.tile(x, y) == TileState::Concealed || self@.tile(x, y)
                    == TileState::Flagged) implies self@.mine(x, y) by {
                assert(0 <= cell(x, y) < 64);
                assert(self@.tiles[cell(x, y)] == self@.tile(x, y));
            }
        }
        true
    }

    /// Whether some mine has been detonated.
    pub fn any_detonated(&self) -> (r: bool)
        requires
            self@.wf(),
        ensures
            r == self@.any_detonated(),
    {
        let mut i: usize = 0;
        while i < CELLS
            invariant
                self@.wf(),
                i <= 64,
                forall|k: int| 0 <= k < i ==> #[trigger] self@.tiles[k] != TileState::Detonated,
            decreases 64 - i,
        {
            if self.tiles[i] == TileState::Detonated {
                proof {
                    let (x, y) = (i / 8, i % 8);
                    assert(cell(x as int, y as int) == i);
                    assert(self@.tile(x as int, y as int) == TileState::Detonated);
                }
                return true;
            }
            i += 1;
        }
        proof {
            assert forall|x: int, y: int| in_grid(x, y) implies #[trigger] self@.tile(x, y)
                != TileState::Detonated by {
                assert(0 <= cell(x, y) < 64);
                assert(self@.tiles[cell(x, y)] == self@.tile(x, y));
            }
        }
        false
    }

    /// The round is won: every safe cell stepped on and no mine detonated.
    pub fn is_won(&self) -> (r: bool)
        requires
            self@.wf(),
        ensures
            r == self@.won(),
    {
        let closed = self.all_closed_or_flagged_tiles_are_mines();
        proof {
            if closed {
                assert forall|x: int, y: int| in_grid(x, y) && !#[trigger] self@.mine(x, y) implies self@.tile(
                    x,
                    y,
                ) == TileState::Stepped by {
                    let t = self@.tile(x, y);
                    assert(t != TileState::Concealed && t != TileState::Flagged);
                    assert(t != TileState::Detonated && t != TileState::Revealed);
                }
            } else {
                let (x, y) = choose|x: int, y: int|
                    in_grid(x, y) && !(#[trigger] self@.tile(x, y) == TileState::Concealed
                        || self@.tile(x, y) == TileState::Flagged ==> self@.mine(x, y));
                assert(!self@.mine(x, y) && self@.tile(x, y) != TileState::Stepped);
            }
        }
        closed && !self.any_detonated()
    }
}

/// `(a, b)` waits on the flood's stack: an opened safe cell with no mine
/// around it.
pub open spec fn pending(before: BoardView, after: BoardView, x: int, y: int, a: int, b: int) -> bool {
    &&& in_grid(a, b)
    &&& opened_by(before, after, x, y, a, b)
    &&& after.count(a, b) == 0
    &&& !after.mine(a, b)
}

/// Opening `(x, y)` first and flooding from it is the same, seen from the
/// board before either step.
proof fn lemma_flood_from_stepped(before: BoardView, mid: BoardView, after: BoardView, x: int, y: int)
    requires
        before.wf(),
        in_grid(x, y),
        before.tile(x, y) == TileState::Concealed,
        !before.mine(x, y),
        mid == before.with_tile(x, y, TileState::Stepped),
        mid.tile(x, y) == TileState::Stepped,
        forall|a: int, b: int|
            in_grid(a, b) && (a != x || b != y) ==> #[trigger] mid.tile(a, b) == before.tile(a, b),
        only_safe_opened(mid, after),
        flood_closed(mid, after, x, y),
        flood_connected(mid, after, x, y),
    ensures
        only_safe_opened(before, after),
        flood_closed(before, after, x, y),
        flood_connected(before, after, x, y),
        after.tile(x, y) == TileState::Stepped,
{
    reveal(flood_connected);
    assert forall|a: int, b: int| in_grid(a, b) implies #[trigger] opened_by(before, after, x, y, a, b)
        == opened_by(mid, after, x, y, a, b) by {
        if a != x || b != y {
            assert(mid.tile(a, b) == before.tile(a, b));
        }
    }
    assert(after.tile(x, y) == TileState::Stepped);
    assert forall|a: int, b: int| in_grid(a, b) implies #[trigger] after.tile(a, b) == before.tile(a, b) || (
    before.tile(a, b) == TileState::Concealed && after.tile(a, b) == TileState::Stepped && !before.mine(a, b)) by {
        assert(after.tile(a, b) == mid.tile(a, b) || (mid.tile(a, b) == TileState::Concealed && after.tile(a, b)
            == TileState::Stepped && !mid.mine(a, b)));
        if a != x || b != y {
            assert(mid.tile(a, b) == before.tile(a, b));
        }
    }
    assert forall|a: int, b: int|
        in_grid(a, b) && #[trigger] opened_by(before, after, x, y, a, b) implies exists|n: nat|
        linked(before, after, x, y, a, b, n) by {
        assert(opened_by(mid, after, x, y, a, b));
        let n = choose|n: nat| linked(mid, after, x, y, a, b, n);
        lemma_linked_carries(mid, after, before, after, x, y, a, b, n);
    }
    assert forall|a: int, b: int|
        in_grid(a, b) && #[trigger] opened_by(before, after, x, y, a, b) && after.count(a, b) == 0 implies after.settled(
        a,
        b,
    ) by {
        assert(opened_by(mid, after, x, y, a, b));
    }
}

impl Board {
    /// Flood fill from the stepped, mine-free cell `(x, y)`: while a cell
    /// with no mine around it is open, its concealed neighbours are stepped
    /// on too. Works through an explicit stack.
    pub fn open(&mut self, x: usize, y: usize)
        requires
            old(self)@.wf(),
            in_grid(x as int, y as int),
            old(self)@.tile(x as int, y as int) == TileState::Stepped,
            !old(self)@.mine(x as int, y as int),
        ensures
            final(self)@.wf(),
            only_safe_opened(old(self)@, final(self)@),
            flood_closed(old(self)@, final(self)@, x as int, y as int),
            flood_connected(old(self)@, final(self)@, x as int, y as int),
    {
        let ghost b0 = self@;
        if self.adjacency(x, y) > 0 {
            proof {
                reveal(flood_connected);
                assert forall|a: int, b: int| in_grid(a, b) && #[trigger] opened_by(b0, b0, x as int, y as int, a, b)
                    implies exists|n: nat| linked(b0, b0, x as int, y as int, a, b, n) by {
                    assert(a == x && b == y);
                    assert(linked(b0, b0, x as int, y as int, a, b, 0));
                }
            }
            return;
        }
        let mut stack: Vec<(usize, usize)> = Vec::new();
        stack.push((x, y));
        proof {
            reveal(flood_connected);
            assert forall|a: int, b: int|
                in_grid(a, b) && #[trigger] opened_by(b0, self@, x as int, y as int, a, b) implies stack@.contains(
                (a as usize, b as usize),
            ) && exists|n: nat| linked(b0, self@, x as int, y as int, a, b, n) by {
                assert(a == x && b == y);
                assert(stack@[0] == (x, y));
                assert(linked(b0, self@, x as int, y as int, a, b, 0));
            }
        }
        while stack.len() > 0
            invariant
                b0.wf(),
                in_grid(x as int, y as int),
                b0.tile(x as int, y as int) == TileState::Stepped,
                self@.wf(),
                only_safe_opened(b0, self@),
                forall|k: int|
                    0 <= k < stack.len() ==> pending(b0, self@, x as int, y as int, #[trigger] stack@[k].0 as int, stack@[k].1 as int),
                forall|a: int, b: int|
                    in_grid(a, b) && #[trigger] opened_by(b0, self@, x as int, y as int, a, b) && self@.count(a, b) == 0
                        && !stack@.contains((a as usize, b as usize)) ==> self@.settled(a, b),
                flood_connected(b0, self@, x as int, y as int),
            decreases self@.concealed_total(), stack.len(),
        {
            let ghost c0 = self@.concealed_total();
            let ghost whole = stack@;
            let (kx, ky) = stack.pop().unwrap();
            proof {
                assert(whole =~= stack@.push((kx, ky)));
                assert(pending(b0, self@, x as int, y as int, kx as int, ky as int)) by {
                    assert(whole[whole.len() - 1] == (kx, ky));
                }
            }
            let ns = neighbours(kx, ky);
            let mut j: usize = 0;
            while j < ns.len()
                invariant
                    b0.wf(),
                    in_grid(x as int, y as int),
                    b0.tile(x as int, y as int) == TileState::Stepped,
                    self@.wf(),
                    only_safe_opened(b0, self@),
                    pending(b0, self@, x as int, y as int, kx as int, ky as int),
                    forall|k: int|
                        0 <= k < stack.len() ==> pending(b0, self@, x as int, y as int, #[trigger] stack@[k].0 as int, stack@[k].1 as int),
                    forall|a: int, b: int|
                        in_grid(a, b) && #[trigger] opened_by(b0, self@, x as int, y as int, a, b) && self@.count(a, b) == 0
                            && !stack@.contains((a as usize, b as usize)) && !(a == kx && b == ky) ==> self@.settled(a, b),
                    flood_connected(b0, self@, x as int, y as int),
                    j <= ns.len(),
                    forall|m: int| 0 <= m < ns.len() ==> adjacent(kx as int, ky as int, #[trigger] ns[m].0 as int, ns[m].1 as int),
                    forall|a: int, b: int|
                        adjacent(kx as int, ky as int, a, b) ==> #[trigger] ns@.contains((a as usize, b as usize)),
                    forall|m: int| 0 <= m < j ==> #[trigger] self@.tile(ns[m].0 as int, ns[m].1 as int) != TileState::Concealed,
                    self@.concealed_total() < c0 || (self@.concealed_total() == c0 && stack.len() + 1 == whole.len()),
                decreases ns.len() - j,
            {
                let (a, b) = ns[j];
                if self.tile(a, b) == TileState::Concealed {
                    let ghost pre = self@;
                    let ghost pre_stack = stack@;
                    proof {
                        lemma_no_adjacent_mine(self@, kx as int, ky as int, a as int, b as int);
                        lemma_concealed_step(self@.tiles, cell(a as int, b as int), 64);
                    }
                    self.put_tile(a, b, TileState::Stepped);
                    if self.adjacency(a, b) == 0 {
                        stack.push((a, b));
                    }
                    proof {
                        lemma_flood_step(b0, pre, self@, pre_stack, stack@, x as int, y as int, kx as int, ky as int, a as int, b as int);
                    }
                }
                j += 1;
            }
            proof {
                assert forall|a: int, b: int| adjacent(kx as int, ky as int, a, b) implies #[trigger] self@.tile(a, b)
                    != TileState::Concealed by {
                    assert(ns@.contains((a as usize, b as usize)));
                    let m = choose|m: int| 0 <= m < ns.len() && ns@[m] == (a as usize, b as usize);
                    assert(self@.tile(ns[m].0 as int, ns[m].1 as int) != TileState::Concealed);
                }
                assert(self@.settled(kx as int, ky as int));
            }
        }
    }

    /// Steps on `(x, y)`. A concealed mine detonates and every other mine
    /// is shown; a concealed safe cell is stepped on and, where no mine is
    /// around it, flooded from. Any other tile is left alone. Returns
    /// whether a mine detonated.
    pub fn step_on(&mut self, x: usize, y: usize) -> (detonated: bool)
        requires
            old(self)@.wf(),
            in_grid(x as int, y as int),
        ensures
            final(self)@.wf(),
            old(self)@.tile(x as int, y as int) != TileState::Concealed ==> !detonated && final(self)@ == old(self)@,
            old(self)@.tile(x as int, y as int) == TileState::Concealed && old(self)@.mine(x as int, y as int)
                ==> detonated && final(self)@ == old(self)@.with_tile(x as int, y as int, TileState::Detonated).mines_shown(
                cell(x as int, y as int),
                TileState::Revealed,
            ),
            old(self)@.tile(x as int, y as int) == TileState::Concealed && !old(self)@.mine(x as int, y as int)
                ==> {
                &&& !detonated
                &&& final(self)@.tile(x as int, y as int) == TileState::Stepped
                &&& only_safe_opened(old(self)@, final(self)@)
                &&& flood_closed(old(self)@, final(self)@, x as int, y as int)
                &&& flood_connected(old(self)@, final(self)@, x as int, y as int)
            },
    {
        if self.tile(x, y) != TileState::Concealed {
            return false;
        }
        if self.is_mine(x, y) {
            self.put_tile(x, y, TileState::Detonated);
            self.all_bombs(x * SIDE + y, TileState::Revealed);
            return true;
        }
        let ghost before = self@;
        self.put_tile(x, y, TileState::Stepped);
        let ghost mid = self@;
        self.open(x, y);
        proof {
            lemma_flood_from_stepped(before, mid, self@, x as int, y as int);
        }
        false
    }
}

/// One step of the flood: the concealed cell `(a, b)` next to the pending
/// cell `(kx, ky)` is stepped on, and pushed when no mine is around it.
proof fn lemma_flood_step(
    b0: BoardView,
    pre: BoardView,
    post: BoardView,
    pre_stack: Seq<(usize, usize)>,
    post_stack: Seq<(usize, usize)>,
    x: int,
    y: int,
    kx: int,
    ky: int,
    a: int,
    b: int,
)
    requires
        b0.wf(),
        in_grid(x, y),
        b0.tile(x, y) == TileState::Stepped,
        pre.wf(),
        post.wf(),
        only_safe_opened(b0, pre),
        pending(b0, pre, x, y, kx, ky),
        adjacent(kx, ky, a, b),
        pre.tile(a, b) == TileState::Concealed,
        !pre.mine(a, b),
        post == pre.with_tile(a, b, TileState::Stepped),
        post.tile(a, b) == TileState::Stepped,
        forall|p: int, q: int|
            in_grid(p, q) && (p != a || q != b) ==> #[trigger] post.tile(p, q) == pre.tile(p, q),
        forall|k: int|
            0 <= k < pre_stack.len() ==> pending(b0, pre, x, y, #[trigger] pre_stack[k].0 as int, pre_stack[k].1 as int),
        forall|p: int, q: int|
            in_grid(p, q) && #[trigger] opened_by(b0, pre, x, y, p, q) && pre.count(p, q) == 0
                && !pre_stack.contains((p as usize, q as usize)) && !(p == kx && q == ky) ==> pre.settled(p, q),
        flood_connected(b0, pre, x, y),
        post.count(a, b) == 0 ==> post_stack == pre_stack.push((a as usize, b as usize)),
        post.count(a, b) != 0 ==> post_stack == pre_stack,
    ensures
        only_safe_opened(b0, post),
        pending(b0, post, x, y, kx, ky),
        forall|k: int|
            0 <= k < post_stack.len() ==> pending(b0, post, x, y, #[trigger] post_stack[k].0 as int, post_stack[k].1 as int),
        forall|p: int, q: int|
            in_grid(p, q) && #[trigger] opened_by(b0, post, x, y, p, q) && post.count(p, q) == 0
                && !post_stack.contains((p as usize, q as usize)) && !(p == kx && q == ky) ==> post.settled(p, q),
        flood_connected(b0, post, x, y),
{
    broadcast use vstd::seq_lib::lemma_seq_contains_after_push;

    reveal(flood_connected);

    assert(b0.tile(a, b) == TileState::Concealed) by {
        assert(pre.tile(a, b) == b0.tile(a, b) || b0.tile(a, b) == TileState::Concealed);
    }
    assert(a != x || b != y);
    // opened cells stay opened; (a, b) is newly opened
    assert forall|p: int, q: int| in_grid(p, q) && #[trigger] opened_by(b0, pre, x, y, p, q) implies opened_by(
        b0,
        post,
        x,
        y,
        p,
        q,
    ) by {
        if p != a || q != b {
            assert(post.tile(p, q) == pre.tile(p, q));
        }
    }
    assert forall|p: int, q: int| in_grid(p, q) implies #[trigger] post.tile(p, q) == b0.tile(p, q) || (b0.tile(p, q)
        == TileState::Concealed && post.tile(p, q) == TileState::Stepped && !b0.mine(p, q)) by {
        if p != a || q != b {
            assert(post.tile(p, q) == pre.tile(p, q));
            assert(pre.tile(p, q) == b0.tile(p, q) || (b0.tile(p, q) == TileState::Concealed && pre.tile(p, q)
                == TileState::Stepped && !b0.mine(p, q)));
        } else {
            assert(pre.mine(a, b) == b0.mine(a, b));
        }
    }
    assert(opened_by(b0, post, x, y, kx, ky));
    assert(pending(b0, post, x, y, kx, ky));
    assert forall|k: int| 0 <= k < post_stack.len() implies pending(
        b0,
        post,
        x,
        y,
        #[trigger] post_stack[k].0 as int,
        post_stack[k].1 as int,
    ) by {
        if k < pre_stack.len() {
            assert(post_stack[k] == pre_stack[k]);
            assert(pending(b0, pre, x, y, pre_stack[k].0 as int, pre_stack[k].1 as int));
            assert(opened_by(b0, pre, x, y, pre_stack[k].0 as int, pre_stack[k].1 as int));
        } else {
            assert(post_stack[k] == (a as usize, b as usize));
            assert(opened_by(b0, post, x, y, a, b));
        }
    }
    assert forall|p: int, q: int|
        in_grid(p, q) && #[trigger] opened_by(b0, post, x, y, p, q) && post.count(p, q) == 0
            && !post_stack.contains((p as usize, q as usize)) && !(p == kx && q == ky) implies post.settled(p, q) by {
        if p == a && q == b {
            assert(post_stack.contains((a as usize, b as usize))) by {
                assert(post_stack[pre_stack.len() as int] == (a as usize, b as usize));
            }
        } else {
            assert(post.tile(p, q) == pre.tile(p, q));
            assert(opened_by(b0, pre, x, y, p, q));
            assert(!pre_stack.contains((p as usize, q as usize))) by {
                if pre_stack.contains((p as usize, q as usize)) {
                    let k = choose|k: int| 0 <= k < pre_stack.len() && pre_stack[k] == (p as usize, q as usize);
                    if post.count(a, b) == 0 {
                        assert(post_stack[k] == pre_stack[k]);
                    }
                }
            }
            assert(pre.settled(p, q));
            assert forall|c: int, d: int| adjacent(p, q, c, d) implies #[trigger] post.tile(c, d)
                != TileState::Concealed by {
                assert(pre.tile(c, d) != TileState::Concealed);
            }
        }
    }
    assert forall|p: int, q: int|
        in_grid(p, q) && #[trigger] opened_by(b0, post, x, y, p, q) implies exists|n: nat|
        linked(b0, post, x, y, p, q, n) by {
        assert(opened_by(b0, pre, x, y, kx, ky));
        let m = choose|m: nat| linked(b0, pre, x, y, kx, ky, m);
        lemma_linked_carries(b0, pre, b0, post, x, y, kx, ky, m);
        if p == a && q == b {
            assert(adjacent(a, b, kx, ky));
            assert(opened_by(b0, post, x, y, kx, ky));
            assert(linked(b0, post, x, y, a, b, m + 1));
        } else {
            assert(post.tile(p, q) == pre.tile(p, q));
            assert(opened_by(b0, pre, x, y, p, q));
            let n = choose|n: nat| linked(b0, pre, x, y, p, q, n);
            lemma_linked_carries(b0, pre, b0, post, x, y, p, q, n);
        }
    }
}

/// On a well-formed board a concealed or flagged tile hides a mine exactly
/// when every safe cell has been stepped on.
pub proof fn lemma_closed_are_mines_iff(v: BoardView)
    requires
        v.wf(),
    ensures
        v.closed_are_mines() == v.safe_all_stepped(),
{
    if v.closed_are_mines() {
        assert forall|x: int, y: int| in_grid(x, y) && !#[trigger] v.mine(x, y) implies v.tile(x, y)
            == TileState::Stepped by {
            let t = v.tile(x, y);
            assert(t != TileState::Concealed && t != TileState::Flagged);
            assert(t != TileState::Detonated && t != TileState::Revealed);
        }
    }
    if v.safe_all_stepped() {
        assert forall|x: int, y: int|
            in_grid(x, y) && (#[trigger] v.tile(x, y) == TileState::Concealed || v.tile(x, y)
                == TileState::Flagged) implies v.mine(x, y) by {
            if !v.mine(x, y) {
                assert(v.tile(x, y) == TileState::Stepped);
            }
        }
    }
}

/// Showing mines leaves the counts and every safe tile as they were.
pub proof fn lemma_mines_shown_keeps_safe(v: BoardView, skip: int, t: TileState)
    requires
        v.counts.len() == 64,
        v.tiles.len() == 64,
    ensures
        v.mines_shown(skip, t).counts == v.counts,
        forall|x: int, y: int|
            in_grid(x, y) && !v.mine(x, y) ==> #[trigger] v.mines_shown(skip, t).tile(x, y) == v.tile(x, y),
        forall|x: int, y: int|
            in_grid(x, y) ==> (#[trigger] v.mines_shown(skip, t).tile(x, y) == v.tile(x, y) || v.mines_shown(
                skip,
                t,
            ).tile(x, y) == t),
{
    assert forall|x: int, y: int| in_grid(x, y) implies (#[trigger] v.mines_shown(skip, t).tile(x, y) == v.tile(
        x,
        y,
    ) || v.mines_shown(skip, t).tile(x, y) == t) && (!v.mine(x, y) ==> v.mines_shown(skip, t).tile(x, y)
        == v.tile(x, y)) by {
        assert(0 <= cell(x, y) < 64);
    }
}

/// Toggling the flag twice on a concealed tile gives back the same board.
pub proof fn lemma_toggle_twice(v: BoardView, x: int, y: int)
    requires
        v.tiles.len() == 64,
        in_grid(x, y),
        v.tile(x, y) == TileState::Concealed,
    ensures
        v.toggled(x, y).toggled(x, y) == v,
{
    assert(v.toggled(x, y).tile(x, y) == TileState::Flagged);
    assert(v.toggled(x, y).toggled(x, y).tiles =~= v.tiles);
}

/// Opening safe tiles twice in a row opens safe tiles.
pub proof fn lemma_only_safe_opened_chain(b1: BoardView, b2: BoardView, b3: BoardView)
    requires
        only_safe_opened(b1, b2),
        only_safe_opened(b2, b3),
    ensures
        only_safe_opened(b1, b3),
{
    assert forall|x: int, y: int| in_grid(x, y) implies #[trigger] b3.tile(x, y) == b1.tile(x, y) || (b1.tile(x, y)
        == TileState::Concealed && b3.tile(x, y) == TileState::Stepped && !b1.mine(x, y)) by {
        assert(b2.tile(x, y) == b1.tile(x, y) || b1.tile(x, y) == TileState::Concealed);
        assert(b3.tile(x, y) == b2.tile(x, y) || b2.tile(x, y) == TileState::Concealed);
    }
}

/// A cell on a chain of opened zero-count cells from `(x, y)` in one
/// flood result is opened in any other flood result from the same start.
proof fn lemma_linked_opened(before: BoardView, a1: BoardView, a2: BoardView, x: int, y: int, a: int, b: int, n: nat)
    requires
        before.wf(),
        in_grid(a, b),
        linked(before, a1, x, y, a, b, n),
        opened_by(before, a1, x, y, a, b),
        a2.tile(x, y) == TileState::Stepped,
        only_safe_opened(before, a1),
        only_safe_opened(before, a2),
        flood_closed(before, a2, x, y),
    ensures
        opened_by(before, a2, x, y, a, b),
    decreases n,
{
    if !(a == x && b == y) {
        let (p, q) = choose|p: int, q: int|
            adjacent(a, b, p, q) && #[trigger] opened_by(before, a1, x, y, p, q) && a1.count(p, q) == 0
                && linked(before, a1, x, y, p, q, (n - 1) as nat);
        lemma_linked_opened(before, a1, a2, x, y, p, q, (n - 1) as nat);
        assert(a2.count(p, q) == 0);
        assert(a2.settled(p, q));
        assert(adjacent(p, q, a, b));
        assert(a2.tile(a, b) != TileState::Concealed);
        assert(before.tile(a, b) == TileState::Concealed);
    }
}

/// The flood from `(x, y)` has one result: two boards that both step on
/// `(x, y)`, open only safe concealed tiles, leave no opened zero-count
/// cell next to a concealed one, and open only cells chained to `(x, y)`
/// through opened zero-count cells, are the same board.
pub proof fn lemma_flood_unique(before: BoardView, a1: BoardView, a2: BoardView, x: int, y: int)
    requires
        before.wf(),
        in_grid(x, y),
        a1.tile(x, y) == TileState::Stepped,
        a2.tile(x, y) == TileState::Stepped,
        only_safe_opened(before, a1),
        only_safe_opened(before, a2),
        flood_closed(before, a1, x, y),
        flood_closed(before, a2, x, y),
        flood_connected(before, a1, x, y),
        flood_connected(before, a2, x, y),
    ensures
        a1 == a2,
{
    reveal(flood_connected);
    assert forall|a: int, b: int| in_grid(a, b) implies #[trigger] a1.tile(a, b) == a2.tile(a, b) by {
        if opened_by(before, a1, x, y, a, b) {
            let n = choose|n: nat| linked(before, a1, x, y, a, b, n);
            lemma_linked_opened(before, a1, a2, x, y, a, b, n);
        } else if opened_by(before, a2, x, y, a, b) {
            let n = choose|n: nat| linked(before, a2, x, y, a, b, n);
            lemma_linked_opened(before, a2, a1, x, y, a, b, n);
        }
    }
    assert forall|i: int| 0 <= i < 64 implies a1.tiles[i] == a2.tiles[i] by {
        let (a, b) = (i / 8, i % 8);
        assert(cell(a, b) == i);
        assert(a1.tile(a, b) == a2.tile(a, b));
    }
    assert(a1.tiles =~= a2.tiles);
}

} // verus!
