use vstd::prelude::*;

verus! {

/// What a cell of the board holds.
#[derive(Clone, Copy, Debug, PartialEq, Eq, Structural)]
pub enum Tile {
    Empty,
    Rogue,
    Gold(i32),
}

impl Tile {
    /// A gold pile holds between one and nine coins.
    pub open spec fn valid(self) -> bool {
        match self {
            Tile::Gold(n) => 1 <= n <= 9,
            _ => true,
        }
    }
}

/// Coins in a tile: a pile's value, nothing for any other tile.
pub open spec fn pile_value(t: Tile) -> int {
    match t {
        Tile::Gold(n) => n as int,
        _ => 0,
    }
}

/// Coins left in a sequence of tiles.
pub open spec fn gold_total(s: Seq<Tile>) -> int
    decreases s.len(),
{
    if s.len() == 0 {
        0
    } else {
        gold_total(s.drop_last()) + pile_value(s.last())
    }
}

/// Overwriting one tile changes the coins left by the difference of the two.
pub proof fn lemma_gold_total_update(s: Seq<Tile>, i: int, t: Tile)
    requires
        0 <= i < s.len(),
    ensures
        gold_total(s.update(i, t)) == gold_total(s) - pile_value(s[i]) + pile_value(t),
    decreases s.len(),
{
    if i == s.len() - 1 {
        assert(s.update(i, t).drop_last() =~= s.drop_last());
    } else {
        lemma_gold_total_update(s.drop_last(), i, t);
        assert(s.update(i, t).drop_last() =~= s.drop_last().update(i, t));
    }
}

/// Tiles holding one to nine coins each hold between none and nine per tile
/// in all.
pub proof fn lemma_gold_total_bounds(s: Seq<Tile>)
    requires
        forall|i: int| 0 <= i < s.len() ==> #[trigger] s[i].valid(),
    ensures
        0 <= gold_total(s) <= 9 * s.len(),
    decreases s.len(),
{
    if s.len() > 0 {
        assert(s.last() == s[s.len() - 1]);
        assert(s[s.len() - 1].valid());
        assert forall|i: int| 0 <= i < s.drop_last().len() implies #[trigger] s.drop_last()[i].valid() by {
            assert(s.drop_last()[i] == s[i]);
        }
        lemma_gold_total_bounds(s.drop_last());
    }
}

/// The grid, the rogue's position and the score accumulated so far.
pub struct GreedyContext {
    pub cleared: i32,
    pub rogue_x: i32,
    pub rogue_y: i32,
    pub width: i32,
    pub height: i32,
    /// Row-major cells: `(x, y)` lives at `y * width + x`.
    pub tiles: Vec<Tile>,
}

/// Row-major index of an in-board cell lies inside the grid.
pub proof fn lemma_index_in_grid(w: int, h: int, x: int, y: int)
    requires
        0 <= x < w,
        0 <= y < h,
    ensures
        0 <= y * w + x < w * h,
{
    assert(0 <= y * w) by (nonlinear_arith)
        requires
            0 <= y,
            0 < w,
    ;
    assert(y * w + x < w * h) by (nonlinear_arith)
        requires
            0 <= x < w,
            0 <= y < h,
    ;
}

/// Distinct in-board cells have distinct row-major indices.
pub proof fn lemma_index_injective(w: int, x1: int, y1: int, x2: int, y2: int)
    requires
        0 <= x1 < w,
        0 <= x2 < w,
        0 <= y1,
        0 <= y2,
        y1 * w + x1 == y2 * w + x2,
    ensures
        x1 == x2,
        y1 == y2,
{
    if y1 < y2 {
        assert((y1 + 1) * w <= y2 * w) by (nonlinear_arith)
            requires
                y1 < y2,
                0 < w,
        ;
        assert((y1 + 1) * w == y1 * w + w) by (nonlinear_arith);
    } else if y2 < y1 {
        assert((y2 + 1) * w <= y1 * w) by (nonlinear_arith)
            requires
                y2 < y1,
                0 < w,
        ;
        assert((y2 + 1) * w == y2 * w + w) by (nonlinear_arith);
    }
}

impl GreedyContext {
    pub open spec fn in_board(self, x: int, y: int) -> bool {
        0 <= x < self.width && 0 <= y < self.height
    }

    /// The tile at `(x, y)`; every cell off the board reads as empty.
    pub open spec fn tile_at(self, x: int, y: int) -> Tile {
        if self.in_board(x, y) {
            self.tiles@[y * self.width + x]
        } else {
            Tile::Empty
        }
    }

    /// The grid has positive dimensions and one cell per coordinate pair.
    pub open spec fn shaped(self) -> bool {
        &&& 0 < self.width
        &&& 0 < self.height
        &&& self.tiles@.len() == self.width * self.height
    }

    /// A board in play: its cells are laid out well and the score cannot
    /// overflow, even if every coin left were still won.
    pub open spec fn wf(self) -> bool {
        &&& self.layout_ok()
        &&& self.cleared + gold_total(self.tiles@) <= i32::MAX
    }

    /// The rogue stands on the board, it is the only rogue, and every pile
    /// holds one to nine coins.
    pub open spec fn layout_ok(self) -> bool {
        &&& self.shaped()
        &&& self.in_board(self.rogue_x as int, self.rogue_y as int)
        &&& forall|a: int, b: int|
            (#[trigger] self.tile_at(a, b) == Tile::Rogue) <==> (a == self.rogue_x && b
                == self.rogue_y)
        &&& forall|a: int, b: int| #[trigger] self.tile_at(a, b).valid()
    }

    /// An empty board of the given size with the rogue at its centre.
    pub fn new(width: i32, height: i32) -> (r: GreedyContext)
        requires
            0 < width,
            0 < height,
            width * height <= usize::MAX,
        ensures
            r.wf(),
            r.width == width,
            r.height == height,
            r.rogue_x == width / 2,
            r.rogue_y == height / 2,
            r.cleared == 0,
            forall|a: int, b: int|
                #[trigger] r.tile_at(a, b) == if a == width / 2 && b == height / 2 {
                    Tile::Rogue
                } else {
                    Tile::Empty
                },
    {
        let n = (width as usize) * (height as usize);
        let mut tiles: Vec<Tile> = Vec::new();
        let mut i: usize = 0;
        while i < n
            invariant
                i <= n,
                tiles@.len() == i,
                forall|j: int| 0 <= j < i ==> tiles@[j] == Tile::Empty,
                gold_total(tiles@) == 0,
            decreases n - i,
        {
            proof {
                assert(tiles@.push(Tile::Empty).drop_last() =~= tiles@);
            }
            tiles.push(Tile::Empty);
            i = i + 1;
        }
        let rogue_x = width / 2;
        let rogue_y = height / 2;
        let mut gc = GreedyContext { cleared: 0, rogue_x, rogue_y, width, height, tiles };
        proof {
            assert forall|a: int, b: int| gc.in_board(a, b) implies #[trigger] gc.tile_at(a, b)
                == Tile::Empty by {
                lemma_index_in_grid(width as int, height as int, a, b);
            }
        }
        gc.set_tile(rogue_x, rogue_y, Tile::Rogue);
        gc
    }

    /// Row-major position of an in-board cell.
    fn index_of(&self, x: i32, y: i32) -> (i: usize)
        requires
            self.shaped(),
            self.in_board(x as int, y as int),
        ensures
            i == y * self.width + x,
            i < self.tiles@.len(),
    {
        let len = self.tiles.len();
        proof {
            lemma_index_in_grid(self.width as int, self.height as int, x as int, y as int);
            assert(0 <= (y as int) * (self.width as int) <= y * self.width + x);
        }
        (y as usize) * (self.width as usize) + (x as usize)
    }

    pub fn in_bounds(&self, x: i32, y: i32) -> (r: bool)
        ensures
            r == self.in_board(x as int, y as int),
    {
        x >= 0 && y >= 0 && x < self.width && y < self.height
    }

    /// Reads a cell; any coordinate off the board gives `Empty`.
    pub fn tile(&self, x: i32, y: i32) -> (r: Tile)
        requires
            self.shaped(),
        ensures
            r == self.tile_at(x as int, y as int),
            !self.in_board(x as int, y as int) ==> r == Tile::Empty,
    {
        if !self.in_bounds(x, y) {
            return Tile::Empty;
        }
        self.tiles[self.index_of(x, y)]
    }

    /// Writes a cell on the board; nothing else changes.
    pub fn set_tile(&mut self, x: i32, y: i32, t: Tile)
        requires
            old(self).shaped(),
            old(self).in_board(x as int, y as int),
        ensures
            final(self).shaped(),
            final(self).width == old(self).width,
            final(self).height == old(self).height,
            final(self).rogue_x == old(self).rogue_x,
            final(self).rogue_y == old(self).rogue_y,
            final(self).cleared == old(self).cleared,
            final(self).tiles@ == old(self).tiles@.update(y * old(self).width + x, t),
            gold_total(final(self).tiles@) == gold_total(old(self).tiles@) - pile_value(
                old(self).tile_at(x as int, y as int),
            ) + pile_value(t),
            forall|a: int, b: int|
                #[trigger] final(self).tile_at(a, b) == if a == x && b == y {
                    t
                } else {
                    old(self).tile_at(a, b)
                },
    {
        let i = self.index_of(x, y);
        self.tiles.set(i, t);
        proof {
            let pre = *old(self);
            lemma_gold_total_update(pre.tiles@, i as int, t);
            assert forall|a: int, b: int| #[trigger]
                self.tile_at(a, b) == if a == x && b == y {
                    t
                } else {
                    pre.tile_at(a, b)
                } by {
                if self.in_board(a, b) {
                    lemma_index_in_grid(self.width as int, self.height as int, a, b);
                    if !(a == x && b == y) {
                        if b * self.width + a == y * self.width + x {
                            lemma_index_injective(self.width as int, a, b, x as int, y as int);
                        }
                    }
                }
            }
        }
    }
}

/// Every index of the grid is the row-major index of an in-board cell.
pub proof fn lemma_cell_of(w: int, h: int, i: int) -> (r: (int, int))
    requires
        0 < w,
        0 <= i < w * h,
    ensures
        0 <= r.0 < w,
        0 <= r.1 < h,
        r.1 * w + r.0 == i,
{
    let a = i % w;
    let b = i / w;
    vstd::arithmetic::div_mod::lemma_fundamental_div_mod(i, w);
    assert(0 <= a < w) by (nonlinear_arith)
        requires
            a == i % w,
            0 < w,
    ;
    assert(0 <= b < h) by (nonlinear_arith)
        requires
            b == i / w,
            0 <= i < w * h,
            0 < w,
    ;
    assert(b * w + a == i) by (nonlinear_arith)
        requires
            i == w * (i / w) + i % w,
            a == i % w,
            b == i / w,
    ;
    (a, b)
}

/// Valid cells make a valid grid, and the coins on it are bounded.
pub proof fn lemma_grid_gold_bounds(gc: GreedyContext)
    requires
        gc.shaped(),
        forall|a: int, b: int| #[trigger] gc.tile_at(a, b).valid(),
    ensures
        0 <= gold_total(gc.tiles@) <= 9 * gc.tiles@.len(),
{
    assert forall|i: int| 0 <= i < gc.tiles@.len() implies #[trigger] gc.tiles@[i].valid() by {
        let c = lemma_cell_of(gc.width as int, gc.height as int, i);
        assert(gc.tile_at(c.0, c.1).valid());
    }
    lemma_gold_total_bounds(gc.tiles@);
}

} // verus!
