use vstd::prelude::*;
use crate::board::{GreedyContext, Tile};

verus! {

/// Relies on rand's `Rng::gen_range(low, high)` on the thread-local generator:
/// a value in `[low, high)`; it panics unless `low < high`.
#[verifier::external_body]
fn gen_between(low: i32, high: i32) -> (r: i32)
    requires
        low < high,
    ensures
        low <= r < high,
{
    rand::Rng::gen_range(&mut rand::thread_rng(), low, high)
}

/// Sum of a sequence of draws.
pub open spec fn seq_sum(s: Seq<i32>) -> int
    decreases s.len(),
{
    if s.len() == 0 {
        0
    } else {
        seq_sum(s.drop_last()) + s.last()
    }
}

/// Adds up throws of a die with faces `1..=sides`.
pub fn sum_draws(draws: &Vec<i32>, sides: i32) -> (r: i32)
    requires
        1 <= sides,
        forall|i: int| 0 <= i < draws@.len() ==> 1 <= #[trigger] draws@[i] <= sides,
        draws@.len() * sides <= i32::MAX,
    ensures
        r == seq_sum(draws@),
        draws@.len() <= r <= draws@.len() * sides,
{
    let mut sum: i32 = 0;
    let mut i: usize = 0;
    while i < draws.len()
        invariant
            1 <= sides,
            forall|j: int| 0 <= j < draws@.len() ==> 1 <= #[trigger] draws@[j] <= sides,
            draws@.len() * sides <= i32::MAX,
            0 <= i <= draws@.len(),
            sum == seq_sum(draws@.take(i as int)),
            i <= sum <= i * sides,
        decreases draws@.len() - i,
    {
        proof {
            assert(draws@.take(i + 1).drop_last() =~= draws@.take(i as int));
            assert((i + 1) * sides == i * sides + sides) by (nonlinear_arith);
            assert((i + 1) * sides <= draws@.len() * sides) by (nonlinear_arith)
                requires
                    i + 1 <= draws@.len(),
                    0 < sides,
            ;
        }
        sum = sum + draws[i];
        i = i + 1;
    }
    proof {
        assert(draws@.take(i as int) =~= draws@);
    }
    sum
}

/// The sum of `dice` throws of a die with faces `1..=sides`.
pub fn roll(dice: i32, sides: i32) -> (r: i32)
    requires
        0 <= dice,
        1 <= sides < i32::MAX,
        dice * sides <= i32::MAX,
    ensures
        dice <= r <= dice * sides,
{
    let mut draws: Vec<i32> = Vec::new();
    let mut i: i32 = 0;
    while i < dice
        invariant
            0 <= i <= dice,
            1 <= sides < i32::MAX,
            draws@.len() == i,
            forall|j: int| 0 <= j < draws@.len() ==> 1 <= #[trigger] draws@[j] <= sides,
        decreases dice - i,
    {
        let v = gen_between(1, sides + 1);
        draws.push(v);
        i = i + 1;
    }
    sum_draws(&draws, sides)
}

impl GreedyContext {
    /// This board is a fresh deal of `piles`: the cell `(x, y)` holds the
    /// pile `piles[x * height + y]`, except the centre, which holds the
    /// rogue; the score starts at one.
    pub open spec fn dealt_from(self, piles: Seq<i32>) -> bool {
        &&& self.shaped()
        &&& piles.len() == self.width * self.height
        &&& self.rogue_x == self.width / 2
        &&& self.rogue_y == self.height / 2
        &&& self.cleared == 1
        &&& forall|a: int, b: int|
            #![trigger self.tile_at(a, b)]
            self.in_board(a, b) ==> self.tile_at(a, b) == if a == self.rogue_x && b
                == self.rogue_y {
                Tile::Rogue
            } else {
                Tile::Gold(piles[a * self.height + b])
            }
    }
}

/// The deal is fixed by its piles: two boards of one size dealt the same
/// piles are equal, cell for cell.
pub proof fn lemma_deal_determined(g1: GreedyContext, g2: GreedyContext, piles: Seq<i32>)
    requires
        g1.dealt_from(piles),
        g2.dealt_from(piles),
        g1.width == g2.width,
        g1.height == g2.height,
    ensures
        g1.same_as(g2),
{
    let w = g1.width as int;
    let h = g1.height as int;
    assert forall|i: int| 0 <= i < g1.tiles@.len() implies g1.tiles@[i] == g2.tiles@[i] by {
        let c = crate::board::lemma_cell_of(w, h, i);
        assert(g1.tile_at(c.0, c.1) == g2.tile_at(c.0, c.1));
    }
    assert(g1.tiles@ =~= g2.tiles@);
}

/// Lays out a fresh game from the given piles, one per cell in the order
/// `x * height + y`; the rogue then takes the centre cell and the score
/// starts at one (the rogue's own cell).
pub fn deal(gc: &mut GreedyContext, piles: &Vec<i32>)
    requires
        old(gc).shaped(),
        piles@.len() == old(gc).width * old(gc).height,
        forall|i: int| 0 <= i < piles@.len() ==> 1 <= #[trigger] piles@[i] <= 9,
        9 * piles@.len() < i32::MAX,
    ensures
        final(gc).wf(),
        final(gc).dealt_from(piles@),
        final(gc).width == old(gc).width,
        final(gc).height == old(gc).height,
{
    let w = gc.width;
    let h = gc.height;
    let mut x: i32 = 0;
    while x < w
        invariant
            gc.shaped(),
            gc.width == w,
            gc.height == h,
            piles@.len() == w * h,
            forall|i: int| 0 <= i < piles@.len() ==> 1 <= #[trigger] piles@[i] <= 9,
            0 <= x <= w,
            forall|a: int, b: int|
                #![trigger gc.tile_at(a, b)]
                gc.in_board(a, b) && a < x ==> gc.tile_at(a, b) == Tile::Gold(piles@[a * h + b]),
        decreases w - x,
    {
        let mut y: i32 = 0;
        while y < h
            invariant
                gc.shaped(),
                gc.width == w,
                gc.height == h,
                piles@.len() == w * h,
                forall|i: int| 0 <= i < piles@.len() ==> 1 <= #[trigger] piles@[i] <= 9,
                0 <= x < w,
                0 <= y <= h,
                forall|a: int, b: int|
                    #![trigger gc.tile_at(a, b)]
                    gc.in_board(a, b) && (a < x || (a == x && b < y)) ==> gc.tile_at(a, b)
                        == Tile::Gold(piles@[a * h + b]),
            decreases h - y,
        {
            let len = piles.len();
            proof {
                crate::board::lemma_index_in_grid(h as int, w as int, y as int, x as int);
                assert(h * w == w * h) by (nonlinear_arith);
                assert(0 <= (x as int) * (h as int) <= x * h + y);
            }
            let k = (x as usize) * (h as usize) + (y as usize);
            gc.set_tile(x, y, Tile::Gold(piles[k]));
            y = y + 1;
        }
        x = x + 1;
    }
    let ghost dealt = *gc;
    gc.cleared = 1;
    let rx = w / 2;
    let ry = h / 2;
    gc.rogue_x = rx;
    gc.rogue_y = ry;
    let ghost filled = *gc;
    gc.set_tile(rx, ry, Tile::Rogue);
    proof {
        assert forall|a: int, b: int|
            #![trigger gc.tile_at(a, b)]
            gc.in_board(a, b) implies gc.tile_at(a, b) == if a == rx && b == ry {
                Tile::Rogue
            } else {
                Tile::Gold(piles@[a * h + b])
            } by {
            assert(filled.tile_at(a, b) == dealt.tile_at(a, b));
        }
        assert forall|a: int, b: int| #[trigger] gc.tile_at(a, b).valid() by {
            assert(filled.tile_at(a, b) == dealt.tile_at(a, b));
            if gc.in_board(a, b) && !(a == rx && b == ry) {
                crate::board::lemma_index_in_grid(h as int, w as int, b, a);
                assert(h * w == w * h) by (nonlinear_arith);
            }
        }
        assert forall|a: int, b: int|
            (#[trigger] gc.tile_at(a, b) == Tile::Rogue) <==> (a == rx && b == ry) by {
            assert(filled.tile_at(a, b) == dealt.tile_at(a, b));
        }
        crate::board::lemma_grid_gold_bounds(*gc);
    }
}

/// Deals a fresh game: every cell gets a pile of one to nine coins thrown
/// with a nine-sided die, then the rogue takes the centre cell and the score
/// starts at one (the rogue's own cell).
pub fn setup_game(gc: &mut GreedyContext)
    requires
        old(gc).shaped(),
        9 * old(gc).tiles@.len() < i32::MAX,
    ensures
        final(gc).wf(),
        final(gc).width == old(gc).width,
        final(gc).height == old(gc).height,
        final(gc).rogue_x == old(gc).width / 2,
        final(gc).rogue_y == old(gc).height / 2,
        final(gc).cleared == 1,
        forall|a: int, b: int|
            #![trigger final(gc).tile_at(a, b)]
            final(gc).in_board(a, b) && !(a == final(gc).rogue_x && b == final(gc).rogue_y)
                ==> final(gc).tile_at(a, b) is Gold,
{
    let n = gc.tiles.len();
    let mut piles: Vec<i32> = Vec::new();
    let mut i: usize = 0;
    while i < n
        invariant
            n == gc.tiles@.len(),
            0 <= i <= n,
            piles@.len() == i,
            forall|j: int| 0 <= j < piles@.len() ==> 1 <= #[trigger] piles@[j] <= 9,
        decreases n - i,
    {
        piles.push(roll(1, 9));
        i = i + 1;
    }
    deal(gc, &piles);
}

} // verus!
