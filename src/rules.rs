use vstd::prelude::*;
use crate::board::{gold_total, GreedyContext, Tile};
use crate::direction::{all_directions, lemma_all_directions_complete, Direction};

verus! {

/// Coordinate reached from `c` after `k` unit steps of sign `s`.
pub open spec fn step_coord(c: int, s: int, k: int) -> int {
    if s > 0 {
        c + k
    } else if s < 0 {
        c - k
    } else {
        c
    }
}

impl GreedyContext {
    /// Column of the cell `k` steps from the rogue in direction `d`.
    pub open spec fn pos_x(self, d: Direction, k: int) -> int {
        step_coord(self.rogue_x as int, d.spec_dx(), k)
    }

    /// Row of the cell `k` steps from the rogue in direction `d`.
    pub open spec fn pos_y(self, d: Direction, k: int) -> int {
        step_coord(self.rogue_y as int, d.spec_dy(), k)
    }

    /// The tile `k` steps from the rogue in direction `d`.
    pub open spec fn along(self, d: Direction, k: int) -> Tile {
        self.tile_at(self.pos_x(d, k), self.pos_y(d, k))
    }

    /// Value of the pile next to the rogue in direction `d` (zero if none).
    pub open spec fn pile(self, d: Direction) -> int {
        match self.along(d, 1) {
            Tile::Gold(n) => n as int,
            _ => 0,
        }
    }

    /// A leap in direction `d` is legal when the neighbouring cell holds a pile
    /// of `n` coins and the cells `2..=n` steps away are all non-empty.
    pub open spec fn legal(self, d: Direction) -> bool {
        match self.along(d, 1) {
            Tile::Gold(n) => forall|k: int| 2 <= k <= n ==> #[trigger] self.along(d, k) != Tile::Empty,
            _ => false,
        }
    }

    /// Number of steps from the rogue to `(a, b)` along `d`, read off the
    /// coordinate that `d` changes.
    pub open spec fn steps_to(self, d: Direction, a: int, b: int) -> int {
        if d.spec_dx() > 0 {
            a - self.rogue_x
        } else if d.spec_dx() < 0 {
            self.rogue_x - a
        } else if d.spec_dy() > 0 {
            b - self.rogue_y
        } else {
            self.rogue_y - b
        }
    }

    /// `(a, b)` is one of the cells `0..m` steps from the rogue along `d`.
    pub open spec fn on_run(self, d: Direction, m: int, a: int, b: int) -> bool {
        let k = self.steps_to(d, a, b);
        &&& 0 <= k < m
        &&& a == self.pos_x(d, k)
        &&& b == self.pos_y(d, k)
    }

    /// The tile at `(a, b)` once the rogue has leapt along `d`: the rogue on
    /// the far end of the run, every cell it left or crossed emptied.
    pub open spec fn tile_after(self, d: Direction, a: int, b: int) -> Tile {
        let n = self.pile(d);
        if a == self.pos_x(d, n) && b == self.pos_y(d, n) {
            Tile::Rogue
        } else if self.on_run(d, n, a, b) {
            Tile::Empty
        } else {
            self.tile_at(a, b)
        }
    }

    /// `next` is this board after a legal leap along `d`.
    pub open spec fn leaps_to(self, next: GreedyContext, d: Direction) -> bool {
        let n = self.pile(d);
        &&& next.width == self.width
        &&& next.height == self.height
        &&& next.tiles@.len() == self.tiles@.len()
        &&& next.rogue_x == self.pos_x(d, n)
        &&& next.rogue_y == self.pos_y(d, n)
        &&& next.cleared == self.cleared + n
        &&& forall|a: int, b: int| #[trigger] next.tile_at(a, b) == self.tile_after(d, a, b)
    }

    /// `next` holds exactly what this board holds.
    pub open spec fn same_as(self, next: GreedyContext) -> bool {
        &&& next.width == self.width
        &&& next.height == self.height
        &&& next.rogue_x == self.rogue_x
        &&& next.rogue_y == self.rogue_y
        &&& next.cleared == self.cleared
        &&& next.tiles@ == self.tiles@
    }

    /// What pressing direction `d` does: a leap where it is legal, nothing
    /// otherwise.
    pub open spec fn moves_to(self, next: GreedyContext, d: Direction) -> bool {
        if self.legal(d) {
            self.leaps_to(next, d)
        } else {
            self.same_as(next)
        }
    }

    /// The legal directions among `ds`, in the order of `ds`.
    pub open spec fn legal_among(self, ds: Seq<Direction>) -> Seq<Direction>
        decreases ds.len(),
    {
        if ds.len() == 0 {
            Seq::empty()
        } else {
            let rest = self.legal_among(ds.drop_last());
            if self.legal(ds.last()) {
                rest.push(ds.last())
            } else {
                rest
            }
        }
    }

    /// The legal directions in canonical order.
    pub open spec fn legal_moves(self) -> Seq<Direction> {
        self.legal_among(all_directions())
    }

    /// No direction is legal.
    pub open spec fn terminal(self) -> bool {
        self.legal_moves().len() == 0
    }
}

/// A direction is listed exactly when it is among the candidates and legal.
pub proof fn lemma_legal_among_contains(gc: GreedyContext, ds: Seq<Direction>, d: Direction)
    ensures
        gc.legal_among(ds).contains(d) <==> (ds.contains(d) && gc.legal(d)),
    decreases ds.len(),
{
    if ds.len() > 0 {
        lemma_legal_among_contains(gc, ds.drop_last(), d);
        let rest = gc.legal_among(ds.drop_last());
        if ds.drop_last().contains(d) {
            let i = choose|i: int| 0 <= i < ds.drop_last().len() && ds.drop_last()[i] == d;
            assert(ds[i] == d);
        }
        if ds.contains(d) && !ds.drop_last().contains(d) {
            let i = choose|i: int| 0 <= i < ds.len() && ds[i] == d;
            if i < ds.len() - 1 {
                assert(ds.drop_last()[i] == d);
            }
        }
        if gc.legal(ds.last()) {
            assert(rest.push(ds.last()).last() == ds.last());
            if rest.contains(d) {
                let i = choose|i: int| 0 <= i < rest.len() && rest[i] == d;
                assert(rest.push(ds.last())[i] == d);
            }
            if rest.push(ds.last()).contains(d) {
                let i = choose|i: int| 0 <= i < rest.len() + 1 && rest.push(ds.last())[i] == d;
                if i < rest.len() {
                    assert(rest[i] == d);
                }
            }
        }
    }
}

/// The listed moves are exactly the legal directions.
pub proof fn lemma_legal_moves_contains(gc: GreedyContext, d: Direction)
    ensures
        gc.legal_moves().contains(d) <==> gc.legal(d),
{
    lemma_all_directions_complete(d);
    lemma_legal_among_contains(gc, all_directions(), d);
}

/// Whether the rogue may leap along `d` from where it stands.
pub fn is_legal(gc: &GreedyContext, d: Direction) -> (r: bool)
    requires
        gc.wf(),
    ensures
        r == gc.legal(d),
{
    let dx = d.dx();
    let dy = d.dy();
    let mut x = gc.rogue_x + dx;
    let mut y = gc.rogue_y + dy;
    match gc.tile(x, y) {
        Tile::Gold(n) => {
            assert(gc.along(d, 1).valid());
            let mut k: i32 = 2;
            while k <= n
                invariant
                    gc.wf(),
                    2 <= k <= n + 1,
                    n <= 9,
                    dx == d.spec_dx(),
                    dy == d.spec_dy(),
                    gc.along(d, 1) == Tile::Gold(n),
                    x == gc.pos_x(d, k - 1),
                    y == gc.pos_y(d, k - 1),
                    gc.in_board(x as int, y as int),
                    forall|j: int| 2 <= j < k ==> #[trigger] gc.along(d, j) != Tile::Empty,
                decreases n + 1 - k,
            {
                x = x + dx;
                y = y + dy;
                if gc.tile(x, y) == Tile::Empty {
                    assert(gc.along(d, k as int) == Tile::Empty);
                    return false;
                }
                k = k + 1;
            }
            true
        },
        _ => false,
    }
}

/// The legal directions from the rogue's position, in canonical order.
pub fn valid_moves(gc: &GreedyContext) -> (r: Vec<Direction>)
    requires
        gc.wf(),
    ensures
        r@ == gc.legal_moves(),
        forall|d: Direction| r@.contains(d) <==> gc.legal(d),
        forall|i: int|
            0 <= i < r@.len() ==> {
                &&& gc.in_board(gc.pos_x(r@[i], 1), gc.pos_y(r@[i], 1))
                &&& #[trigger] gc.along(r@[i], 1) is Gold
            },
{
    let dirs = Direction::iter();
    let mut r: Vec<Direction> = Vec::new();
    let mut i: usize = 0;
    while i < dirs.len()
        invariant
            gc.wf(),
            dirs@ == all_directions(),
            0 <= i <= dirs@.len(),
            r@ == gc.legal_among(dirs@.take(i as int)),
        decreases dirs@.len() - i,
    {
        let d = dirs[i];
        proof {
            assert(dirs@.take(i + 1).drop_last() =~= dirs@.take(i as int));
            assert(dirs@.take(i + 1).last() == d);
        }
        if is_legal(gc, d) {
            r.push(d);
        }
        i = i + 1;
    }
    proof {
        assert(dirs@.take(i as int) =~= dirs@);
        assert forall|d: Direction| r@.contains(d) <==> gc.legal(d) by {
            lemma_legal_moves_contains(*gc, d);
        }
        assert forall|i: int| 0 <= i < r@.len() implies {
            &&& gc.in_board(gc.pos_x(r@[i], 1), gc.pos_y(r@[i], 1))
            &&& #[trigger] gc.along(r@[i], 1) is Gold
        } by {
            let d = r@[i];
            assert(r@.contains(d));
            assert(gc.legal(d));
            match gc.along(d, 1) {
                Tile::Gold(n) => {},
                _ => {},
            }
        }
    }
    r
}

/// A leap starts from the rogue's own cell: no direction has a zero step.
pub proof fn lemma_step_nonzero(d: Direction)
    ensures
        d.spec_dx() != 0 || d.spec_dy() != 0,
        -1 <= d.spec_dx() <= 1,
        -1 <= d.spec_dy() <= 1,
{
}

/// Every cell that a legal leap reads, from the landing pile to the far end
/// of the run, lies on the board.
pub proof fn lemma_run_in_board(gc: GreedyContext, d: Direction, k: int)
    requires
        gc.wf(),
        gc.legal(d),
        1 <= k,
        k == 1 || k <= gc.pile(d),
    ensures
        gc.in_board(gc.pos_x(d, k), gc.pos_y(d, k)),
        gc.along(d, k) != Tile::Empty,
        1 <= gc.pile(d) <= 9,
        k <= gc.pile(d),
{
    assert(gc.along(d, 1).valid());
    if k >= 2 {
        assert(gc.along(d, k) != Tile::Empty);
    }
}

/// A leap keeps the cells laid out well: one rogue, on the board, on the far
/// end of the run.
pub proof fn lemma_leap_keeps_layout(pre: GreedyContext, post: GreedyContext, d: Direction)
    requires
        pre.wf(),
        pre.legal(d),
        pre.leaps_to(post, d),
    ensures
        post.layout_ok(),
{
    let n = pre.pile(d);
    lemma_run_in_board(pre, d, 1);
    lemma_run_in_board(pre, d, n);
    lemma_step_nonzero(d);
    assert(pre.on_run(d, n, pre.rogue_x as int, pre.rogue_y as int));
    assert forall|a: int, b: int|
        (#[trigger] post.tile_at(a, b) == Tile::Rogue) <==> (a == post.rogue_x && b
            == post.rogue_y) by {
        assert(post.tile_at(a, b) == pre.tile_after(d, a, b));
        assert(pre.tile_at(a, b) == Tile::Rogue <==> (a == pre.rogue_x && b == pre.rogue_y));
    }
    assert forall|a: int, b: int| #[trigger] post.tile_at(a, b).valid() by {
        assert(post.tile_at(a, b) == pre.tile_after(d, a, b));
        assert(pre.tile_at(a, b).valid());
    }
}

/// Presses direction `dir`: where the leap is legal, the rogue's cell and the
/// run up to its far end are emptied, the pile's value is added to the score
/// and the rogue lands on the far end; otherwise nothing changes.
pub fn move_rogue(gc: &mut GreedyContext, dir: Direction)
    requires
        old(gc).wf(),
    ensures
        old(gc).moves_to(*final(gc), dir),
        final(gc).wf(),
{
    let ghost pre0 = *gc;
    let valid = valid_moves(gc);
    let mut found = false;
    let mut j: usize = 0;
    while j < valid.len()
        invariant
            0 <= j <= valid@.len(),
            found <==> exists|k: int| 0 <= k < j && valid@[k] == dir,
        decreases valid@.len() - j,
    {
        if valid[j] == dir {
            found = true;
        }
        j = j + 1;
    }
    if !found {
        proof {
            if pre0.legal(dir) {
                assert(valid@.contains(dir));
                let k = choose|k: int| 0 <= k < valid@.len() && valid@[k] == dir;
                assert(false);
            }
        }
        return;
    }
    let ghost pre = *gc;
    proof {
        lemma_step_nonzero(dir);
        lemma_run_in_board(pre, dir, 1);
    }
    let dx = dir.dx();
    let dy = dir.dy();
    let rx = gc.rogue_x;
    let ry = gc.rogue_y;
    gc.set_tile(rx, ry, Tile::Empty);
    let ghost g1 = *gc;
    let mut x = rx + dx;
    let mut y = ry + dy;
    match gc.tile(x, y) {
        Tile::Gold(n) => {
            let ghost g2 = *gc;
            gc.set_tile(x, y, Tile::Empty);
            proof {
                assert(x == pre.pos_x(dir, 1) && y == pre.pos_y(dir, 1));
                assert(!(x == rx && y == ry));
                assert(pre.pile(dir) == n);
                assert forall|a: int, b: int| #[trigger]
                    gc.tile_at(a, b) == if pre.on_run(dir, 2, a, b) {
                        Tile::Empty
                    } else {
                        pre.tile_at(a, b)
                    } by {
                    assert(g2.tile_at(a, b) == g1.tile_at(a, b));
                    assert(gc.tile_at(a, b) == if a == x && b == y {
                        Tile::Empty
                    } else {
                        g2.tile_at(a, b)
                    });
                    assert(g1.tile_at(a, b) == if a == rx && b == ry {
                        Tile::Empty
                    } else {
                        pre.tile_at(a, b)
                    });
                    if pre.on_run(dir, 2, a, b) {
                        if pre.steps_to(dir, a, b) == 0 {
                            assert(a == rx && b == ry);
                        } else {
                            assert(a == x && b == y);
                        }
                    }
                    if a == rx && b == ry {
                        assert(pre.on_run(dir, 2, a, b));
                    }
                    if a == x && b == y {
                        assert(pre.on_run(dir, 2, a, b));
                    }
                }
                assert forall|a: int, b: int| #[trigger] gc.tile_at(a, b).valid() by {
                    assert(pre.tile_at(a, b).valid());
                }
                crate::board::lemma_grid_gold_bounds(*gc);
            }
            let ghost g4 = *gc;
            gc.cleared = gc.cleared + n;
            proof {
                assert forall|a: int, b: int| #[trigger]
                    gc.tile_at(a, b) == if pre.on_run(dir, 2, a, b) {
                        Tile::Empty
                    } else {
                        pre.tile_at(a, b)
                    } by {
                    assert(gc.tile_at(a, b) == g4.tile_at(a, b));
                }
            }
            let mut i: i32 = 1;
            while i < n
                invariant
                    pre.wf(),
                    pre.legal(dir),
                    pre.pile(dir) == n,
                    1 <= i <= n,
                    n <= 9,
                    dx == dir.spec_dx(),
                    dy == dir.spec_dy(),
                    gc.shaped(),
                    gc.width == pre.width,
                    gc.height == pre.height,
                    gc.rogue_x == pre.rogue_x,
                    gc.rogue_y == pre.rogue_y,
                    gc.cleared == pre.cleared + n,
                    gc.tiles@.len() == pre.tiles@.len(),
                    gc.cleared + gold_total(gc.tiles@) <= pre.cleared + gold_total(pre.tiles@),
                    x == pre.pos_x(dir, i as int),
                    y == pre.pos_y(dir, i as int),
                    forall|a: int, b: int| #[trigger]
                        gc.tile_at(a, b) == if pre.on_run(dir, i + 1, a, b) {
                            Tile::Empty
                        } else {
                            pre.tile_at(a, b)
                        },
                decreases n - i,
            {
                proof {
                    lemma_run_in_board(pre, dir, i + 1);
                }
                x = x + dx;
                y = y + dy;
                proof {
                    assert(pre.tile_at(x as int, y as int).valid());
                    assert(gc.tile_at(x as int, y as int).valid());
                }
                gc.set_tile(x, y, Tile::Empty);
                i = i + 1;
            }
            proof {
                lemma_run_in_board(pre, dir, n as int);
                assert(pre.on_run(dir, n + 1, x as int, y as int));
            }
            let ghost g_end = *gc;
            gc.rogue_x = x;
            gc.rogue_y = y;
            let ghost g3 = *gc;
            gc.set_tile(x, y, Tile::Rogue);
            proof {
                assert forall|a: int, b: int| #[trigger]
                    gc.tile_at(a, b) == pre.tile_after(dir, a, b) by {
                    assert(g3.tile_at(a, b) == g_end.tile_at(a, b));
                    assert(g3.tile_at(a, b) == if pre.on_run(dir, n + 1, a, b) {
                        Tile::Empty
                    } else {
                        pre.tile_at(a, b)
                    });
                    if pre.on_run(dir, n + 1, a, b) && pre.steps_to(dir, a, b) == n {
                        assert(a == x && b == y);
                    }
                }
                assert(g_end.tile_at(x as int, y as int) == Tile::Empty);
                assert(g3.tile_at(x as int, y as int) == Tile::Empty);
                assert(gc.cleared + gold_total(gc.tiles@) <= pre.cleared + gold_total(pre.tiles@));
            }
        },
        _ => {},
    }
    proof {
        lemma_leap_keeps_layout(pre, *gc, dir);
    }
}

/// The game is over: no direction offers a legal leap.
pub fn game_over(gc: &GreedyContext) -> (r: bool)
    requires
        gc.wf(),
    ensures
        r == gc.terminal(),
        r <==> forall|d: Direction| !gc.legal(d),
{
    let moves = valid_moves(gc);
    proof {
        if moves@.len() > 0 {
            assert(moves@.contains(moves@[0]));
            assert(gc.legal(moves@[0]));
        } else {
            assert forall|d: Direction| !gc.legal(d) by {
                if gc.legal(d) {
                    assert(moves@.contains(d));
                }
            }
        }
    }
    moves.len() == 0
}

/// A legal leap empties exactly the cells `0..n` steps along its direction
/// (the rogue's old cell and the run short of its far end), which are `n`
/// distinct cells that all held something; the rogue lands on the far end;
/// every other cell is untouched; the score grows by the pile's value `n`.
pub proof fn lemma_leap_consumes_run(pre: GreedyContext, post: GreedyContext, d: Direction)
    requires
        pre.wf(),
        pre.legal(d),
        pre.moves_to(post, d),
    ensures
        post.cleared == pre.cleared + pre.pile(d),
        post.rogue_x == pre.pos_x(d, pre.pile(d)),
        post.rogue_y == pre.pos_y(d, pre.pile(d)),
        post.tile_at(post.rogue_x as int, post.rogue_y as int) == Tile::Rogue,
        forall|a: int, b: int|
            (pre.tile_at(a, b) != Tile::Empty && #[trigger] post.tile_at(a, b) == Tile::Empty)
                <==> pre.on_run(d, pre.pile(d), a, b),
        forall|j: int, k: int|
            0 <= j < k <= pre.pile(d) ==> (pre.pos_x(d, j) != pre.pos_x(d, k) || pre.pos_y(d, j)
                != pre.pos_y(d, k)),
        forall|a: int, b: int|
            !pre.on_run(d, pre.pile(d) + 1, a, b) ==> #[trigger] post.tile_at(a, b)
                == pre.tile_at(a, b),
{
    let n = pre.pile(d);
    lemma_run_in_board(pre, d, 1);
    lemma_step_nonzero(d);
    assert(post.tile_at(post.rogue_x as int, post.rogue_y as int) == pre.tile_after(
        d,
        post.rogue_x as int,
        post.rogue_y as int,
    ));
    assert forall|a: int, b: int|
        (pre.tile_at(a, b) != Tile::Empty && #[trigger] post.tile_at(a, b) == Tile::Empty)
            <==> pre.on_run(d, n, a, b) by {
        assert(post.tile_at(a, b) == pre.tile_after(d, a, b));
        if pre.on_run(d, n, a, b) {
            let k = pre.steps_to(d, a, b);
            if k == 0 {
                assert(pre.tile_at(a, b) == Tile::Rogue);
            } else {
                lemma_run_in_board(pre, d, k);
            }
        }
    }
    assert forall|a: int, b: int|
        !pre.on_run(d, n + 1, a, b) implies #[trigger] post.tile_at(a, b) == pre.tile_at(a, b) by {
        assert(post.tile_at(a, b) == pre.tile_after(d, a, b));
        if a == pre.pos_x(d, n) && b == pre.pos_y(d, n) {
            assert(pre.on_run(d, n + 1, a, b));
        }
    }
}

/// Pressing a direction that is not among the listed moves changes nothing.
pub proof fn lemma_unlisted_is_noop(pre: GreedyContext, post: GreedyContext, d: Direction)
    requires
        pre.wf(),
        !pre.legal_moves().contains(d),
        pre.moves_to(post, d),
    ensures
        pre.same_as(post),
{
    lemma_legal_moves_contains(pre, d);
}

/// Once no move is listed the game stays over: any further press leaves
/// the board as it was, still without a move.
pub proof fn lemma_terminal_stays(pre: GreedyContext, post: GreedyContext, d: Direction)
    requires
        pre.wf(),
        pre.terminal(),
        pre.moves_to(post, d),
    ensures
        pre.same_as(post),
        post.wf(),
        post.terminal(),
{
    lemma_legal_moves_contains(pre, d);
    assert forall|a: int, b: int| #[trigger] post.tile_at(a, b) == pre.tile_at(a, b) by {}
    assert forall|e: Direction| !post.legal(e) by {
        lemma_legal_moves_contains(pre, e);
        assert forall|k: int| #[trigger] post.along(e, k) == pre.along(e, k) by {
            assert(post.tile_at(post.pos_x(e, k), post.pos_y(e, k)) == pre.tile_at(
                pre.pos_x(e, k),
                pre.pos_y(e, k),
            ));
        }
        if post.legal(e) {
            assert(post.along(e, 1) == pre.along(e, 1));
            match pre.along(e, 1) {
                Tile::Gold(n) => {
                    assert forall|k: int| 2 <= k <= n implies #[trigger] pre.along(e, k)
                        != Tile::Empty by {
                        assert(post.along(e, k) == pre.along(e, k));
                    }
                },
                _ => {},
            }
            assert(pre.legal(e));
            assert(pre.legal_moves().contains(e));
        }
    }
    if post.legal_moves().len() > 0 {
        lemma_legal_moves_contains(post, post.legal_moves()[0]);
        assert(post.legal_moves().contains(post.legal_moves()[0]));
    }
}

impl GreedyContext {
    /// The cells `1..=m` steps from the rogue along `d`, nearest first.
    pub open spec fn run_cells(self, d: Direction, m: int) -> Seq<(int, int)>
        decreases m,
    {
        if m <= 0 {
            Seq::empty()
        } else {
            self.run_cells(d, m - 1).push((self.pos_x(d, m), self.pos_y(d, m)))
        }
    }

    /// The runs of the directions `ds`, one after another.
    pub open spec fn runs_of(self, ds: Seq<Direction>) -> Seq<(int, int)>
        decreases ds.len(),
    {
        if ds.len() == 0 {
            Seq::empty()
        } else {
            self.runs_of(ds.drop_last()) + self.run_cells(ds.last(), self.pile(ds.last()))
        }
    }
}

/// Machine coordinates read as mathematical pairs.
pub open spec fn as_cells(v: Seq<(i32, i32)>) -> Seq<(int, int)> {
    v.map_values(|p: (i32, i32)| (p.0 as int, p.1 as int))
}

/// The cells that the moves view highlights: for each legal direction in
/// canonical order, the landing pile and the rest of its run, nearest first.
pub fn print_moves(gc: &GreedyContext) -> (r: Vec<(i32, i32)>)
    requires
        gc.wf(),
    ensures
        as_cells(r@) == gc.runs_of(gc.legal_moves()),
{
    let moves = valid_moves(gc);
    let mut r: Vec<(i32, i32)> = Vec::new();
    let mut i: usize = 0;
    while i < moves.len()
        invariant
            gc.wf(),
            moves@ == gc.legal_moves(),
            forall|d: Direction| moves@.contains(d) <==> gc.legal(d),
            0 <= i <= moves@.len(),
            as_cells(r@) == gc.runs_of(moves@.take(i as int)),
        decreases moves@.len() - i,
    {
        let d = moves[i];
        proof {
            assert(moves@.contains(d));
            lemma_run_in_board(*gc, d, 1);
            lemma_step_nonzero(d);
            assert(moves@.take(i + 1).drop_last() =~= moves@.take(i as int));
            assert(moves@.take(i + 1).last() == d);
        }
        let ghost before = gc.runs_of(moves@.take(i as int));
        let dx = d.dx();
        let dy = d.dy();
        let mut x = gc.rogue_x;
        let mut y = gc.rogue_y;
        match gc.tile(x + dx, y + dy) {
            Tile::Gold(n) => {
                let mut k: i32 = 0;
                proof {
                    assert(before + gc.run_cells(d, 0) =~= before);
                }
                while k < n
                    invariant
                        gc.wf(),
                        gc.legal(d),
                        gc.pile(d) == n,
                        0 <= k <= n,
                        dx == d.spec_dx(),
                        dy == d.spec_dy(),
                        x == gc.pos_x(d, k as int),
                        y == gc.pos_y(d, k as int),
                        as_cells(r@) == before + gc.run_cells(d, k as int),
                    decreases n - k,
                {
                    proof {
                        lemma_run_in_board(*gc, d, k + 1);
                    }
                    x = x + dx;
                    y = y + dy;
                    let ghost old_r = r@;
                    r.push((x, y));
                    proof {
                        assert(as_cells(r@) =~= as_cells(old_r).push((x as int, y as int)));
                        assert(before + gc.run_cells(d, k + 1) =~= (before + gc.run_cells(
                            d,
                            k as int,
                        )).push((x as int, y as int)));
                    }
                    k = k + 1;
                }
            },
            _ => {},
        }
        i = i + 1;
    }
    proof {
        assert(moves@.take(i as int) =~= moves@);
    }
    r
}

} // verus!
