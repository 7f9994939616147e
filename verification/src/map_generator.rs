//! Random tile grids for a round, and the rules a grid has to meet: no
//! solid 2x2 blocks, a sparse ceiling, no gaps one tile wide, every ledge
//! within jumping reach, and every empty tile connected to every other.

use rand::distributions::{Distribution, Uniform};
use rand::Rng;
use vstd::prelude::*;

verus! {

/// A solid rectangle of tiles: the grid position of its top-left tile and
/// its size in tiles.
#[derive(Debug, Clone, Copy, PartialEq, Eq, Structural)]
pub struct Wall {
    pub x: u8,
    pub y: u8,
    pub width: u8,
    pub height: u8,
}

impl Wall {
    /// The wall covers the tile `(gx, gy)`.
    pub open spec fn covers(&self, gx: int, gy: int) -> bool {
        self.x <= gx < self.x + self.width && self.y <= gy < self.y + self.height
    }

    /// The wall lies within a grid of `width` by `height` tiles.
    pub open spec fn within(&self, width: int, height: int) -> bool {
        self.x + self.width <= width && self.y + self.height <= height
    }

    /// The columns of one wall hold the first column of the other, and the
    /// rows of one hold the first row of the other.
    pub open spec fn meets(&self, other: &Self) -> bool {
        &&& (self.x <= other.x < self.x + self.width || other.x <= self.x < other.x + other.width)
        &&& (self.y <= other.y < self.y + self.height || other.y <= self.y < other.y
            + other.height)
    }

    pub fn new(x: u8, y: u8, width: u8, height: u8) -> (r: Self)
        ensures
            r == (Wall { x, y, width, height }),
    {
        Self { x, y, width, height }
    }

    /// Whether the two walls share a tile, given that neither is empty.
    pub fn intersects(&self, other: &Self) -> (r: bool)
        ensures
            r == self.meets(other),
    {
        let sx: u16 = self.x as u16;
        let sy: u16 = self.y as u16;
        let ox: u16 = other.x as u16;
        let oy: u16 = other.y as u16;
        let x_intersects = (sx <= ox && ox < sx + self.width as u16) || (ox <= sx && sx < ox
            + other.width as u16);
        let y_intersects = (sy <= oy && oy < sy + self.height as u16) || (oy <= sy && sy < oy
            + other.height as u16);
        x_intersects && y_intersects
    }

    /// Whether the wall is one tile high.
    pub fn is_horizontal(&self) -> (r: bool)
        ensures
            r == (self.height == 1),
    {
        self.height == 1
    }
}

/// Two walls that are not empty share a tile exactly if they meet.
pub proof fn lemma_meets_is_shared_tile(a: Wall, b: Wall)
    requires
        a.width > 0,
        a.height > 0,
        b.width > 0,
        b.height > 0,
    ensures
        a.meets(&b) <==> exists|gx: int, gy: int| a.covers(gx, gy) && b.covers(gx, gy),
{
    if a.meets(&b) {
        let gx = if a.x <= b.x {
            b.x as int
        } else {
            a.x as int
        };
        let gy = if a.y <= b.y {
            b.y as int
        } else {
            a.y as int
        };
        assert(a.covers(gx, gy) && b.covers(gx, gy));
    }
}

/// Some wall of the sequence covers the tile `(gx, gy)`.
pub open spec fn covered(walls: Seq<Wall>, gx: int, gy: int) -> bool {
    exists|i: int| 0 <= i < walls.len() && (#[trigger] walls[i]).covers(gx, gy)
}

/// The grid of `width` by `height` tiles in which exactly the tiles that
/// some wall covers are solid.
pub open spec fn grid_of(walls: Seq<Wall>, width: int, height: int) -> Seq<Seq<bool>> {
    Seq::new(width as nat, |gx: int| Seq::new(height as nat, |gy: int| covered(walls, gx, gy)))
}

/// The grid is `width` columns of `height` tiles each.
pub open spec fn shaped(grid: Seq<Seq<bool>>, width: int, height: int) -> bool {
    &&& grid.len() == width
    &&& forall|gx: int| 0 <= gx < grid.len() ==> (#[trigger] grid[gx]).len() == height
}

/// The occupancy of a grid held in vectors.
pub open spec fn grid_view(grid: Seq<Vec<bool>>) -> Seq<Seq<bool>> {
    Seq::new(grid.len(), |gx: int| grid[gx]@)
}

/// A grid of `width` by `height` empty tiles.
fn empty_grid(width: u8, height: u8) -> (grid: Vec<Vec<bool>>)
    ensures
        grid.len() == width,
        forall|gx: int| 0 <= gx < width ==> (#[trigger] grid[gx]).len() == height,
        forall|gx: int, gy: int| 0 <= gx < width && 0 <= gy < height ==> !(#[trigger] grid[gx][gy]),
{
    let mut grid: Vec<Vec<bool>> = Vec::new();
    let mut gx: u8 = 0;
    while gx < width
        invariant
            gx <= width,
            grid.len() == gx,
            forall|i: int| 0 <= i < gx ==> (#[trigger] grid[i]).len() == height,
            forall|i: int, j: int| 0 <= i < gx && 0 <= j < height ==> !(#[trigger] grid[i][j]),
        decreases width - gx,
    {
        let mut column: Vec<bool> = Vec::new();
        let mut gy: u8 = 0;
        while gy < height
            invariant
                gy <= height,
                column.len() == gy,
                forall|j: int| 0 <= j < gy ==> !(#[trigger] column[j]),
            decreases height - gy,
        {
            column.push(false);
            gy += 1;
        }
        grid.push(column);
        gx += 1;
    }
    grid
}

/// The grid of `width` by `height` tiles in which the tiles covered by
/// `walls` are solid and all others empty.
pub fn to_grid(walls: &[Wall], width: u8, height: u8) -> (grid: Vec<Vec<bool>>)
    requires
        forall|i: int| 0 <= i < walls.len()
            ==> (#[trigger] walls[i]).within(width as int, height as int),
    ensures
        grid_view(grid@) == grid_of(walls@, width as int, height as int),
{
    let mut grid = empty_grid(width, height);
    let mut k: usize = 0;
    while k < walls.len()
        invariant
            k <= walls.len(),
            grid.len() == width,
            forall|i: int| 0 <= i < walls.len()
                ==> (#[trigger] walls[i]).within(width as int, height as int),
            forall|gx: int| 0 <= gx < width ==> (#[trigger] grid[gx]).len() == height,
            forall|gx: int, gy: int|
                0 <= gx < width && 0 <= gy < height ==> (#[trigger] grid[gx][gy]) == covered(
                    walls@.take(k as int),
                    gx,
                    gy,
                ),
        decreases walls.len() - k,
    {
        let wall = walls[k];
        let ghost done = walls@.take(k as int);
        let ghost next = walls@.take(k + 1);
        proof {
            assert forall|gx: int, gy: int| covered(next, gx, gy) == (covered(done, gx, gy)
                || wall.covers(gx, gy)) by {
                if covered(done, gx, gy) {
                    let i = choose|i: int| 0 <= i < done.len()
                        && (#[trigger] done[i]).covers(gx, gy);
                    assert(next[i].covers(gx, gy));
                }
                if wall.covers(gx, gy) {
                    assert(next[k as int].covers(gx, gy));
                }
                if covered(next, gx, gy) {
                    let i = choose|i: int| 0 <= i < next.len()
                        && (#[trigger] next[i]).covers(gx, gy);
                    if i < k {
                        assert(done[i].covers(gx, gy));
                    }
                }
            }
        }
        let x_end: u16 = wall.x as u16 + wall.width as u16;
        let y_end: u16 = wall.y as u16 + wall.height as u16;
        let mut x: u16 = wall.x as u16;
        while x < x_end
            invariant
                wall.x <= x <= x_end,
                x_end == wall.x + wall.width,
                y_end == wall.y + wall.height,
                x_end <= width,
                y_end <= height,
                grid.len() == width,
                forall|gx: int| 0 <= gx < width ==> (#[trigger] grid[gx]).len() == height,
                forall|gx: int, gy: int|
                    0 <= gx < width && 0 <= gy < height ==> (#[trigger] grid[gx][gy]) == (covered(
                        done,
                        gx,
                        gy,
                    ) || (wall.covers(gx, gy) && gx < x)),
            decreases x_end - x,
        {
            let mut y: u16 = wall.y as u16;
            while y < y_end
                invariant
                    wall.x <= x < x_end,
                    wall.y <= y <= y_end,
                    x_end == wall.x + wall.width,
                    y_end == wall.y + wall.height,
                    x_end <= width,
                    y_end <= height,
                    grid.len() == width,
                    forall|gx: int| 0 <= gx < width ==> (#[trigger] grid[gx]).len() == height,
                    forall|gx: int, gy: int|
                        0 <= gx < width && 0 <= gy < height ==> (#[trigger] grid[gx][gy]) == (
                        covered(done, gx, gy) || (wall.covers(gx, gy) && (gx < x || (gx == x && gy
                            < y)))),
                decreases y_end - y,
            {
                grid[x as usize][y as usize] = true;
                y += 1;
            }
            x += 1;
        }
        k += 1;
    }
    proof {
        assert(walls@.take(k as int) == walls@);
        let target = grid_of(walls@, width as int, height as int);
        assert forall|gx: int| 0 <= gx < width implies #[trigger] grid_view(grid@)[gx]
            == target[gx] by {
            assert(grid[gx].len() == height);
            assert forall|gy: int| 0 <= gy < height implies grid[gx]@[gy] == target[gx][gy] by {
                assert(grid[gx][gy] == covered(walls@, gx, gy));
            }
            assert(grid[gx]@ =~= target[gx]);
        }
        assert(grid_view(grid@) =~= target);
    }
    grid
}

/// Number of rows of a grid.
pub open spec fn rows(g: Seq<Seq<bool>>) -> int {
    g[0].len() as int
}

/// The four tiles whose top-left tile is `(x, y)` are all solid.
pub open spec fn block_at(g: Seq<Seq<bool>>, x: int, y: int) -> bool {
    g[x][y] && g[x + 1][y] && g[x][y + 1] && g[x + 1][y + 1]
}

/// The grid holds a solid block of 2x2 tiles.
pub open spec fn has_block(g: Seq<Seq<bool>>) -> bool {
    exists|x: int, y: int| 0 <= x < g.len() - 1 && 0 <= y < rows(g) - 1 && block_at(g, x, y)
}

/// Number of columns whose tile in the second row is solid.
pub open spec fn ceiling_count(g: Seq<Seq<bool>>) -> nat {
    g.filter(|column: Seq<bool>| column[1]).len()
}

/// The solid tile `(x, y)` has an empty tile and then a solid tile next
/// to it, to the right or below.
pub open spec fn gap_at(g: Seq<Seq<bool>>, x: int, y: int) -> bool {
    ||| x + 2 < g.len() && g[x][y] && !g[x + 1][y] && g[x + 2][y]
    ||| y + 2 < rows(g) && g[x][y] && !g[x][y + 1] && g[x][y + 2]
}

/// The grid holds a gap that is one tile wide.
pub open spec fn has_gap(g: Seq<Seq<bool>>) -> bool {
    exists|x: int, y: int| 0 <= x < g.len() && 0 <= y < rows(g) && gap_at(g, x, y)
}

/// Of the four tiles whose top-left tile is `(x, y)`, only the one at the
/// bottom right is solid: a ledge to be reached from the left.
pub open spec fn left_ledge(g: Seq<Seq<bool>>, x: int, y: int) -> bool {
    !g[x][y] && !g[x + 1][y] && !g[x][y + 1] && g[x + 1][y + 1]
}

/// Of the four tiles whose top-left tile is `(x, y)`, only the one at the
/// bottom left is solid: a ledge to be reached from the right.
pub open spec fn right_ledge(g: Seq<Seq<bool>>, x: int, y: int) -> bool {
    !g[x][y] && !g[x + 1][y] && g[x][y + 1] && !g[x + 1][y + 1]
}

/// The first row at or below `from` in which the column is solid, or the
/// first row below the column if there is none.
pub open spec fn landing(column: Seq<bool>, from: int) -> int
    decreases column.len() - from,
{
    if from < 0 || from >= column.len() || column[from] {
        from
    } else {
        landing(column, from + 1)
    }
}

/// Distance between two columns.
pub open spec fn apart(x: int, tx: int) -> int {
    if x >= tx {
        x - tx
    } else {
        tx - x
    }
}

/// How far below row `y` a jump from column `x` comes to stand in column
/// `tx`: the jump arc rises one row for every two columns.
pub open spec fn fall(g: Seq<Seq<bool>>, x: int, y: int, tx: int) -> int {
    landing(g[tx], y + 1 + apart(x, tx) / 2) - 1 - y
}

/// Greatest fall from which a ledge can be reached by jumping.
pub const MAX_FALL: usize = 8;

/// Columns a jump can cover.
pub const JUMP_REACH: usize = 6;

/// Most solid tiles allowed in the second row.
pub const MAX_CEILING: usize = 5;

/// The ledge at `(x, y)` can be reached by a jump from one of the columns
/// `lo` to `hi`: row `y` is empty in all of them, and in one of them the
/// ground is at most `MAX_FALL` rows below.
pub open spec fn can_jump(g: Seq<Seq<bool>>, x: int, y: int, lo: int, hi: int) -> bool {
    &&& forall|tx: int| lo <= tx <= hi ==> !(#[trigger] g[tx])[y]
    &&& exists|tx: int| lo <= tx <= hi && #[trigger] fall(g, x, y, tx) <= MAX_FALL
}

/// Every ledge of the grid can be reached by a jump over at most
/// `JUMP_REACH` columns.
pub open spec fn ledges_reachable(g: Seq<Seq<bool>>) -> bool {
    forall|x: int, y: int|
        0 <= x < g.len() - 1 && 0 <= y < rows(g) - 1 ==> #[trigger] ledge_ok(g, x, y)
}

/// If there is a ledge at `(x, y)`, it can be reached by a jump.
pub open spec fn ledge_ok(g: Seq<Seq<bool>>, x: int, y: int) -> bool {
    &&& left_ledge(g, x, y) ==> can_jump(
        g,
        x,
        y,
        if x > JUMP_REACH {
            x - JUMP_REACH
        } else {
            0
        },
        x,
    )
    &&& right_ledge(g, x, y) ==> can_jump(
        g,
        x + 1,
        y,
        x + 1,
        if x + 1 + JUMP_REACH < g.len() - 1 {
            x + 1 + JUMP_REACH
        } else {
            g.len() - 1
        },
    )
}

/// The first row at or below `from` in which column `tx` is solid.
fn land(grid: &[Vec<bool>], tx: usize, from: usize) -> (r: usize)
    requires
        tx < grid.len(),
    ensures
        r == landing(grid[tx as int]@, from as int),
{
    let mut bottom = from;
    while bottom < grid[tx].len() && !grid[tx][bottom]
        invariant
            tx < grid.len(),
            from <= bottom,
            landing(grid[tx as int]@, bottom as int) == landing(grid[tx as int]@, from as int),
        decreases grid[tx as int].len() - bottom,
    {
        bottom += 1;
    }
    bottom
}

/// Whether the ledge at `(x, y)` can be reached by a jump from one of the
/// columns `lo` to `hi`.
pub fn jumpable(x: usize, y: usize, grid: &[Vec<bool>], lo: usize, hi: usize) -> (r: bool)
    requires
        shaped(grid_view(grid@), grid.len() as int, rows(grid_view(grid@))),
        x < grid.len(),
        y < rows(grid_view(grid@)),
        lo <= hi < grid.len(),
    ensures
        r == can_jump(grid_view(grid@), x as int, y as int, lo as int, hi as int),
{
    let ghost g = grid_view(grid@);
    let mut lowest: usize = 10000;
    let mut tx = lo;
    while tx <= hi
        invariant
            g == grid_view(grid@),
            shaped(g, grid.len() as int, rows(g)),
            x < grid.len(),
            y < rows(g),
            lo <= tx <= hi + 1,
            hi < grid.len(),
            forall|t: int| lo <= t < tx ==> !(#[trigger] g[t])[y as int],
            lowest <= MAX_FALL <==> exists|t: int| lo <= t < tx
                && #[trigger] fall(g, x as int, y as int, t) <= MAX_FALL,
        decreases hi + 1 - tx,
    {
        assert(g[tx as int].len() == rows(g));
        if grid[tx][y] {
            return false;
        }
        let gap = if x >= tx {
            x - tx
        } else {
            tx - x
        };
        let rise = gap / 2;
        let ghost f = fall(g, x as int, y as int, tx as int);
        if rise <= MAX_FALL {
            let drop = if rise >= grid[tx].len() - y - 1 {
                rise
            } else {
                let bottom = land(grid, tx, y + 1 + rise);
                proof {
                    lemma_landing_from(g[tx as int], y + 1 + rise);
                }
                bottom - 1 - y
            };
            if drop < lowest {
                lowest = drop;
            }
        } else {
            proof {
                lemma_landing_from(g[tx as int], y + 1 + rise);
            }
        }
        proof {
            let q = tx + 1;
            assert forall|t: int| lo <= t < q implies !(#[trigger] g[t])[y as int] by {}
            if lowest <= MAX_FALL {
                if f <= MAX_FALL {
                    assert(lo <= tx < q && fall(g, x as int, y as int, tx as int) <= MAX_FALL);
                } else {
                    let t = choose|t: int| lo <= t < tx
                        && #[trigger] fall(g, x as int, y as int, t) <= MAX_FALL;
                    assert(lo <= t < q && fall(g, x as int, y as int, t) <= MAX_FALL);
                }
            }
        }
        if tx == hi {
            proof {
                assert(lowest <= MAX_FALL <==> exists|t: int|
                    lo <= t <= hi && #[trigger] fall(g, x as int, y as int, t) <= MAX_FALL);
            }
            return lowest <= MAX_FALL;
        }
        tx += 1;
    }
    lowest <= MAX_FALL
}

/// A landing is never above where the fall starts.
pub proof fn lemma_landing_from(column: Seq<bool>, from: int)
    ensures
        landing(column, from) >= from,
    decreases column.len() - from,
{
    if !(from < 0 || from >= column.len() || column[from]) {
        lemma_landing_from(column, from + 1);
    }
}

/// The tile `c` lies on the grid and is empty.
pub open spec fn open_at(g: Seq<Seq<bool>>, c: (int, int)) -> bool {
    0 <= c.0 < g.len() && 0 <= c.1 < rows(g) && !g[c.0][c.1]
}

/// The tile `b` is the left, upper, right or lower neighbour of `a`.
pub open spec fn adjacent(a: (int, int), b: (int, int)) -> bool {
    ||| b == (a.0 - 1, a.1)
    ||| b == (a.0, a.1 - 1)
    ||| b == (a.0 + 1, a.1)
    ||| b == (a.0, a.1 + 1)
}

/// A walk over empty tiles, each the neighbour of the one before.
pub open spec fn is_path(g: Seq<Seq<bool>>, p: Seq<(int, int)>) -> bool {
    &&& p.len() > 0
    &&& forall|i: int| 0 <= i < p.len() ==> open_at(g, #[trigger] p[i])
    &&& forall|i: int| 0 <= i < p.len() - 1 ==> adjacent(#[trigger] p[i], p[i + 1])
}

/// A walk over empty tiles leads from `a` to `b`.
pub open spec fn linked(g: Seq<Seq<bool>>, a: (int, int), b: (int, int)) -> bool {
    exists|p: Seq<(int, int)>| #[trigger] is_path(g, p) && p[0] == a && p.last() == b
}

/// Every empty tile can be reached from every other.
pub open spec fn connected(g: Seq<Seq<bool>>) -> bool {
    forall|a: (int, int), b: (int, int)| open_at(g, a) && open_at(g, b)
        ==> #[trigger] linked(g, a, b)
}

/// The rules a grid has to meet.
pub open spec fn valid_grid(g: Seq<Seq<bool>>) -> bool {
    &&& !has_block(g)
    &&& ceiling_count(g) <= MAX_CEILING
    &&& !has_gap(g)
    &&& ledges_reachable(g)
    &&& connected(g)
}

/// An empty tile is linked to itself.
pub proof fn lemma_linked_self(g: Seq<Seq<bool>>, a: (int, int))
    requires
        open_at(g, a),
    ensures
        linked(g, a, a),
{
    let p = seq![a];
    assert(is_path(g, p) && p[0] == a && p.last() == a);
}

/// A walk can be extended by an empty neighbour of its end.
pub proof fn lemma_linked_step(g: Seq<Seq<bool>>, a: (int, int), b: (int, int), c: (int, int))
    requires
        linked(g, a, b),
        adjacent(b, c),
        open_at(g, c),
    ensures
        linked(g, a, c),
{
    let p = choose|p: Seq<(int, int)>| #[trigger] is_path(g, p) && p[0] == a && p.last() == b;
    let q = p.push(c);
    assert forall|i: int| 0 <= i < q.len() - 1 implies adjacent(#[trigger] q[i], q[i + 1]) by {
        if i < p.len() - 1 {
            assert(adjacent(p[i], p[i + 1]));
        }
    }
    assert forall|i: int| 0 <= i < q.len() implies open_at(g, #[trigger] q[i]) by {
        if i < p.len() {
            assert(open_at(g, p[i]));
        }
    }
    assert(is_path(g, q) && q[0] == a && q.last() == c);
}

/// A walk can be walked backwards.
pub proof fn lemma_linked_back(g: Seq<Seq<bool>>, a: (int, int), b: (int, int))
    requires
        linked(g, a, b),
    ensures
        linked(g, b, a),
{
    let p = choose|p: Seq<(int, int)>| #[trigger] is_path(g, p) && p[0] == a && p.last() == b;
    let q = Seq::new(p.len(), |i: int| p[p.len() - 1 - i]);
    assert forall|i: int| 0 <= i < q.len() - 1 implies adjacent(#[trigger] q[i], q[i + 1]) by {
        assert(adjacent(p[p.len() - 2 - i], p[p.len() - 2 - i + 1]));
    }
    assert forall|i: int| 0 <= i < q.len() implies open_at(g, #[trigger] q[i]) by {
        assert(open_at(g, p[p.len() - 1 - i]));
    }
    assert(is_path(g, q) && q[0] == b && q.last() == a);
}

/// Two walks that meet make one walk.
pub proof fn lemma_linked_through(g: Seq<Seq<bool>>, a: (int, int), b: (int, int), c: (int, int))
    requires
        linked(g, a, b),
        linked(g, b, c),
    ensures
        linked(g, a, c),
{
    let p = choose|p: Seq<(int, int)>| #[trigger] is_path(g, p) && p[0] == a && p.last() == b;
    let r = choose|r: Seq<(int, int)>| #[trigger] is_path(g, r) && r[0] == b && r.last() == c;
    let q = p + r.skip(1);
    assert forall|i: int| 0 <= i < q.len() implies open_at(g, #[trigger] q[i]) by {
        if i < p.len() {
            assert(open_at(g, p[i]));
        } else {
            assert(open_at(g, r[i - p.len() + 1]));
        }
    }
    assert forall|i: int| 0 <= i < q.len() - 1 implies adjacent(#[trigger] q[i], q[i + 1]) by {
        if i < p.len() - 1 {
            assert(adjacent(p[i], p[i + 1]));
        } else {
            assert(adjacent(r[i - p.len() + 1], r[i - p.len() + 1 + 1]));
        }
    }
    assert(q[0] == p[0]);
    if r.len() == 1 {
        assert(q.last() == p.last());
    } else {
        assert(q.last() == r.last());
    }
    assert(is_path(g, q) && q[0] == a && q.last() == c);
}

/// The tile `c` lies on the grid and is marked.
pub open spec fn marked(vis: Seq<Seq<bool>>, c: (int, int)) -> bool {
    0 <= c.0 < vis.len() && 0 <= c.1 < vis[c.0].len() && vis[c.0][c.1]
}

/// The tile `d` is marked if it is an empty tile of the grid.
pub open spec fn settled(g: Seq<Seq<bool>>, vis: Seq<Seq<bool>>, d: (int, int)) -> bool {
    open_at(g, d) ==> marked(vis, d)
}

/// The empty neighbours of `c` are all marked.
pub open spec fn closed_at(g: Seq<Seq<bool>>, vis: Seq<Seq<bool>>, c: (int, int)) -> bool {
    &&& settled(g, vis, (c.0 - 1, c.1))
    &&& settled(g, vis, (c.0, c.1 - 1))
    &&& settled(g, vis, (c.0 + 1, c.1))
    &&& settled(g, vis, (c.0, c.1 + 1))
}

/// The tile `c` waits on the stack.
pub open spec fn on_stack(stack: Seq<(usize, usize)>, c: (int, int)) -> bool {
    exists|i: int| 0 <= i < stack.len() && (#[trigger] stack[i]).0 == c.0 && stack[i].1 == c.1
}

/// The state of a flood that started at `start`: every marked tile is an
/// empty tile linked to the start, every tile on the stack is marked, and
/// every marked tile is the one in work, waits on the stack, or has all
/// its empty neighbours marked.
#[verifier::opaque]
pub open spec fn flooding(
    g: Seq<Seq<bool>>,
    start: (int, int),
    vis: Seq<Seq<bool>>,
    stack: Seq<(usize, usize)>,
    pending: (int, int),
) -> bool {
    &&& shaped(vis, g.len() as int, rows(g))
    &&& forall|c: (int, int)| #[trigger] marked(vis, c) ==> open_at(g, c) && linked(g, start, c)
    &&& forall|i: int|
        0 <= i < stack.len() ==> marked(vis, ((#[trigger] stack[i]).0 as int, stack[i].1 as int))
    &&& forall|c: (int, int)| #[trigger]
        marked(vis, c) ==> c == pending || on_stack(stack, c) || closed_at(g, vis, c)
}

/// The marks `vis` with the tile `d` marked as well.
pub open spec fn with_mark(vis: Seq<Seq<bool>>, d: (int, int)) -> Seq<Seq<bool>> {
    vis.update(d.0, vis[d.0].update(d.1, true))
}

/// Taking the top of the stack into work keeps the flood in order.
pub proof fn lemma_flood_pop(
    g: Seq<Seq<bool>>,
    start: (int, int),
    vis: Seq<Seq<bool>>,
    stack: Seq<(usize, usize)>,
    none: (int, int),
)
    requires
        flooding(g, start, vis, stack, none),
        !marked(vis, none),
        stack.len() > 0,
    ensures
        flooding(
            g,
            start,
            vis,
            stack.drop_last(),
            (stack.last().0 as int, stack.last().1 as int),
        ),
{
    reveal(flooding);
    let rest = stack.drop_last();
    let top = (stack.last().0 as int, stack.last().1 as int);
    assert forall|c: (int, int)| #[trigger] marked(vis, c) implies c == top || on_stack(rest, c)
        || closed_at(g, vis, c) by {
        if on_stack(stack, c) {
            let i = choose|i: int|
                0 <= i < stack.len() && (#[trigger] stack[i]).0 == c.0 && stack[i].1 == c.1;
            if i < rest.len() {
                assert(rest[i].0 == c.0 && rest[i].1 == c.1);
            }
        }
    }
    assert forall|i: int| 0 <= i < rest.len() implies marked(
        vis,
        ((#[trigger] rest[i]).0 as int, rest[i].1 as int),
    ) by {
        assert(rest[i] == stack[i]);
    }
}

/// Marking an empty neighbour of the tile in work and putting it on the
/// stack keeps the flood in order.
pub proof fn lemma_flood_visit(
    g: Seq<Seq<bool>>,
    start: (int, int),
    vis: Seq<Seq<bool>>,
    stack: Seq<(usize, usize)>,
    c: (int, int),
    d: (usize, usize),
)
    requires
        flooding(g, start, vis, stack, c),
        marked(vis, c),
        adjacent(c, (d.0 as int, d.1 as int)),
        open_at(g, (d.0 as int, d.1 as int)),
    ensures
        flooding(g, start, with_mark(vis, (d.0 as int, d.1 as int)), stack.push(d), c),
{
    reveal(flooding);
    let dd = (d.0 as int, d.1 as int);
    let after = with_mark(vis, dd);
    let grown = stack.push(d);
    lemma_linked_step(g, start, c, dd);
    assert forall|e: (int, int)| marked(vis, e) implies marked(after, e) by {}
    assert forall|e: (int, int)| #[trigger] marked(after, e) implies open_at(g, e) && linked(
        g,
        start,
        e,
    ) by {
        if e != dd {
            assert(marked(vis, e));
        }
    }
    assert forall|i: int| 0 <= i < grown.len() implies marked(
        after,
        ((#[trigger] grown[i]).0 as int, grown[i].1 as int),
    ) by {
        if i < stack.len() {
            assert(grown[i] == stack[i]);
            assert(marked(vis, (stack[i].0 as int, stack[i].1 as int)));
        }
    }
    assert forall|e: (int, int)| #[trigger] marked(after, e) implies e == c || on_stack(grown, e)
        || closed_at(g, after, e) by {
        if e == dd {
            assert(grown[stack.len() as int].0 == e.0 && grown[stack.len() as int].1 == e.1);
        } else {
            assert(marked(vis, e));
            if e != c {
                if on_stack(stack, e) {
                    let i = choose|i: int|
                        0 <= i < stack.len() && (#[trigger] stack[i]).0 == e.0 && stack[i].1
                            == e.1;
                    assert(grown[i].0 == e.0 && grown[i].1 == e.1);
                } else {
                    assert(closed_at(g, vis, e));
                    assert(marked(vis, (e.0 - 1, e.1)) ==> marked(after, (e.0 - 1, e.1)));
                    assert(marked(vis, (e.0, e.1 - 1)) ==> marked(after, (e.0, e.1 - 1)));
                    assert(marked(vis, (e.0 + 1, e.1)) ==> marked(after, (e.0 + 1, e.1)));
                    assert(marked(vis, (e.0, e.1 + 1)) ==> marked(after, (e.0, e.1 + 1)));
                }
            }
        }
    }
}

/// A flood that has marked only its start and put it on the stack is in
/// order.
pub proof fn lemma_flood_start(
    g: Seq<Seq<bool>>,
    start: (usize, usize),
    vis: Seq<Seq<bool>>,
    none: (int, int),
)
    requires
        shaped(vis, g.len() as int, rows(g)),
        open_at(g, (start.0 as int, start.1 as int)),
        marked(vis, (start.0 as int, start.1 as int)),
        forall|c: (int, int)| #[trigger] marked(vis, c) ==> c == (start.0 as int, start.1 as int),
    ensures
        flooding(g, (start.0 as int, start.1 as int), vis, seq![start], none),
{
    reveal(flooding);
    let s = (start.0 as int, start.1 as int);
    lemma_linked_self(g, s);
    let stack = seq![start];
    assert(stack[0].0 == s.0 && stack[0].1 == s.1);
    assert forall|c: (int, int)| #[trigger] marked(vis, c) implies c == none || on_stack(stack, c)
        || closed_at(g, vis, c) by {
        assert(stack[0].0 == c.0 && stack[0].1 == c.1);
    }
    assert forall|i: int| 0 <= i < stack.len() implies marked(
        vis,
        ((#[trigger] stack[i]).0 as int, stack[i].1 as int),
    ) by {
        assert(stack[i] == start);
    }
}

/// Once all empty neighbours of the tile in work are marked, the tile is
/// done and the flood is in order without it.
pub proof fn lemma_flood_done(
    g: Seq<Seq<bool>>,
    start: (int, int),
    vis: Seq<Seq<bool>>,
    stack: Seq<(usize, usize)>,
    c: (int, int),
    none: (int, int),
)
    requires
        flooding(g, start, vis, stack, c),
        closed_at(g, vis, c),
    ensures
        flooding(g, start, vis, stack, none),
{
    reveal(flooding);
}

/// Every tile that a flood has marked is an empty tile.
pub proof fn lemma_flood_marks_open(
    g: Seq<Seq<bool>>,
    start: (int, int),
    vis: Seq<Seq<bool>>,
    stack: Seq<(usize, usize)>,
    pending: (int, int),
    c: (int, int),
)
    requires
        flooding(g, start, vis, stack, pending),
        marked(vis, c),
    ensures
        open_at(g, c),
        linked(g, start, c),
        shaped(vis, g.len() as int, rows(g)),
{
    reveal(flooding);
}

/// Once a flood has come to rest, every tile linked to the start is
/// marked.
pub proof fn lemma_flood_complete(
    g: Seq<Seq<bool>>,
    start: (int, int),
    vis: Seq<Seq<bool>>,
    none: (int, int),
    p: Seq<(int, int)>,
)
    requires
        flooding(g, start, vis, Seq::<(usize, usize)>::empty(), none),
        !marked(vis, none),
        marked(vis, start),
        is_path(g, p),
        p[0] == start,
    ensures
        marked(vis, p.last()),
    decreases p.len(),
{
    reveal(flooding);
    if p.len() > 1 {
        let q = p.drop_last();
        assert forall|i: int| 0 <= i < q.len() implies open_at(g, #[trigger] q[i]) by {
            assert(open_at(g, p[i]));
        }
        assert forall|i: int| 0 <= i < q.len() - 1 implies adjacent(#[trigger] q[i], q[i + 1]) by {
            assert(adjacent(p[i], p[i + 1]));
        }
        lemma_flood_complete(g, start, vis, none, q);
        let c = q.last();
        let d = p.last();
        assert(adjacent(p[p.len() - 2], p[p.len() - 2 + 1]));
        assert(open_at(g, d));
        assert(marked(vis, c));
        assert(!on_stack(Seq::<(usize, usize)>::empty(), c));
        assert(closed_at(g, vis, c));
    }
}

/// The tiles `(x, gy)` with `gy` below `h`.
pub open spec fn column_tiles(x: int, h: nat) -> Set<(int, int)>
    decreases h,
{
    if h == 0 {
        Set::empty()
    } else {
        column_tiles(x, (h - 1) as nat).insert((x, h - 1))
    }
}

/// The tiles of a grid of `w` by `h` tiles.
pub open spec fn grid_tiles(w: nat, h: nat) -> Set<(int, int)>
    decreases w,
{
    if w == 0 {
        Set::empty()
    } else {
        grid_tiles((w - 1) as nat, h).union(column_tiles(w - 1, h))
    }
}

/// A column holds finitely many tiles, and exactly its own.
pub proof fn lemma_column_tiles(x: int, h: nat)
    ensures
        column_tiles(x, h).finite(),
        forall|c: (int, int)| column_tiles(x, h).contains(c) <==> c.0 == x && 0 <= c.1 < h,
    decreases h,
{
    if h > 0 {
        lemma_column_tiles(x, (h - 1) as nat);
    }
}

/// A grid holds finitely many tiles, and exactly its own.
pub proof fn lemma_grid_tiles(w: nat, h: nat)
    ensures
        grid_tiles(w, h).finite(),
        forall|c: (int, int)| grid_tiles(w, h).contains(c) <==> 0 <= c.0 < w && 0 <= c.1 < h,
    decreases w,
{
    if w > 0 {
        lemma_grid_tiles((w - 1) as nat, h);
        lemma_column_tiles(w - 1, h);
    }
}

/// A grid of `width` by `height` tiles, none of them marked.
fn blank(width: usize, height: usize) -> (grid: Vec<Vec<bool>>)
    ensures
        grid.len() == width,
        forall|gx: int| 0 <= gx < width ==> (#[trigger] grid[gx]).len() == height,
        forall|gx: int, gy: int| 0 <= gx < width && 0 <= gy < height ==> !(#[trigger] grid[gx][gy]),
{
    let mut grid: Vec<Vec<bool>> = Vec::new();
    let mut gx: usize = 0;
    while gx < width
        invariant
            gx <= width,
            grid.len() == gx,
            forall|i: int| 0 <= i < gx ==> (#[trigger] grid[i]).len() == height,
            forall|i: int, j: int| 0 <= i < gx && 0 <= j < height ==> !(#[trigger] grid[i][j]),
        decreases width - gx,
    {
        let mut column: Vec<bool> = Vec::new();
        let mut gy: usize = 0;
        while gy < height
            invariant
                gy <= height,
                column.len() == gy,
                forall|j: int| 0 <= j < gy ==> !(#[trigger] column[j]),
            decreases height - gy,
        {
            column.push(false);
            gy += 1;
        }
        grid.push(column);
        gx += 1;
    }
    grid
}

/// The first empty tile of the grid, row by row.
fn first_open(grid: &[Vec<bool>]) -> (r: Option<(usize, usize)>)
    requires
        grid.len() >= 1,
        shaped(grid_view(grid@), grid.len() as int, rows(grid_view(grid@))),
    ensures
        match r {
            Some(c) => open_at(grid_view(grid@), (c.0 as int, c.1 as int)),
            None => forall|c: (int, int)| !open_at(grid_view(grid@), c),
        },
{
    let ghost g = grid_view(grid@);
    let width = grid.len();
    let height = grid[0].len();
    let mut y: usize = 0;
    while y < height
        invariant
            g == grid_view(grid@),
            shaped(g, width as int, height as int),
            width == grid.len(),
            height == rows(g),
            y <= height,
            forall|c: (int, int)| 0 <= c.0 < width && 0 <= c.1 < y ==> !open_at(g, c),
        decreases height - y,
    {
        let mut x: usize = 0;
        while x < width
            invariant
                g == grid_view(grid@),
                shaped(g, width as int, height as int),
                width == grid.len(),
                height == rows(g),
                y < height,
                x <= width,
                forall|c: (int, int)| 0 <= c.0 < width && 0 <= c.1 < y ==> !open_at(g, c),
                forall|c: (int, int)| 0 <= c.0 < x && c.1 == y ==> !open_at(g, c),
            decreases width - x,
        {
            assert(g[x as int].len() == height);
            if !grid[x][y] {
                return Some((x, y));
            }
            x += 1;
        }
        y += 1;
    }
    None
}

/// Marks the neighbour `(nx, ny)` of the tile in work and puts it on the
/// stack, if it is empty and not marked yet.
fn visit(
    grid: &[Vec<bool>],
    visited: &mut Vec<Vec<bool>>,
    open: &mut Vec<(usize, usize)>,
    nx: usize,
    ny: usize,
    Ghost(start): Ghost<(int, int)>,
    Ghost(c): Ghost<(int, int)>,
    Ghost(unvisited): Ghost<Set<(int, int)>>,
) -> (left: Ghost<Set<(int, int)>>)
    requires
        grid.len() >= 1,
        shaped(grid_view(grid@), grid.len() as int, rows(grid_view(grid@))),
        nx < grid.len(),
        ny < rows(grid_view(grid@)),
        adjacent(c, (nx as int, ny as int)),
        marked(grid_view(old(visited)@), c),
        flooding(grid_view(grid@), start, grid_view(old(visited)@), old(open)@, c),
        unvisited.finite(),
        forall|e: (int, int)|
            0 <= e.0 < grid.len() && 0 <= e.1 < rows(grid_view(grid@)) && !marked(
                grid_view(old(visited)@),
                e,
            ) ==> unvisited.contains(e),
    ensures
        flooding(grid_view(grid@), start, grid_view(final(visited)@), final(open)@, c),
        forall|e: (int, int)|
            marked(grid_view(old(visited)@), e) ==> marked(grid_view(final(visited)@), e),
        settled(grid_view(grid@), grid_view(final(visited)@), (nx as int, ny as int)),
        left@.finite(),
        forall|e: (int, int)|
            0 <= e.0 < grid.len() && 0 <= e.1 < rows(grid_view(grid@)) && !marked(
                grid_view(final(visited)@),
                e,
            ) ==> left@.contains(e),
        2 * left@.len() + final(open).len() <= 2 * unvisited.len() + old(open).len(),
{
    let ghost g = grid_view(grid@);
    let ghost vis = grid_view(visited@);
    let ghost d = (nx as int, ny as int);
    proof {
        lemma_flood_marks_open(g, start, vis, open@, c, c);
        assert(g[nx as int].len() == rows(g));
        assert(vis[nx as int].len() == rows(g));
        assert(vis[nx as int] == visited@[nx as int]@);
    }
    if !grid[nx][ny] && !visited[nx][ny] {
        proof {
            lemma_flood_visit(g, start, vis, open@, c, (nx, ny));
            assert(unvisited.contains(d));
        }
        open.push((nx, ny));
        visited[nx][ny] = true;
        assert(grid_view(visited@) =~= with_mark(vis, d));
        Ghost(unvisited.remove(d))
    } else {
        Ghost(unvisited)
    }
}

/// Whether every empty tile of the grid can be reached from every other,
/// moving between neighbouring empty tiles.
pub fn all_linked(grid: &[Vec<bool>]) -> (r: bool)
    requires
        grid.len() >= 1,
        shaped(grid_view(grid@), grid.len() as int, rows(grid_view(grid@))),
    ensures
        r == connected(grid_view(grid@)),
{
    let ghost g = grid_view(grid@);
    let width = grid.len();
    let height = grid[0].len();
    let (sx, sy) = match first_open(grid) {
        Some(c) => c,
        None => {
            return true;
        },
    };
    let ghost start = (sx as int, sy as int);
    let ghost none = (-1int, -1int);
    let mut visited = blank(width, height);
    let mut open: Vec<(usize, usize)> = Vec::new();
    let ghost mut unvisited: Set<(int, int)> = grid_tiles(width as nat, height as nat);
    proof {
        lemma_grid_tiles(width as nat, height as nat);
    }
    open.push((sx, sy));
    visited[sx][sy] = true;
    proof {
        let vis = grid_view(visited@);
        assert forall|gx: int| 0 <= gx < vis.len() implies (#[trigger] vis[gx]).len() == height by {
            assert(visited[gx].len() == height);
        }
        assert forall|c: (int, int)| #[trigger] marked(vis, c) implies c == start by {
            assert(visited[c.0][c.1]);
        }
        assert(open@ =~= seq![(sx, sy)]);
        assert(marked(vis, start));
        lemma_flood_start(g, (sx, sy), vis, none);
    }
    while open.len() > 0
        invariant
            g == grid_view(grid@),
            width == grid.len(),
            width >= 1,
            height == rows(g),
            shaped(g, width as int, height as int),
            start == (sx as int, sy as int),
            none == (-1int, -1int),
            marked(grid_view(visited@), start),
            flooding(g, start, grid_view(visited@), open@, none),
            unvisited.finite(),
            forall|c: (int, int)|
                0 <= c.0 < width && 0 <= c.1 < height && !marked(grid_view(visited@), c)
                    ==> unvisited.contains(c),
        decreases 2 * unvisited.len() + open.len(),
    {
        proof {
            lemma_flood_pop(g, start, grid_view(visited@), open@, none);
        }
        let ghost before = open@;
        let (x, y) = open.pop().unwrap();
        let ghost c = (x as int, y as int);
        proof {
            reveal(flooding);
            assert(before[before.len() - 1] == (x, y));
            assert(marked(grid_view(visited@), c));
            lemma_flood_marks_open(g, start, grid_view(visited@), open@, c, c);
        }
        if x > 0 {
            let left = visit(grid, &mut visited, &mut open, x - 1, y, Ghost(start), Ghost(c),
                Ghost(unvisited));
            proof {
                unvisited = left@;
            }
        }
        assert(settled(g, grid_view(visited@), (c.0 - 1, c.1)));
        if y > 0 {
            let left = visit(grid, &mut visited, &mut open, x, y - 1, Ghost(start), Ghost(c),
                Ghost(unvisited));
            proof {
                unvisited = left@;
            }
        }
        assert(settled(g, grid_view(visited@), (c.0 - 1, c.1)));
        assert(settled(g, grid_view(visited@), (c.0, c.1 - 1)));
        if x + 1 < width {
            let left = visit(grid, &mut visited, &mut open, x + 1, y, Ghost(start), Ghost(c),
                Ghost(unvisited));
            proof {
                unvisited = left@;
            }
        }
        assert(settled(g, grid_view(visited@), (c.0 - 1, c.1)));
        assert(settled(g, grid_view(visited@), (c.0, c.1 - 1)));
        assert(settled(g, grid_view(visited@), (c.0 + 1, c.1)));
        if y + 1 < height {
            let left = visit(grid, &mut visited, &mut open, x, y + 1, Ghost(start), Ghost(c),
                Ghost(unvisited));
            proof {
                unvisited = left@;
            }
        }
        proof {
            assert(closed_at(g, grid_view(visited@), c));
            lemma_flood_done(g, start, grid_view(visited@), open@, c, none);
        }
    }
    proof {
        assert(open@ =~= Seq::<(usize, usize)>::empty());
        lemma_flood_marks_open(g, start, grid_view(visited@), open@, none, start);
    }

    // Every tile linked to the start is marked now.
    let ghost vis = grid_view(visited@);
    let mut y: usize = 0;
    while y < height
        invariant
            g == grid_view(grid@),
            vis == grid_view(visited@),
            shaped(g, width as int, height as int),
            shaped(vis, width as int, height as int),
            width == grid.len(),
            width == visited.len(),
            height == rows(g),
            y <= height,
            forall|c: (int, int)| 0 <= c.0 < width && 0 <= c.1 < y && open_at(g, c)
                ==> marked(vis, c),
            flooding(g, start, vis, Seq::<(usize, usize)>::empty(), none),
            none == (-1int, -1int),
            marked(vis, start),
        decreases height - y,
    {
        let mut x: usize = 0;
        while x < width
            invariant
                g == grid_view(grid@),
                vis == grid_view(visited@),
                shaped(g, width as int, height as int),
                shaped(vis, width as int, height as int),
                width == grid.len(),
                width == visited.len(),
                height == rows(g),
                y < height,
                x <= width,
                forall|c: (int, int)|
                    0 <= c.0 < width && 0 <= c.1 < y && open_at(g, c) ==> marked(vis, c),
                forall|c: (int, int)| 0 <= c.0 < x && c.1 == y && open_at(g, c) ==> marked(vis, c),
                flooding(g, start, vis, Seq::<(usize, usize)>::empty(), none),
                none == (-1int, -1int),
                marked(vis, start),
            decreases width - x,
        {
            assert(g[x as int].len() == height);
            assert(vis[x as int].len() == height);
            if !grid[x][y] && !visited[x][y] {
                proof {
                    let c = (x as int, y as int);
                    assert(vis[x as int] == visited@[x as int]@);
                    assert(!marked(vis, c));
                    if linked(g, start, c) {
                        let p = choose|p: Seq<(int, int)>| #[trigger]
                            is_path(g, p) && p[0] == start && p.last() == c;
                        lemma_flood_complete(g, start, vis, none, p);
                    }
                    lemma_flood_marks_open(
                        g,
                        start,
                        vis,
                        Seq::<(usize, usize)>::empty(),
                        none,
                        start,
                    );
                    assert(open_at(g, start) && open_at(g, c) && !linked(g, start, c));
                }
                return false;
            }
            x += 1;
        }
        y += 1;
    }
    proof {
        assert forall|a: (int, int), b: (int, int)| open_at(g, a)
            && open_at(g, b) implies #[trigger]
            linked(g, a, b) by {
            assert(marked(vis, a) && marked(vis, b));
            lemma_flood_marks_open(g, start, vis, Seq::<(usize, usize)>::empty(), none, a);
            lemma_flood_marks_open(g, start, vis, Seq::<(usize, usize)>::empty(), none, b);
            lemma_linked_back(g, start, a);
            lemma_linked_through(g, a, start, b);
        }
    }
    true
}

/// Whether the grid meets the rules: no solid 2x2 block, at most
/// `MAX_CEILING` solid tiles in the second row, no gap one tile wide,
/// every ledge within jumping reach, and all empty tiles connected.
pub fn valid_map(grid: &[Vec<bool>]) -> (r: bool)
    requires
        grid.len() >= 1,
        shaped(grid_view(grid@), grid.len() as int, rows(grid_view(grid@))),
        rows(grid_view(grid@)) >= 2,
    ensures
        r == valid_grid(grid_view(grid@)),
{
    let ghost g = grid_view(grid@);
    let width = grid.len();
    let height = grid[0].len();

    let mut x: usize = 0;
    while x < width
        invariant
            g == grid_view(grid@),
            shaped(g, width as int, height as int),
            width == grid.len(),
            height == rows(g),
            height >= 2,
            x <= width,
            forall|i: int, j: int| 0 <= i < x && 0 <= j < height ==> !#[trigger] gap_at(g, i, j),
            forall|i: int, j: int|
                0 <= i < x && i < width - 1 && 0 <= j < height - 1
                    ==> !#[trigger] block_at(g, i, j),
            forall|i: int, j: int|
                0 <= i < x && i < width - 1 && 0 <= j < height - 1 ==> #[trigger] ledge_ok(g, i, j),
        decreases width - x,
    {
        let mut y: usize = 0;
        while y < height
            invariant
                g == grid_view(grid@),
                shaped(g, width as int, height as int),
                width == grid.len(),
                height == rows(g),
                height >= 2,
                x < width,
                y <= height,
                forall|i: int, j: int|
                    0 <= i < x && 0 <= j < height ==> !#[trigger] gap_at(g, i, j),
                forall|i: int, j: int|
                    0 <= i < x && i < width - 1 && 0 <= j < height - 1 ==> !#[trigger] block_at(
                        g,
                        i,
                        j,
                    ),
                forall|i: int, j: int|
                    0 <= i < x && i < width - 1 && 0 <= j < height - 1 ==> #[trigger] ledge_ok(
                        g,
                        i,
                        j,
                    ),
                forall|j: int| 0 <= j < y ==> !#[trigger] gap_at(g, x as int, j),
                forall|j: int|
                    0 <= j < y && x < width - 1 && j < height - 1 ==> !#[trigger] block_at(
                        g,
                        x as int,
                        j,
                    ),
                forall|j: int|
                    0 <= j < y && x < width - 1 && j < height - 1 ==> #[trigger] ledge_ok(
                        g,
                        x as int,
                        j,
                    ),
            decreases height - y,
        {
            assert(g[x as int].len() == height);
            let here = grid[x][y];
            if x + 1 < width && y + 1 < height {
                assert(g[x + 1].len() == height);
                let right = grid[x + 1][y];
                let below = grid[x][y + 1];
                let across = grid[x + 1][y + 1];
                if here && right && below && across {
                    assert(block_at(g, x as int, y as int));
                    return false;
                }
                if !here && !right && !below && across {
                    let lo = if x > JUMP_REACH {
                        x - JUMP_REACH
                    } else {
                        0
                    };
                    if !jumpable(x, y, grid, lo, x) {
                        assert(!ledge_ok(g, x as int, y as int));
                        return false;
                    }
                }
                if !here && !right && below && !across {
                    let hi = if JUMP_REACH < width - 1 - (x + 1) {
                        x + 1 + JUMP_REACH
                    } else {
                        width - 1
                    };
                    if !jumpable(x + 1, y, grid, x + 1, hi) {
                        assert(!ledge_ok(g, x as int, y as int));
                        return false;
                    }
                }
                assert(ledge_ok(g, x as int, y as int));
            }
            if here {
                if width - x > 2 {
                    assert(g[x + 1].len() == height);
                    assert(g[x + 2].len() == height);
                    if !grid[x + 1][y] && grid[x + 2][y] {
                        assert(gap_at(g, x as int, y as int));
                        return false;
                    }
                }
                if height - y > 2 {
                    if !grid[x][y + 1] && grid[x][y + 2] {
                        assert(gap_at(g, x as int, y as int));
                        return false;
                    }
                }
            }
            y += 1;
        }
        x += 1;
    }

    let mut ceiling: usize = 0;
    let ghost low = |column: Seq<bool>| column[1];
    let mut cx: usize = 0;
    while cx < width
        invariant
            g == grid_view(grid@),
            shaped(g, width as int, height as int),
            width == grid.len(),
            height >= 2,
            cx <= width,
            low == |column: Seq<bool>| column[1],
            ceiling == g.take(cx as int).filter(low).len(),
            ceiling <= cx,
        decreases width - cx,
    {
        proof {
            let before = g.take(cx as int);
            let after = g.take(cx + 1);
            assert(after.drop_last() == before);
            assert(after.last() == g[cx as int]);
            reveal_with_fuel(Seq::filter, 2);
            if low(g[cx as int]) {
                assert(after.filter(low) == before.filter(low).push(g[cx as int]));
            } else {
                assert(after.filter(low) == before.filter(low));
            }
            assert(g[cx as int].len() == height);
        }
        if grid[cx][1] {
            ceiling += 1;
        }
        cx += 1;
    }
    assert(g.take(width as int) == g);
    if ceiling > MAX_CEILING {
        return false;
    }
    all_linked(grid)
}

/// Number of walls of a finished grid, the four at the border included.
pub const NUM_WALLS: usize = 16;

/// Rejected walls after which a grid is started afresh.
pub const MAX_TRIES: u32 = 500;

/// Random walls drawn before the generator settles for the border alone.
pub const MAX_DRAWS: u32 = 4_000_000;

/// The four walls along the border of a grid: top, bottom, left, right.
pub open spec fn border(width: u8, height: u8) -> Seq<Wall> {
    seq![
        Wall { x: 0, y: 0, width, height: 1 },
        Wall { x: 0, y: (height - 1) as u8, width, height: 1 },
        Wall { x: 0, y: 0, width: 1, height },
        Wall { x: (width - 1) as u8, y: 0, width: 1, height },
    ]
}

/// The walls are the border of a grid of `width` by `height` tiles and
/// further walls within it; if there are further walls, the grid of all
/// of them meets the rules.
pub open spec fn built(walls: Seq<Wall>, width: u8, height: u8) -> bool {
    &&& walls.len() >= 4
    &&& walls.take(4) == border(width, height)
    &&& forall|i: int| 0 <= i < walls.len()
        ==> (#[trigger] walls[i]).within(width as int, height as int)
    &&& walls.len() > 4 ==> valid_grid(grid_of(walls, width as int, height as int))
}

/// The solid tiles of the border are those of the first and last column
/// and of the first and last row.
pub proof fn lemma_border_tiles(width: u8, height: u8, x: int, y: int)
    requires
        width >= 1,
        height >= 1,
    ensures
        covered(border(width, height), x, y) <==> 0 <= x < width && 0 <= y < height && (x == 0 || y
            == 0 || x == width - 1 || y == height - 1),
{
    let walls = border(width, height);
    if covered(walls, x, y) {
        let i = choose|i: int| 0 <= i < walls.len() && (#[trigger] walls[i]).covers(x, y);
        assert(i == 0 || i == 1 || i == 2 || i == 3);
    }
    if 0 <= x < width && 0 <= y < height {
        if y == 0 {
            assert(walls[0].covers(x, y));
        } else if y == height - 1 {
            assert(walls[1].covers(x, y));
        } else if x == 0 {
            assert(walls[2].covers(x, y));
        } else if x == width - 1 {
            assert(walls[3].covers(x, y));
        }
    }
}

/// In a room with nothing but its border, every empty tile is linked to
/// the empty tile in the top-left corner.
proof fn lemma_room_linked(width: u8, height: u8, x: int, y: int)
    requires
        width >= 4,
        height >= 4,
        1 <= x <= width - 2,
        1 <= y <= height - 2,
    ensures
        linked(grid_of(border(width, height), width as int, height as int), (1, 1), (x, y)),
    decreases x + y,
{
    let g = grid_of(border(width, height), width as int, height as int);
    lemma_border_tiles(width, height, x, y);
    assert(g[x][y] == covered(border(width, height), x, y));
    assert(open_at(g, (x, y)));
    if x == 1 && y == 1 {
        lemma_linked_self(g, (1, 1));
    } else if y > 1 {
        lemma_room_linked(width, height, x, y - 1);
        lemma_linked_step(g, (1, 1), (x, y - 1), (x, y));
    } else {
        lemma_room_linked(width, height, x - 1, y);
        lemma_linked_step(g, (1, 1), (x - 1, y), (x, y));
    }
}

/// A room of at least four by four tiles with nothing but its border
/// meets the rules.
pub proof fn lemma_border_is_valid(width: u8, height: u8)
    requires
        width >= 4,
        height >= 4,
    ensures
        valid_grid(grid_of(border(width, height), width as int, height as int)),
{
    let walls = border(width, height);
    let g = grid_of(walls, width as int, height as int);
    assert forall|x: int, y: int| 0 <= x < width && 0 <= y < height implies #[trigger] g[x][y] == (x
        == 0 || y == 0 || x == width - 1 || y == height - 1) by {
        lemma_border_tiles(width, height, x, y);
    }
    assert(rows(g) == height);
    assert(!has_block(g)) by {
        if has_block(g) {
            let (x, y) = choose|x: int, y: int|
                0 <= x < g.len() - 1 && 0 <= y < rows(g) - 1 && block_at(g, x, y);
            assert(g[x][y] && g[x + 1][y] && g[x][y + 1] && g[x + 1][y + 1]);
        }
    }
    assert(!has_gap(g)) by {
        if has_gap(g) {
            let (x, y) = choose|x: int, y: int|
                0 <= x < g.len() && 0 <= y < rows(g) && gap_at(g, x, y);
            if x + 2 < g.len() && g[x][y] && !g[x + 1][y] && g[x + 2][y] {
                assert(false);
            }
            if y + 2 < rows(g) && g[x][y] && !g[x][y + 1] && g[x][y + 2] {
                assert(false);
            }
        }
    }
    assert(ledges_reachable(g)) by {
        assert forall|x: int, y: int|
            0 <= x < g.len() - 1 && 0 <= y < rows(g) - 1 implies #[trigger] ledge_ok(g, x, y) by {
            assert(!left_ledge(g, x, y)) by {
                if left_ledge(g, x, y) {
                    assert(!g[x + 1][y] && !g[x][y + 1] && g[x + 1][y + 1]);
                }
            }
            assert(!right_ledge(g, x, y)) by {
                if right_ledge(g, x, y) {
                    assert(!g[x][y] && g[x][y + 1] && !g[x + 1][y + 1]);
                }
            }
        }
    }
    assert(ceiling_count(g) <= MAX_CEILING) by {
        let low = |column: Seq<bool>| column[1];
        let first = g.subrange(0, 1);
        let middle = g.subrange(1, width - 1);
        let last = g.subrange(width - 1, width as int);
        assert(g =~= first + middle + last);
        assert forall|i: int| 0 <= i < middle.len() implies !low(#[trigger] middle[i]) by {
            assert(middle[i] == g[i + 1]);
            assert(g[i + 1][1] == false);
        }
        assert(middle.all(|column: Seq<bool>| !low(column)));
        middle.lemma_all_neg_filter_empty(low);
        first.lemma_filter_len(low);
        last.lemma_filter_len(low);
        Seq::filter_distributes_over_add(first, middle, low);
        Seq::filter_distributes_over_add(first + middle, last, low);
    }
    assert(connected(g)) by {
        assert forall|a: (int, int), b: (int, int)| open_at(g, a)
            && open_at(g, b) implies #[trigger]
            linked(g, a, b) by {
            assert(g[a.0][a.1] == false && g[b.0][b.1] == false);
            lemma_room_linked(width, height, a.0, a.1);
            lemma_room_linked(width, height, b.0, b.1);
            lemma_linked_back(g, (1, 1), a);
            lemma_linked_through(g, a, (1, 1), b);
        }
    }
}

/// Calls `Uniform::from` of rand on the range `low..high` and draws one
/// sample from it with the generator of the thread. The contract claims
/// only that the sample lies in the range.
#[verifier::external_body]
fn sample(low: u8, high: u8) -> (r: u8)
    requires
        low < high,
    ensures
        low <= r < high,
{
    Uniform::from(low..high).sample(&mut rand::thread_rng())
}

/// Calls `Rng::gen_ratio` of rand on the generator of the thread: a coin
/// that shows `true` in `numerator` of `denominator` throws. Nothing is
/// claimed of a single throw.
#[verifier::external_body]
fn flip(numerator: u32, denominator: u32) -> (r: bool)
    requires
        0 < denominator,
        numerator <= denominator,
{
    rand::thread_rng().gen_ratio(numerator, denominator)
}

/// Whether `wall` meets one of `walls` that lies the same way.
fn crosses(walls: &Vec<Wall>, wall: &Wall) -> (r: bool)
    ensures
        r == exists|i: int|
            0 <= i < walls.len() && ((#[trigger] walls[i]).height == 1) == (wall.height == 1)
                && walls[i].meets(wall),
{
    let mut i: usize = 0;
    while i < walls.len()
        invariant
            i <= walls.len(),
            forall|j: int|
                0 <= j < i ==> !(((#[trigger] walls[j]).height == 1) == (wall.height == 1)
                    && walls[j].meets(wall)),
        decreases walls.len() - i,
    {
        if walls[i].is_horizontal() == wall.is_horizontal() && walls[i].intersects(wall) {
            return true;
        }
        i += 1;
    }
    false
}

/// A random grid of `width` by `height` tiles with solid borders. Walls
/// are drawn at random, horizontal ones more often than vertical ones,
/// and a wall is kept if it meets no wall that lies the same way and the
/// grid still meets the rules; a grid that rejects more than `MAX_TRIES`
/// walls is started afresh. The result has `NUM_WALLS` walls, unless
/// `MAX_DRAWS` walls were drawn without success: then it has the border
/// alone. Either way a grid of at least four by four tiles meets the
/// rules.
pub fn generate_map(width: u8, height: u8) -> (grid: Vec<Vec<bool>>)
    requires
        width >= 3,
        height >= 3,
    ensures
        exists|walls: Seq<Wall>| #[trigger]
            built(walls, width, height) && (walls.len() == NUM_WALLS || walls.len() == 4)
                && grid_view(grid@) == grid_of(
                walls,
                width as int,
                height as int,
            ),
        width >= 4 && height >= 4 ==> valid_grid(grid_view(grid@)),
{
    let min_width: u8 = ((width as u16) * 3 / 10) as u8;
    let max_width: u8 = width / 2;
    let min_height: u8 = ((height as u16) * 3 / 10) as u8;
    let max_height: u8 = height / 2;

    let mut walls: Vec<Wall> = Vec::new();
    let mut draws: u32 = MAX_DRAWS;
    loop
        invariant_except_break
            walls.len() == 0,
        invariant
            width >= 3,
            height >= 3,
            min_width < max_width <= width,
            min_height < max_height <= height,
        ensures
            built(walls@, width, height),
            walls.len() == NUM_WALLS || walls.len() == 4,
        decreases draws,
    {
        walls.push(Wall::new(0, 0, width, 1));
        walls.push(Wall::new(0, height - 1, width, 1));
        walls.push(Wall::new(0, 0, 1, height));
        walls.push(Wall::new(width - 1, 0, 1, height));
        assert(walls@.take(4) == border(width, height));
        if draws == 0 {
            break;
        }
        let ghost start = draws;

        let mut tries: u32 = 0;
        while walls.len() < NUM_WALLS && tries <= MAX_TRIES && draws > 0
            invariant
                width >= 3,
                height >= 3,
                min_width < max_width <= width,
                min_height < max_height <= height,
                built(walls@, width, height),
                walls.len() <= NUM_WALLS,
                tries <= MAX_TRIES + 1,
                draws < start || (draws == start && tries == 0 && walls.len() == 4),
            decreases draws,
        {
            draws -= 1;
            let x = sample(1, width - 1);
            let y = sample(1, height - 1);
            let (wall_width, wall_height) = if flip(7, 10) {
                (sample(min_width, max_width), 1)
            } else {
                (1, sample(min_height, max_height))
            };
            let wall = Wall::new(x, y, wall_width, wall_height);

            if x as u16 + wall.width as u16 > width as u16 || y as u16 + wall.height as u16
                > height as u16 {
                continue ;
            }
            if crosses(&walls, &wall) {
                tries += 1;
                continue ;
            }
            let ghost before = walls@;
            walls.push(wall);
            assert(walls@.take(4) == before.take(4));
            let grid = to_grid(walls.as_slice(), width, height);
            proof {
                let g = grid_view(grid@);
                assert(g.len() == width);
                assert(grid.len() == width);
                assert(g[0].len() == height);
                assert forall|gx: int| 0 <= gx < g.len() implies (#[trigger] g[gx]).len()
                    == height by {}
            }
            if !valid_map(grid.as_slice()) {
                tries += 1;
                walls.pop();
                assert(walls@ == before);
                continue ;
            }
        }

        if walls.len() == NUM_WALLS {
            break;
        }
        if draws == 0 {
            walls.truncate(4);
            assert(walls@.take(4) == walls@);
            break;
        }
        walls.clear();
    }
    proof {
        if width >= 4 && height >= 4 && walls.len() == 4 {
            assert(walls@ == border(width, height));
            lemma_border_is_valid(width, height);
        }
    }
    to_grid(walls.as_slice(), width, height)
}

} // verus!
