//! The tile grid of a round and its conversion to world coordinates.

use crate::cell::Cell;
use crate::map_generator::{built, generate_map, grid_of, grid_view, valid_grid};
use crate::units::{WORLD_HEIGHT, WORLD_WIDTH};
use itertools::Itertools;
use vstd::prelude::*;

verus! {

/// A rectangular grid of tiles laid over the playfield. `cells[gx][gy]`
/// tells whether the tile in column `gx` and row `gy` is solid. A map is
/// never patched: a new round brings a new map.
#[derive(Debug)]
pub struct TileMap {
    pub width: u8,
    pub height: u8,
    pub cells: Vec<Vec<bool>>,
}

/// Columns of a generated map.
pub const MAP_WIDTH: u8 = 48;

/// Rows of a generated map.
pub const MAP_HEIGHT: u8 = 27;

impl Default for TileMap {
    /// The map without tiles.
    fn default() -> (r: Self)
        ensures
            r.width == 0,
            r.height == 0,
            r.cells@ == Seq::<Vec<bool>>::empty(),
            r.wf(),
    {
        Self { width: 0, height: 0, cells: Vec::new() }
    }
}

impl Clone for TileMap {
    fn clone(&self) -> (r: Self)
        ensures
            r.alike(self),
            self.wf() ==> r.wf(),
    {
        let mut cells: Vec<Vec<bool>> = Vec::new();
        let mut gx: usize = 0;
        while gx < self.cells.len()
            invariant
                gx <= self.cells.len(),
                cells.len() == gx,
                forall|i: int| 0 <= i < gx ==> (#[trigger] cells[i])@ == self.cells[i]@,
            decreases self.cells.len() - gx,
        {
            let mut column: Vec<bool> = Vec::new();
            let mut gy: usize = 0;
            while gy < self.cells[gx].len()
                invariant
                    gx < self.cells.len(),
                    gy <= self.cells[gx as int].len(),
                    column.len() == gy,
                    forall|j: int| 0 <= j < gy ==> #[trigger] column[j] == self.cells[gx as int][j],
                decreases self.cells[gx as int].len() - gy,
            {
                column.push(self.cells[gx][gy]);
                gy += 1;
            }
            assert(column@ =~= self.cells[gx as int]@);
            cells.push(column);
            gx += 1;
        }
        let r = Self { width: self.width, height: self.height, cells };
        assert(r.grid() =~= self.grid());
        proof {
            if self.wf() {
                assert forall|i: int| 0 <= i < r.cells.len() implies (#[trigger] r.cells[i]).len()
                    == r.height by {
                    assert(r.cells[i]@ == self.cells[i]@);
                    assert(self.cells[i].len() == self.height);
                }
            }
        }
        r
    }
}

/// The pairs `(gx, gy)` with `x0 <= gx < x1` and `y0 <= gy < y1`, column
/// by column: the first component varies slowest.
pub open spec fn product(x0: int, x1: int, y0: int, y1: int) -> Seq<(usize, usize)> {
    let nx = if x1 > x0 {
        x1 - x0
    } else {
        0
    };
    let ny = if y1 > y0 {
        y1 - y0
    } else {
        0
    };
    Seq::new((nx * ny) as nat, |k: int| ((x0 + k / ny) as usize, (y0 + k % ny) as usize))
}

/// Position of the `i`-th of `n` equal divisions of a length `extent`.
pub open spec fn edge(i: int, n: int, extent: int) -> int {
    i * extent / n
}

/// Index of the division of `extent` into `n` parts in which `pos` lies.
/// Positions before the origin count as the first division; the index is
/// not limited to `n`.
pub open spec fn division(pos: int, n: int, extent: int) -> int {
    let i = if pos <= 0 {
        0
    } else {
        pos * n / extent
    };
    if i > usize::MAX {
        usize::MAX as int
    } else {
        i
    }
}

/// Every pair of `product` lies within the two ranges.
pub proof fn lemma_product_in_range(x0: int, x1: int, y0: int, y1: int, k: int)
    requires
        0 <= x0,
        0 <= y0,
        x1 <= usize::MAX,
        y1 <= usize::MAX,
        0 <= k < product(x0, x1, y0, y1).len(),
    ensures
        x0 <= product(x0, x1, y0, y1)[k].0 < x1,
        y0 <= product(x0, x1, y0, y1)[k].1 < y1,
{
    let nx = x1 - x0;
    let ny = y1 - y0;
    assert(nx > 0 && ny > 0) by (nonlinear_arith)
        requires
            0 <= k < (if x1 > x0 {
                x1 - x0
            } else {
                0
            }) * (if y1 > y0 {
                y1 - y0
            } else {
                0
            }),
            nx == x1 - x0,
            ny == y1 - y0,
    ;
    assert(0 <= k / ny < nx && 0 <= k % ny < ny) by (nonlinear_arith)
        requires
            0 <= k < nx * ny,
            ny > 0,
    ;
}

/// The divisions of a length are laid end to end from zero to the length,
/// and none is empty as long as there are no more divisions than units
/// of length.
pub proof fn lemma_edges(i: int, n: int, extent: int)
    requires
        0 <= i < n,
        n <= extent,
    ensures
        edge(0, n, extent) == 0,
        edge(n, n, extent) == extent,
        0 <= edge(i, n, extent) < edge(i + 1, n, extent) <= extent,
{
    assert(0 * extent / n == 0);
    assert((n * extent) / n == extent) by (nonlinear_arith)
        requires
            n > 0,
    ;
    assert(0 <= (i * extent) / n) by (nonlinear_arith)
        requires
            0 <= i,
            0 < n <= extent,
    ;
    assert((i * extent) / n < ((i + 1) * extent) / n) by (nonlinear_arith)
        requires
            0 <= i,
            0 < n <= extent,
    ;
    assert(((i + 1) * extent) / n <= extent) by (nonlinear_arith)
        requires
            0 <= i < n,
            0 < n <= extent,
    ;
}

/// Calls `Itertools::cartesian_product` of itertools on the two ranges
/// `x0..x1` and `y0..y1` and collects what it yields. The contract claims
/// that the pairs come out with the first component varying slowest, each
/// pair once.
#[verifier::external_body]
fn grid_coords(x0: usize, x1: usize, y0: usize, y1: usize) -> (r: Vec<(usize, usize)>)
    requires
        x1 <= 256,
        y1 <= 256,
    ensures
        r@ == product(x0 as int, x1 as int, y0 as int, y1 as int),
{
    (x0..x1).cartesian_product(y0..y1).collect()
}

/// Sum `a + 2`, or `limit` if that is smaller.
fn plus_two_at_most(a: usize, limit: usize) -> (r: usize)
    ensures
        r == if a + 2 < limit {
            a + 2
        } else {
            limit as int
        },
{
    if a < limit && limit - a > 2 {
        a + 2
    } else {
        limit
    }
}

impl TileMap {
    /// The grid is `width` columns of `height` tiles each.
    pub open spec fn wf(&self) -> bool {
        &&& self.cells.len() == self.width
        &&& forall|gx: int| 0 <= gx < self.cells.len() ==> (#[trigger] self.cells[gx]).len()
            == self.height
    }

    /// Occupancy of the grid, column by column.
    pub open spec fn grid(&self) -> Seq<Seq<bool>> {
        grid_view(self.cells@)
    }

    /// The two maps have the same size and the same solid tiles.
    pub open spec fn alike(&self, other: &Self) -> bool {
        self.width == other.width && self.height == other.height && self.grid() == other.grid()
    }

    /// The map was generated: it is `MAP_WIDTH` by `MAP_HEIGHT` tiles, its
    /// solid tiles are those of the border walls and of further walls, and
    /// it meets the rules of the generator.
    pub open spec fn generated(&self) -> bool {
        &&& self.wf()
        &&& self.width == MAP_WIDTH
        &&& self.height == MAP_HEIGHT
        &&& valid_grid(self.grid())
        &&& exists|walls: Seq<crate::map_generator::Wall>| #[trigger]
            built(walls, MAP_WIDTH, MAP_HEIGHT) && self.grid() == grid_of(
                walls,
                MAP_WIDTH as int,
                MAP_HEIGHT as int,
            )
    }

    /// A freshly generated map of `MAP_WIDTH` by `MAP_HEIGHT` tiles.
    pub fn new() -> (r: Self)
        ensures
            r.generated(),
    {
        let width = MAP_WIDTH;
        let height = MAP_HEIGHT;
        let cells = generate_map(width, height);
        proof {
            let g = grid_view(cells@);
            assert(g.len() == width);
            assert forall|gx: int| 0 <= gx < cells.len() implies (#[trigger] cells[gx]).len()
                == height by {
                assert(g[gx].len() == height);
            }
        }
        Self { width, height, cells }
    }

    /// The tile at `(gx, gy)` is solid.
    pub open spec fn solid(&self, gx: int, gy: int) -> bool {
        self.cells[gx][gy]
    }

    /// The rectangle of the tile at `(gx, gy)`. Tile edges divide the
    /// playfield evenly, so neighbouring tiles share their edges exactly.
    pub open spec fn cell(&self, gx: int, gy: int) -> Cell {
        let x = edge(gx, self.width as int, WORLD_WIDTH as int);
        let y = edge(gy, self.height as int, WORLD_HEIGHT as int);
        Cell {
            x: x as i64,
            y: y as i64,
            w: (edge(gx + 1, self.width as int, WORLD_WIDTH as int) - x) as i64,
            h: (edge(gy + 1, self.height as int, WORLD_HEIGHT as int) - y) as i64,
            state: true,
        }
    }

    /// Every tile of the grid lies in the playfield and is not empty, and
    /// it ends where its neighbours to the right and below begin.
    pub proof fn lemma_cell_in_world(&self, gx: int, gy: int)
        requires
            0 <= gx < self.width,
            0 <= gy < self.height,
        ensures
            0 <= self.cell(gx, gy).x,
            0 <= self.cell(gx, gy).y,
            self.cell(gx, gy).w > 0,
            self.cell(gx, gy).h > 0,
            self.cell(gx, gy).x + self.cell(gx, gy).w <= WORLD_WIDTH,
            self.cell(gx, gy).y + self.cell(gx, gy).h <= WORLD_HEIGHT,
            self.cell(gx, gy).x + self.cell(gx, gy).w == self.cell(gx + 1, gy).x,
            self.cell(gx, gy).y + self.cell(gx, gy).h == self.cell(gx, gy + 1).y,
    {
        lemma_edges(gx, self.width as int, WORLD_WIDTH as int);
        lemma_edges(gy, self.height as int, WORLD_HEIGHT as int);
    }

    /// The solid tiles among the grid positions `coords`, in that order.
    pub open spec fn solid_cells(&self, coords: Seq<(usize, usize)>) -> Seq<Cell> {
        coords.filter(|c: (usize, usize)| self.solid(c.0 as int, c.1 as int)).map_values(
            |c: (usize, usize)| self.cell(c.0 as int, c.1 as int),
        )
    }

    /// Grid position of the tile that contains the point `(x, y)`.
    pub open spec fn position(&self, x: int, y: int) -> (int, int) {
        (
            division(x, self.width as int, WORLD_WIDTH as int),
            division(y, self.height as int, WORLD_HEIGHT as int),
        )
    }

    /// The grid positions at most one tile away from the tile that
    /// contains `(x, y)`, as far as they lie on the grid.
    pub open spec fn neighbourhood(&self, x: int, y: int) -> Seq<(usize, usize)> {
        let (gx, gy) = self.position(x, y);
        product(
            if gx > 1 {
                gx - 1
            } else {
                0
            },
            if gx + 2 < self.width {
                gx + 2
            } else {
                self.width as int
            },
            if gy > 1 {
                gy - 1
            } else {
                0
            },
            if gy + 2 < self.height {
                gy + 2
            } else {
                self.height as int
            },
        )
    }

    /// Whether the grid has the shape that `width` and `height` announce.
    pub fn is_wf(&self) -> (r: bool)
        ensures
            r == self.wf(),
    {
        if self.cells.len() != self.width as usize {
            return false;
        }
        let mut gx: usize = 0;
        while gx < self.cells.len()
            invariant
                gx <= self.cells.len(),
                forall|i: int| 0 <= i < gx ==> (#[trigger] self.cells[i]).len() == self.height,
            decreases self.cells.len() - gx,
        {
            if self.cells[gx].len() != self.height as usize {
                return false;
            }
            gx += 1;
        }
        true
    }

    /// Grid position of the tile that contains the point `(x, y)`.
    pub fn coords_at(&self, x: i64, y: i64) -> (r: (usize, usize))
        ensures
            (r.0 as int, r.1 as int) == self.position(x as int, y as int),
    {
        (
            divide(x, self.width, WORLD_WIDTH),
            divide(y, self.height, WORLD_HEIGHT),
        )
    }

    /// The tile at `(gx, gy)` as a rectangle, if it is solid.
    pub fn cell_at_grid(&self, gx: usize, gy: usize) -> (r: Option<Cell>)
        requires
            self.wf(),
            gx < self.width,
            gy < self.height,
        ensures
            r == if self.solid(gx as int, gy as int) {
                Some(self.cell(gx as int, gy as int))
            } else {
                None
            },
    {
        if self.cells[gx][gy] {
            let x = boundary(gx, self.width, WORLD_WIDTH);
            let y = boundary(gy, self.height, WORLD_HEIGHT);
            let x1 = boundary(gx + 1, self.width, WORLD_WIDTH);
            let y1 = boundary(gy + 1, self.height, WORLD_HEIGHT);
            Some(Cell { x, y, w: x1 - x, h: y1 - y, state: self.cells[gx][gy] })
        } else {
            None
        }
    }

    /// The solid tiles among `coords`, in that order.
    fn collect_cells(&self, coords: &Vec<(usize, usize)>) -> (r: Vec<Cell>)
        requires
            self.wf(),
            forall|k: int|
                0 <= k < coords.len() ==> (#[trigger] coords[k]).0 < self.width && coords[k].1
                    < self.height,
        ensures
            r@ == self.solid_cells(coords@),
    {
        let mut out: Vec<Cell> = Vec::new();
        let mut k: usize = 0;
        let ghost pred = |c: (usize, usize)| self.solid(c.0 as int, c.1 as int);
        let ghost make = |c: (usize, usize)| self.cell(c.0 as int, c.1 as int);
        while k < coords.len()
            invariant
                self.wf(),
                k <= coords.len(),
                pred == |c: (usize, usize)| self.solid(c.0 as int, c.1 as int),
                make == |c: (usize, usize)| self.cell(c.0 as int, c.1 as int),
                forall|i: int|
                    0 <= i < coords.len() ==> (#[trigger] coords[i]).0 < self.width && coords[i].1
                        < self.height,
                out@ == coords@.take(k as int).filter(pred).map_values(make),
            decreases coords.len() - k,
        {
            let (gx, gy) = coords[k];
            let found = self.cell_at_grid(gx, gy);
            proof {
                let before = coords@.take(k as int);
                let after = coords@.take(k + 1);
                assert(after.drop_last() == before);
                assert(after.last() == coords[k as int]);
                reveal_with_fuel(Seq::filter, 2);
                if pred(coords[k as int]) {
                    assert(after.filter(pred) == before.filter(pred).push(coords[k as int]));
                    assert(after.filter(pred).map_values(make) == before.filter(pred).map_values(
                        make,
                    ).push(make(coords[k as int])));
                } else {
                    assert(after.filter(pred) == before.filter(pred));
                }
            }
            match found {
                Some(cell) => {
                    out.push(cell);
                },
                None => {},
            }
            k += 1;
        }
        assert(coords@.take(coords.len() as int) == coords@);
        out
    }

    /// Every solid tile of the map as a rectangle, column by column.
    pub fn all_cells(&self) -> (r: Vec<Cell>)
        requires
            self.wf(),
        ensures
            r@ == self.solid_cells(product(0, self.width as int, 0, self.height as int)),
    {
        let coords = grid_coords(0, self.width as usize, 0, self.height as usize);
        proof {
            assert forall|k: int| 0 <= k < coords.len() implies (#[trigger] coords[k]).0
                < self.width && coords[k].1 < self.height by {
                lemma_product_in_range(0, self.width as int, 0, self.height as int, k);
            }
        }
        self.collect_cells(&coords)
    }

    /// The solid tiles at most one tile away from the tile that contains
    /// the point `(x, y)`.
    pub fn cells_around(&self, x: i64, y: i64) -> (r: Vec<Cell>)
        requires
            self.wf(),
        ensures
            r@ == self.solid_cells(self.neighbourhood(x as int, y as int)),
    {
        let (gx, gy) = self.coords_at(x, y);
        let x0 = if gx > 1 {
            gx - 1
        } else {
            0
        };
        let y0 = if gy > 1 {
            gy - 1
        } else {
            0
        };
        let x1 = plus_two_at_most(gx, self.width as usize);
        let y1 = plus_two_at_most(gy, self.height as usize);
        let coords = grid_coords(x0, x1, y0, y1);
        proof {
            assert forall|k: int| 0 <= k < coords.len() implies (#[trigger] coords[k]).0
                < self.width && coords[k].1 < self.height by {
                lemma_product_in_range(x0 as int, x1 as int, y0 as int, y1 as int, k);
            }
        }
        self.collect_cells(&coords)
    }
}

/// Position of the `i`-th of `n` equal divisions of `extent`.
fn boundary(i: usize, n: u8, extent: i64) -> (r: i64)
    requires
        i <= n,
        n > 0,
        0 <= extent <= 0x1_0000_0000,
    ensures
        r == edge(i as int, n as int, extent as int),
        0 <= r <= extent,
{
    assert(0 <= i * extent <= n * extent && n * extent
        <= 0x100 * 0x1_0000_0000) by (nonlinear_arith)
        requires
            0 <= i <= n,
            n < 0x100,
            0 <= extent <= 0x1_0000_0000,
    ;
    assert(0 <= (i * extent) / (n as int) <= extent) by (nonlinear_arith)
        requires
            0 <= i * extent <= n * extent,
            n > 0,
    ;
    (i as i64) * extent / (n as i64)
}

/// Index of the division of `extent` into `n` parts in which `pos` lies.
fn divide(pos: i64, n: u8, extent: i64) -> (r: usize)
    requires
        extent > 0,
    ensures
        r == division(pos as int, n as int, extent as int),
{
    if pos <= 0 {
        return 0;
    }
    assert(0 <= pos * n <= 0x8000_0000_0000_0000 * 0x100) by (nonlinear_arith)
        requires
            0 < pos <= 0x8000_0000_0000_0000,
            0 <= n <= 0x100,
    ;
    let p: i128 = (pos as i128) * (n as i128);
    let q: i128 = p / (extent as i128);
    assert(0 <= (p as int) / (extent as int)) by (nonlinear_arith)
        requires
            p >= 0,
            extent > 0,
    ;
    if q > usize::MAX as i128 {
        usize::MAX
    } else {
        q as usize
    }
}

} // verus!
