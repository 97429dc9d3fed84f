//! The hexagonal tiling: cell centers, six-vertex polygons, and the
//! adjacency graph, laid out in offset coordinates (odd rows shifted
//! right by half a cell).

use vstd::prelude::*;

use crate::geometry::MAX_COORD;
use crate::geometry::Point;
use crate::geometry::floor_div;
use crate::geometry::in_bounds;
use crate::seq_util::lemma_push_contains;

verus! {

/// Most columns or rows a grid may have.
pub const MAX_GRID_DIM: usize = 1000;

/// Largest accepted cell scale (distance from a cell's center to one of
/// its vertices), in fixed-point coordinate steps.
pub const MAX_TILE_SCALE: i64 = 100_000_000;

/// Largest accepted magnitude for the grid's base position.  Together
/// with `MAX_GRID_DIM` and `MAX_TILE_SCALE` this keeps every cell center
/// and vertex inside the coordinate box.
pub const MAX_BASE_COORD: i64 = 700_000_000_000;

/// Numerator of the fixed-point approximation of cos 30 degrees.
pub const COS30_NUM: i64 = 866_025;

/// Denominator of the fixed-point approximation of cos 30 degrees.
pub const COS30_DEN: i64 = 1_000_000;

/// `scale * cos 30`, rounded down: the horizontal half-width of a cell.
pub open spec fn co_of(scale: int) -> int {
    scale * (COS30_NUM as int) / (COS30_DEN as int)
}

/// `scale * sin 30`, rounded down: the vertical offset of the four
/// slanted vertices.
pub open spec fn si_of(scale: int) -> int {
    scale / 2
}

/// Horizontal distance between two cells of the same row.
pub open spec fn tile_width(scale: int) -> int {
    2 * co_of(scale)
}

/// Vertical distance between two rows.
pub open spec fn tile_height(scale: int) -> int {
    3 * si_of(scale)
}

/// The center of the cell in column `x`, row `y`: the base position plus
/// the row/column offsets, with odd rows shifted right by half a cell.
pub open spec fn tile_position(x: int, y: int, scale: int, base: Point) -> Point {
    Point {
        x: (base.x + x * tile_width(scale) + if y % 2 == 1 {
            co_of(scale)
        } else {
            0
        }) as i64,
        y: (base.y + y * tile_height(scale)) as i64,
    }
}

/// The six vertices of the hexagon centered at `c`, starting at the top
/// vertex and proceeding in a fixed rotational order.
pub open spec fn tile_vertices(c: Point, scale: int) -> Seq<Point> {
    let co = co_of(scale);
    let si = si_of(scale);
    seq![
        Point { x: c.x, y: (c.y + scale) as i64 },
        Point { x: (c.x - co) as i64, y: (c.y + si) as i64 },
        Point { x: (c.x - co) as i64, y: (c.y - si) as i64 },
        Point { x: c.x, y: (c.y - scale) as i64 },
        Point { x: (c.x + co) as i64, y: (c.y - si) as i64 },
        Point { x: (c.x + co) as i64, y: (c.y + si) as i64 },
    ]
}

/// The neighbor indices of the cell in column `x`, row `y` of a
/// `cols x rows` grid, in the order they are linked: left, right, then
/// the two cells of the row above, then the two of the row below, where
/// the second cell of each adjacent row sits to the left for even rows
/// and to the right for odd rows.
pub open spec fn spec_neighbors(cols: int, rows: int, x: int, y: int) -> Seq<usize> {
    let idx = y * cols + x;
    let s = Seq::<usize>::empty();
    let s = if x > 0 {
        s.push((idx - 1) as usize)
    } else {
        s
    };
    let s = if x < cols - 1 {
        s.push((idx + 1) as usize)
    } else {
        s
    };
    if y % 2 == 0 {
        let s = if y > 0 {
            let s = s.push((idx - cols) as usize);
            if x > 0 {
                s.push((idx - cols - 1) as usize)
            } else {
                s
            }
        } else {
            s
        };
        if y < rows - 1 {
            let s = s.push((idx + cols) as usize);
            if x > 0 {
                s.push((idx + cols - 1) as usize)
            } else {
                s
            }
        } else {
            s
        }
    } else {
        let s = if y > 0 {
            let s = s.push((idx - cols) as usize);
            if x < cols - 1 {
                s.push((idx - cols + 1) as usize)
            } else {
                s
            }
        } else {
            s
        };
        if y < rows - 1 {
            let s = s.push((idx + cols) as usize);
            if x < cols - 1 {
                s.push((idx + cols + 1) as usize)
            } else {
                s
            }
        } else {
            s
        }
    }
}

/// One cell of the tiling: its index in the grid, its center, the
/// indices of its adjacent cells, and its six-vertex polygon.
pub struct TileInfo {
    pub index: usize,
    pub position: Point,
    pub neighbors: Vec<usize>,
    pub vertices: Vec<Point>,
}

impl TileInfo {
    /// A cell with no links and no vertices yet.
    pub fn new(index: usize, position: Point) -> (r: TileInfo)
        ensures
            r.index == index,
            r.position == position,
            r.neighbors@ == Seq::<usize>::empty(),
            r.vertices@ == Seq::<Point>::empty(),
    {
        TileInfo { index, position, neighbors: Vec::new(), vertices: Vec::new() }
    }
}

/// The finite hexagonal tiling: its cells in row-major order and the
/// scale they were built with.
pub struct Grid {
    pub tiles: Vec<TileInfo>,
    pub tile_scale: i64,
}

/// What every consumer of a grid may rely on: each cell knows its own
/// index, every neighbor index points at a cell of the grid and never at
/// the cell itself, and every center and vertex lies inside the
/// coordinate box.
pub open spec fn grid_wf(g: Grid) -> bool {
    &&& forall|k: int| 0 <= k < g.tiles@.len() ==> (#[trigger] g.tiles@[k]).index == k
    &&& forall|k: int, j: int|
        0 <= k < g.tiles@.len() && 0 <= j < g.tiles@[k].neighbors@.len() ==> (
        #[trigger] g.tiles@[k].neighbors@[j]) < g.tiles@.len() && g.tiles@[k].neighbors@[j] != k
    &&& forall|k: int| 0 <= k < g.tiles@.len() ==> in_bounds((#[trigger] g.tiles@[k]).position)
}

/// The full characterization of a freshly built grid: `cols * rows`
/// cells in row-major order, each with the position, neighbor list and
/// vertex ring of the specification.
pub open spec fn grid_built(g: Grid, cols: int, rows: int, scale: int, base: Point) -> bool {
    &&& g.tile_scale == scale
    &&& g.tiles@.len() == cols * rows
    &&& forall|x: int, y: int|
        0 <= x < cols && 0 <= y < rows ==> {
            let t = #[trigger] g.tiles@[y * cols + x];
            &&& t.index == y * cols + x
            &&& t.position == tile_position(x, y, scale, base)
            &&& t.neighbors@ == spec_neighbors(cols, rows, x, y)
            &&& t.vertices@ == tile_vertices(tile_position(x, y, scale, base), scale)
        }
}

/// Row-major indices compare lexicographically on `(row, column)`.
proof fn lemma_rowmajor_lt(cols: int, x1: int, y1: int, x2: int, y2: int)
    requires
        0 < cols,
        0 <= x1 < cols,
        0 <= x2 < cols,
        0 <= y1,
        0 <= y2,
    ensures
        (y1 * cols + x1 < y2 * cols + x2) <==> (y1 < y2 || (y1 == y2 && x1 < x2)),
        (y1 * cols + x1 == y2 * cols + x2) <==> (y1 == y2 && x1 == x2),
{
    assert((y1 * cols + x1 < y2 * cols + x2) <==> (y1 < y2 || (y1 == y2 && x1 < x2)))
        by (nonlinear_arith)
        requires
            0 < cols,
            0 <= x1 < cols,
            0 <= x2 < cols,
    ;
    assert((y1 * cols + x1 == y2 * cols + x2) <==> (y1 == y2 && x1 == x2)) by (nonlinear_arith)
        requires
            0 < cols,
            0 <= x1 < cols,
            0 <= x2 < cols,
    ;
}

/// `co_of` stays between zero and the scale itself.
proof fn lemma_co_si_bounds(scale: int)
    requires
        0 < scale,
    ensures
        0 <= co_of(scale) <= scale,
        0 <= si_of(scale) <= scale,
{
    assert(0 <= scale * (COS30_NUM as int)) by (nonlinear_arith)
        requires
            0 < scale,
    ;
    assert(scale * (COS30_NUM as int) <= scale * (COS30_DEN as int)) by (nonlinear_arith)
        requires
            0 < scale,
    ;
    vstd::arithmetic::div_mod::lemma_div_is_ordered(
        0,
        scale * (COS30_NUM as int),
        COS30_DEN as int,
    );
    vstd::arithmetic::div_mod::lemma_div_is_ordered(
        scale * (COS30_NUM as int),
        scale * (COS30_DEN as int),
        COS30_DEN as int,
    );
    vstd::arithmetic::div_mod::lemma_div_multiples_vanish(scale, COS30_DEN as int);
    assert(scale * (COS30_DEN as int) == (COS30_DEN as int) * scale) by (nonlinear_arith);
    assert(0int / (COS30_DEN as int) == 0) by (nonlinear_arith);
    vstd::arithmetic::div_mod::lemma_div_is_ordered(0, scale, 2);
    vstd::arithmetic::div_mod::lemma_div_is_ordered(scale, scale + scale, 2);
    assert((scale + scale) / 2 == scale && 0int / 2 == 0) by (nonlinear_arith);
}

/// Every cell center of an accepted grid lies inside the coordinate box,
/// with room for a whole cell around it.
proof fn lemma_position_bounds(x: int, y: int, scale: int, base: Point)
    requires
        0 <= x < MAX_GRID_DIM,
        0 <= y < MAX_GRID_DIM,
        0 < scale <= MAX_TILE_SCALE,
        -MAX_BASE_COORD <= base.x <= MAX_BASE_COORD,
        -MAX_BASE_COORD <= base.y <= MAX_BASE_COORD,
    ensures
        -MAX_COORD <= base.x + x * tile_width(scale) + co_of(scale) <= MAX_COORD - 2 * scale,
        -MAX_COORD <= base.x + x * tile_width(scale) <= MAX_COORD - 2 * scale,
        -MAX_COORD <= base.y + y * tile_height(scale) <= MAX_COORD - 2 * scale,
{
    lemma_co_si_bounds(scale);
    assert(0 <= x * tile_width(scale) <= (MAX_GRID_DIM - 1) * 2 * MAX_TILE_SCALE)
        by (nonlinear_arith)
        requires
            0 <= x < MAX_GRID_DIM,
            0 <= tile_width(scale) <= 2 * MAX_TILE_SCALE,
    ;
    assert(0 <= y * tile_height(scale) <= (MAX_GRID_DIM - 1) * 3 * MAX_TILE_SCALE)
        by (nonlinear_arith)
        requires
            0 <= y < MAX_GRID_DIM,
            0 <= tile_height(scale) <= 3 * MAX_TILE_SCALE,
    ;
}

impl Grid {
    /// The bounding size of a whole tiling: a pure function of the cell
    /// counts and the cell scale, independent of any built grid.
    pub fn hex_grid_size(col: usize, row: usize, tile_scale: i64) -> (r: Point)
        requires
            1 <= col <= MAX_GRID_DIM,
            1 <= row <= MAX_GRID_DIM,
            0 < tile_scale <= MAX_TILE_SCALE,
        ensures
            r == (Point {
                x: (col * tile_width(tile_scale as int)) as i64,
                y: (row * tile_height(tile_scale as int)) as i64,
            }),
            in_bounds(r),
    {
        proof {
            lemma_co_si_bounds(tile_scale as int);
            assert(0 <= col * tile_width(tile_scale as int) <= MAX_GRID_DIM * 2 * MAX_TILE_SCALE)
                by (nonlinear_arith)
                requires
                    1 <= col <= MAX_GRID_DIM,
                    0 <= tile_width(tile_scale as int) <= 2 * MAX_TILE_SCALE,
            ;
            assert(0 <= row * tile_height(tile_scale as int) <= MAX_GRID_DIM * 3 * MAX_TILE_SCALE)
                by (nonlinear_arith)
                requires
                    1 <= row <= MAX_GRID_DIM,
                    0 <= tile_height(tile_scale as int) <= 3 * MAX_TILE_SCALE,
            ;
        }
        let co = floor_div(tile_scale * COS30_NUM, COS30_DEN);
        let si = floor_div(tile_scale, 2);
        Point { x: col as i64 * (2 * co), y: row as i64 * (3 * si) }
    }

    /// Builds the tiling: `col * row` cells in row-major order, each with
    /// its center, its six vertices, and symmetric links to its
    /// neighbors.
    #[verifier::rlimit(100)]
    pub fn hex_grid(col: usize, row: usize, tile_scale: i64, base_position: Point) -> (r: Grid)
        requires
            1 <= col <= MAX_GRID_DIM,
            1 <= row <= MAX_GRID_DIM,
            0 < tile_scale <= MAX_TILE_SCALE,
            -MAX_BASE_COORD <= base_position.x <= MAX_BASE_COORD,
            -MAX_BASE_COORD <= base_position.y <= MAX_BASE_COORD,
        ensures
            grid_built(r, col as int, row as int, tile_scale as int, base_position),
            grid_wf(r),
            r.tiles@.len() >= 1,
            forall|k: int, v: int|
                0 <= k < r.tiles@.len() && 0 <= v < r.tiles@[k].vertices@.len() ==> in_bounds(
                    #[trigger] r.tiles@[k].vertices@[v],
                ),
    {
        let ghost cols = col as int;
        let ghost rows = row as int;
        let ghost scale = tile_scale as int;
        let ghost base = base_position;
        let mut tiles: Vec<TileInfo> = Vec::new();
        let max_x = col - 1;
        let max_y = row - 1;
        let co = floor_div(tile_scale * COS30_NUM, COS30_DEN);
        let si = floor_div(tile_scale, 2);
        let i = tile_scale;
        let tw = 2 * co;
        let th = 3 * si;
        proof {
            lemma_co_si_bounds(scale);
        }
        let mut y: usize = 0;
        while y < row
            invariant
                0 <= y <= row,
                1 <= col <= MAX_GRID_DIM,
                1 <= row <= MAX_GRID_DIM,
                0 < tile_scale <= MAX_TILE_SCALE,
                -MAX_BASE_COORD <= base_position.x <= MAX_BASE_COORD,
                -MAX_BASE_COORD <= base_position.y <= MAX_BASE_COORD,
                cols == col as int,
                rows == row as int,
                scale == tile_scale as int,
                base == base_position,
                max_x == col - 1,
                max_y == row - 1,
                co == co_of(scale),
                si == si_of(scale),
                i == tile_scale,
                tw == tile_width(scale),
                th == tile_height(scale),
                0 <= co <= tile_scale,
                0 <= si <= tile_scale,
                tiles@.len() == y * cols,
                forall|xx: int, yy: int|
                    0 <= xx < cols && 0 <= yy < y ==> {
                        let t = #[trigger] tiles@[yy * cols + xx];
                        &&& t.index == yy * cols + xx
                        &&& t.position == tile_position(xx, yy, scale, base)
                        &&& t.neighbors@ == spec_neighbors(cols, rows, xx, yy)
                        &&& t.vertices@ == tile_vertices(tile_position(xx, yy, scale, base), scale)
                        &&& in_bounds(t.position)
                        &&& forall|v: int|
                            0 <= v < t.vertices@.len() ==> in_bounds(#[trigger] t.vertices@[v])
                    },
            decreases row - y,
        {
            let mut x: usize = 0;
            while x < col
                invariant
                    0 <= x <= col,
                    0 <= y < row,
                    1 <= col <= MAX_GRID_DIM,
                    1 <= row <= MAX_GRID_DIM,
                    0 < tile_scale <= MAX_TILE_SCALE,
                    -MAX_BASE_COORD <= base_position.x <= MAX_BASE_COORD,
                    -MAX_BASE_COORD <= base_position.y <= MAX_BASE_COORD,
                    cols == col as int,
                    rows == row as int,
                    scale == tile_scale as int,
                    base == base_position,
                    max_x == col - 1,
                    max_y == row - 1,
                    co == co_of(scale),
                    si == si_of(scale),
                    i == tile_scale,
                    tw == tile_width(scale),
                    th == tile_height(scale),
                    0 <= co <= tile_scale,
                    0 <= si <= tile_scale,
                    tiles@.len() == y * cols + x,
                    forall|xx: int, yy: int|
                        (0 <= xx < cols && 0 <= yy < y) || (0 <= xx < x && yy == y) ==> {
                            let t = #[trigger] tiles@[yy * cols + xx];
                            &&& t.index == yy * cols + xx
                            &&& t.position == tile_position(xx, yy, scale, base)
                            &&& t.neighbors@ == spec_neighbors(cols, rows, xx, yy)
                            &&& t.vertices@ == tile_vertices(
                                tile_position(xx, yy, scale, base),
                                scale,
                            )
                            &&& in_bounds(t.position)
                            &&& forall|v: int|
                                0 <= v < t.vertices@.len() ==> in_bounds(#[trigger] t.vertices@[v])
                        },
                decreases col - x,
            {
                proof {
                    lemma_position_bounds(x as int, y as int, scale, base);
                    assert(y * cols + x < cols * rows) by (nonlinear_arith)
                        requires
                            0 <= x < cols,
                            0 <= y < rows,
                            0 < cols,
                    ;
                    assert(cols * rows <= MAX_GRID_DIM * MAX_GRID_DIM) by (nonlinear_arith)
                        requires
                            0 < cols <= MAX_GRID_DIM,
                            0 < rows <= MAX_GRID_DIM,
                    ;
                    assert((y as int) >= 1 ==> (y as int) * cols >= cols) by (nonlinear_arith)
                        requires
                            0 < cols,
                    ;
                    assert((y as int) < rows - 1 ==> ((y as int) + 1) * cols + cols <= cols * rows)
                        by (nonlinear_arith)
                        requires
                            0 < cols,
                    ;
                    assert(((y as int) + 1) * cols == (y as int) * cols + cols) by (nonlinear_arith);
                }
                let mut px = base_position.x + x as i64 * tw;
                let py = base_position.y + y as i64 * th;
                if y % 2 == 1 {
                    px = px + co;
                }
                let position = Point { x: px, y: py };
                let tile_index = tiles.len();
                let mut tile = TileInfo::new(tile_index, position);

                if x > 0 {
                    tile.neighbors.push(tile_index - 1);
                }
                if x < max_x {
                    tile.neighbors.push(tile_index + 1);
                }
                if y % 2 == 0 {
                    if y > 0 {
                        tile.neighbors.push(tile_index - col);
                        if x > 0 {
                            tile.neighbors.push(tile_index - col - 1);
                        }
                    }
                    if y < max_y {
                        tile.neighbors.push(tile_index + col);
                        if x > 0 {
                            tile.neighbors.push(tile_index + col - 1);
                        }
                    }
                } else {
                    if y > 0 {
                        tile.neighbors.push(tile_index - col);
                        if x < max_x {
                            tile.neighbors.push(tile_index - col + 1);
                        }
                    }
                    if y < max_y {
                        tile.neighbors.push(tile_index + col);
                        if x < max_x {
                            tile.neighbors.push(tile_index + col + 1);
                        }
                    }
                }
                proof {
                    assert((y as int) % 2 == (y % 2) as int);
                    assert(tile.neighbors@ =~= spec_neighbors(cols, rows, x as int, y as int));
                }

                tile.vertices.push(Point { x: position.x, y: position.y + i });
                tile.vertices.push(Point { x: position.x - co, y: position.y + si });
                tile.vertices.push(Point { x: position.x - co, y: position.y - si });
                tile.vertices.push(Point { x: position.x, y: position.y - i });
                tile.vertices.push(Point { x: position.x + co, y: position.y - si });
                tile.vertices.push(Point { x: position.x + co, y: position.y + si });
                proof {
                    assert(tile.vertices@ =~= tile_vertices(
                        tile_position(x as int, y as int, scale, base),
                        scale,
                    ));
                }

                tiles.push(tile);
                proof {
                    assert forall|xx: int, yy: int|
                        (0 <= xx < cols && 0 <= yy < y) || (0 <= xx < x + 1 && yy == y)
                            implies {
                            let t = #[trigger] tiles@[yy * cols + xx];
                            &&& t.index == yy * cols + xx
                            &&& t.position == tile_position(xx, yy, scale, base)
                            &&& t.neighbors@ == spec_neighbors(cols, rows, xx, yy)
                            &&& t.vertices@ == tile_vertices(
                                tile_position(xx, yy, scale, base),
                                scale,
                            )
                            &&& in_bounds(t.position)
                            &&& forall|v: int|
                                0 <= v < t.vertices@.len() ==> in_bounds(#[trigger] t.vertices@[v])
                        } by {
                        lemma_rowmajor_lt(cols, xx, yy, x as int, y as int);
                    }
                }
                x = x + 1;
            }
            proof {
                assert((y + 1) * cols == y * cols + cols) by (nonlinear_arith);
            }
            y = y + 1;
        }
        let r = Grid { tiles, tile_scale };
        proof {
            assert(r.tiles@.len() == rows * cols);
            assert(rows * cols == cols * rows) by (nonlinear_arith);
            assert(r.tiles@.len() >= 1) by (nonlinear_arith)
                requires
                    r.tiles@.len() == cols * rows,
                    1 <= cols,
                    1 <= rows,
            ;
            assert forall|k: int| 0 <= k < r.tiles@.len() implies (#[trigger] r.tiles@[k]).index
                == k && in_bounds(r.tiles@[k].position) && (forall|v: int|
                0 <= v < r.tiles@[k].vertices@.len() ==> in_bounds(
                    #[trigger] r.tiles@[k].vertices@[v],
                )) by {
                lemma_index_coords(cols, rows, k);
                let xx = k % cols;
                let yy = k / cols;
                assert(r.tiles@[yy * cols + xx].index == yy * cols + xx);
            }
            assert forall|k: int, j: int|
                0 <= k < r.tiles@.len() && 0 <= j < r.tiles@[k].neighbors@.len() implies (
            #[trigger] r.tiles@[k].neighbors@[j]) < r.tiles@.len() && r.tiles@[k].neighbors@[j]
                != k by {
                lemma_index_coords(cols, rows, k);
                let xx = k % cols;
                let yy = k / cols;
                assert(r.tiles@[yy * cols + xx].neighbors@ == spec_neighbors(cols, rows, xx, yy));
                assert(cols * rows <= 1_000_000) by (nonlinear_arith)
                    requires
                        0 < cols <= MAX_GRID_DIM,
                        0 < rows <= MAX_GRID_DIM,
                ;
                lemma_neighbors_valid(cols, rows, xx, yy);
            }
        }
        r
    }
}

/// A row-major index below `cols * rows` decomposes into a valid column
/// and row.
pub proof fn lemma_index_coords(cols: int, rows: int, k: int)
    requires
        0 < cols,
        0 < rows,
        0 <= k < cols * rows,
    ensures
        k == (k / cols) * cols + (k % cols),
        0 <= k % cols < cols,
        0 <= k / cols < rows,
{
    vstd::arithmetic::div_mod::lemma_fundamental_div_mod(k, cols);
    assert(k == cols * (k / cols) + (k % cols));
    assert(cols * (k / cols) == (k / cols) * cols) by (nonlinear_arith);
    assert(0 <= k % cols < cols) by {
        vstd::arithmetic::div_mod::lemma_mod_division_less_than_divisor(k, cols);
    }
    assert(0 <= k / cols) by (nonlinear_arith)
        requires
            0 <= k,
            0 < cols,
    ;
    assert(k / cols < rows) by (nonlinear_arith)
        requires
            0 < cols,
            0 < rows,
            k < cols * rows,
            k == (k / cols) * cols + (k % cols),
            0 <= k % cols,
    ;
}

/// Whether the cells in columns/rows `(ax, ay)` and `(bx, by)` of the
/// offset layout are adjacent: horizontal neighbors in the same row, or
/// cells of adjacent rows that share an edge — the cell straight
/// above/below, or its left neighbor for even rows and its right
/// neighbor for odd rows.
pub open spec fn hex_adjacent(ax: int, ay: int, bx: int, by: int) -> bool {
    ||| (by == ay && (bx == ax - 1 || bx == ax + 1))
    ||| ((by == ay - 1 || by == ay + 1) && (bx == ax || bx == (if ay % 2 == 0 {
        ax - 1
    } else {
        ax + 1
    })))
}

/// Hex adjacency is a symmetric relation on offset coordinates.
pub proof fn lemma_hex_adjacent_symmetric(ax: int, ay: int, bx: int, by: int)
    requires
        0 <= ay,
        0 <= by,
    ensures
        hex_adjacent(ax, ay, bx, by) <==> hex_adjacent(bx, by, ax, ay),
{
    assert(ay % 2 == 0 || ay % 2 == 1);
    assert(by == ay + 1 ==> by % 2 == (if ay % 2 == 0 {
        1int
    } else {
        0int
    }));
    assert(by == ay - 1 && 0 <= by ==> by % 2 == (if ay % 2 == 0 {
        1int
    } else {
        0int
    }));
}

/// A cell's neighbor list holds exactly the row-major indices of the
/// cells adjacent to it.
proof fn lemma_neighbors_characterization(
    cols: int,
    rows: int,
    ax: int,
    ay: int,
    bx: int,
    by: int,
)
    requires
        0 < cols,
        0 < rows,
        cols * rows <= 1_000_000,
        0 <= ax < cols,
        0 <= ay < rows,
        0 <= bx < cols,
        0 <= by < rows,
    ensures
        spec_neighbors(cols, rows, ax, ay).contains(((by * cols + bx) as usize)) <==> hex_adjacent(
            ax,
            ay,
            bx,
            by,
        ),
{
    let idx = ay * cols + ax;
    let bidx = by * cols + bx;
    assert(0 <= ay * cols && 0 <= by * cols) by (nonlinear_arith)
        requires
            0 <= ay,
            0 <= by,
            0 < cols,
    ;
    assert(ay * cols + ax < cols * rows && by * cols + bx < cols * rows) by (nonlinear_arith)
        requires
            0 <= ax < cols,
            0 <= ay < rows,
            0 <= bx < cols,
            0 <= by < rows,
            0 < cols,
    ;
    assert((ay - 1) * cols == ay * cols - cols) by (nonlinear_arith);
    assert((ay + 1) * cols == ay * cols + cols) by (nonlinear_arith);
    assert(ay >= 1 ==> ay * cols >= cols) by (nonlinear_arith)
        requires
            0 < cols,
    ;
    assert(ay < rows - 1 ==> (ay + 1) * cols + cols <= cols * rows) by (nonlinear_arith)
        requires
            0 < cols,
    ;
    let b = bidx as usize;
    assert(b == bidx);
    let e = Seq::<usize>::empty();
    let s1 = if ax > 0 {
        e.push((idx - 1) as usize)
    } else {
        e
    };
    let s2 = if ax < cols - 1 {
        s1.push((idx + 1) as usize)
    } else {
        s1
    };
    assert(s1.contains(b) <==> (ax > 0 && b == ((idx - 1) as usize))) by {
        lemma_push_contains(e, ((idx - 1) as usize));
    }
    assert(s2.contains(b) <==> (s1.contains(b) || (ax < cols - 1 && b == ((idx + 1) as usize))))
        by {
        lemma_push_contains(s1, ((idx + 1) as usize));
    }
    // Same-row candidates in coordinates.
    assert(ax > 0 ==> (b == ((idx - 1) as usize) <==> (by == ay && bx == ax - 1))) by {
        if ax > 0 {
            lemma_rowmajor_lt(cols, bx, by, ax - 1, ay);
        }
    }
    assert(ax < cols - 1 ==> (b == ((idx + 1) as usize) <==> (by == ay && bx == ax + 1))) by {
        if ax < cols - 1 {
            lemma_rowmajor_lt(cols, bx, by, ax + 1, ay);
        }
    }
    // Row-above and row-below candidates in coordinates.
    assert(ay > 0 ==> (b == ((idx - cols) as usize) <==> (by == ay - 1 && bx == ax))) by {
        if ay > 0 {
            lemma_rowmajor_lt(cols, bx, by, ax, ay - 1);
        }
    }
    assert(ay > 0 && ax > 0 ==> (b == ((idx - cols - 1) as usize) <==> (by == ay - 1 && bx == ax
        - 1))) by {
        if ay > 0 && ax > 0 {
            lemma_rowmajor_lt(cols, bx, by, ax - 1, ay - 1);
        }
    }
    assert(ay > 0 && ax < cols - 1 ==> (b == ((idx - cols + 1) as usize) <==> (by == ay - 1 && bx
        == ax + 1))) by {
        if ay > 0 && ax < cols - 1 {
            lemma_rowmajor_lt(cols, bx, by, ax + 1, ay - 1);
        }
    }
    assert(ay < rows - 1 ==> (b == ((idx + cols) as usize) <==> (by == ay + 1 && bx == ax))) by {
        if ay < rows - 1 {
            lemma_rowmajor_lt(cols, bx, by, ax, ay + 1);
        }
    }
    assert(ay < rows - 1 && ax > 0 ==> (b == ((idx + cols - 1) as usize) <==> (by == ay + 1 && bx
        == ax - 1))) by {
        if ay < rows - 1 && ax > 0 {
            lemma_rowmajor_lt(cols, bx, by, ax - 1, ay + 1);
        }
    }
    assert(ay < rows - 1 && ax < cols - 1 ==> (b == ((idx + cols + 1) as usize) <==> (by == ay + 1
        && bx == ax + 1))) by {
        if ay < rows - 1 && ax < cols - 1 {
            lemma_rowmajor_lt(cols, bx, by, ax + 1, ay + 1);
        }
    }
    if ay % 2 == 0 {
        let s3 = if ay > 0 {
            let t = s2.push((idx - cols) as usize);
            if ax > 0 {
                t.push((idx - cols - 1) as usize)
            } else {
                t
            }
        } else {
            s2
        };
        assert(s3.contains(b) <==> (s2.contains(b) || (ay > 0 && b == ((idx - cols) as usize)) || (
        ay > 0 && ax > 0 && b == ((idx - cols - 1) as usize)))) by {
            if ay > 0 {
                let t = s2.push((idx - cols) as usize);
                lemma_push_contains(s2, ((idx - cols) as usize));
                lemma_push_contains(t, ((idx - cols - 1) as usize));
            }
        }
        let s4 = if ay < rows - 1 {
            let t = s3.push((idx + cols) as usize);
            if ax > 0 {
                t.push((idx + cols - 1) as usize)
            } else {
                t
            }
        } else {
            s3
        };
        assert(s4.contains(b) <==> (s3.contains(b) || (ay < rows - 1 && b == ((idx
            + cols) as usize)) || (ay < rows - 1 && ax > 0 && b == ((idx + cols - 1) as usize))))
            by {
            if ay < rows - 1 {
                let t = s3.push((idx + cols) as usize);
                lemma_push_contains(s3, ((idx + cols) as usize));
                lemma_push_contains(t, ((idx + cols - 1) as usize));
            }
        }
        assert(s4 == spec_neighbors(cols, rows, ax, ay));
    } else {
        let s3 = if ay > 0 {
            let t = s2.push((idx - cols) as usize);
            if ax < cols - 1 {
                t.push((idx - cols + 1) as usize)
            } else {
                t
            }
        } else {
            s2
        };
        assert(s3.contains(b) <==> (s2.contains(b) || (ay > 0 && b == ((idx - cols) as usize)) || (
        ay > 0 && ax < cols - 1 && b == ((idx - cols + 1) as usize)))) by {
            if ay > 0 {
                let t = s2.push((idx - cols) as usize);
                lemma_push_contains(s2, ((idx - cols) as usize));
                lemma_push_contains(t, ((idx - cols + 1) as usize));
            }
        }
        let s4 = if ay < rows - 1 {
            let t = s3.push((idx + cols) as usize);
            if ax < cols - 1 {
                t.push((idx + cols + 1) as usize)
            } else {
                t
            }
        } else {
            s3
        };
        assert(s4.contains(b) <==> (s3.contains(b) || (ay < rows - 1 && b == ((idx
            + cols) as usize)) || (ay < rows - 1 && ax < cols - 1 && b == ((idx + cols
            + 1) as usize)))) by {
            if ay < rows - 1 {
                let t = s3.push((idx + cols) as usize);
                lemma_push_contains(s3, ((idx + cols) as usize));
                lemma_push_contains(t, ((idx + cols + 1) as usize));
            }
        }
        assert(s4 == spec_neighbors(cols, rows, ax, ay));
    }
}

/// Adjacency in a built grid is symmetric: cell `b` appears in cell
/// `a`'s neighbor list exactly when `a` appears in `b`'s.
pub proof fn lemma_adjacency_symmetric(
    g: Grid,
    cols: int,
    rows: int,
    scale: int,
    base: Point,
    a: int,
    b: int,
)
    requires
        grid_built(g, cols, rows, scale, base),
        0 < cols,
        0 < rows,
        cols * rows <= 1_000_000,
        0 <= a < g.tiles@.len(),
        0 <= b < g.tiles@.len(),
    ensures
        g.tiles@[a].neighbors@.contains(a as usize) == false,
        g.tiles@[a].neighbors@.contains(b as usize) <==> g.tiles@[b].neighbors@.contains(
            a as usize,
        ),
{
    lemma_index_coords(cols, rows, a);
    lemma_index_coords(cols, rows, b);
    let ax = a % cols;
    let ay = a / cols;
    let bx = b % cols;
    let by = b / cols;
    assert(g.tiles@[ay * cols + ax].neighbors@ == spec_neighbors(cols, rows, ax, ay));
    assert(g.tiles@[by * cols + bx].neighbors@ == spec_neighbors(cols, rows, bx, by));
    lemma_neighbors_characterization(cols, rows, ax, ay, bx, by);
    lemma_neighbors_characterization(cols, rows, bx, by, ax, ay);
    lemma_neighbors_characterization(cols, rows, ax, ay, ax, ay);
    lemma_hex_adjacent_symmetric(ax, ay, bx, by);
}

/// Every listed neighbor of a valid cell is a valid index of another
/// cell.
proof fn lemma_neighbors_valid(cols: int, rows: int, x: int, y: int)
    requires
        0 < cols,
        0 < rows,
        cols * rows <= 1_000_000,
        0 <= x < cols,
        0 <= y < rows,
    ensures
        forall|j: int|
            0 <= j < spec_neighbors(cols, rows, x, y).len() ==> 0 <= (
            #[trigger] spec_neighbors(cols, rows, x, y)[j]) < cols * rows && spec_neighbors(
                cols,
                rows,
                x,
                y,
            )[j] != y * cols + x,
{
    assert(0 <= y * cols) by (nonlinear_arith)
        requires
            0 <= y,
            0 < cols,
    ;
    assert(y * cols + x < cols * rows) by (nonlinear_arith)
        requires
            0 <= x < cols,
            0 <= y < rows,
            0 < cols,
    ;
    assert(y >= 1 ==> y * cols >= cols) by (nonlinear_arith)
        requires
            0 < cols,
    ;
    assert(y < rows - 1 ==> (y + 1) * cols + cols <= cols * rows) by (nonlinear_arith)
        requires
            0 < cols,
    ;
    assert((y + 1) * cols == y * cols + cols) by (nonlinear_arith);
    assert((y + 1) * cols <= rows * cols) by (nonlinear_arith)
        requires
            y < rows,
            0 < cols,
    ;
    assert(rows * cols == cols * rows) by (nonlinear_arith);
    let idx = y * cols + x;
    let e = Seq::<usize>::empty();
    let s1 = if x > 0 {
        e.push((idx - 1) as usize)
    } else {
        e
    };
    let s2 = if x < cols - 1 {
        s1.push((idx + 1) as usize)
    } else {
        s1
    };
    assert(forall|j: int| 0 <= j < s2.len() ==> 0 <= (#[trigger] s2[j]) < cols * rows && s2[j]
        != idx);
    if y % 2 == 0 {
        let s3 = if y > 0 {
            let t = s2.push((idx - cols) as usize);
            if x > 0 {
                t.push((idx - cols - 1) as usize)
            } else {
                t
            }
        } else {
            s2
        };
        assert(forall|j: int| 0 <= j < s3.len() ==> 0 <= (#[trigger] s3[j]) < cols * rows && s3[j]
            != idx);
        let s4 = if y < rows - 1 {
            let t = s3.push((idx + cols) as usize);
            if x > 0 {
                t.push((idx + cols - 1) as usize)
            } else {
                t
            }
        } else {
            s3
        };
        assert(forall|j: int| 0 <= j < s4.len() ==> 0 <= (#[trigger] s4[j]) < cols * rows && s4[j]
            != idx);
        assert(s4 == spec_neighbors(cols, rows, x, y));
    } else {
        let s3 = if y > 0 {
            let t = s2.push((idx - cols) as usize);
            if x < cols - 1 {
                t.push((idx - cols + 1) as usize)
            } else {
                t
            }
        } else {
            s2
        };
        assert(forall|j: int| 0 <= j < s3.len() ==> 0 <= (#[trigger] s3[j]) < cols * rows && s3[j]
            != idx);
        let s4 = if y < rows - 1 {
            let t = s3.push((idx + cols) as usize);
            if x < cols - 1 {
                t.push((idx + cols + 1) as usize)
            } else {
                t
            }
        } else {
            s3
        };
        assert(forall|j: int| 0 <= j < s4.len() ==> 0 <= (#[trigger] s4[j]) < cols * rows && s4[j]
            != idx);
        assert(s4 == spec_neighbors(cols, rows, x, y));
    }
}

} // verus!
