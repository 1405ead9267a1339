//! A grid of tiles over a rectangle that records which tiles a tool touched,
//! and the walk that groups the marked tiles into rectangles of tiles.
use vstd::prelude::*;

verus! {

/// How the marked tiles are grouped into rectangles.
#[derive(Clone, Copy, Debug, PartialEq, Eq, Structural)]
pub enum RectangleConnectionsIterateType {
    /// Every marked tile on its own.
    SmallerRectangles,
    /// Runs of marked tiles along a row, stretched over the rows above them
    /// that are marked across the whole run.
    BiggerRectangles,
}

/// A `columns` by `rows` grid of tiles, each marked or not.
#[derive(Clone, Debug)]
pub struct RectangleConnections {
    tiles: Vec<Vec<bool>>,
    iterate_type: RectangleConnectionsIterateType,
}

/// The walk over the marked tiles of a grid, row by row from the bottom and
/// along each row from the left.
#[derive(Clone, Debug)]
pub struct RectangleConnectionsItr {
    rectangle: RectangleConnections,
    x: usize,
    y: usize,
}

/// The number of rows of a grid given as its columns.
pub open spec fn grid_rows(g: Seq<Seq<bool>>) -> int {
    if g.len() > 0 {
        g[0].len() as int
    } else {
        0
    }
}

/// Every column of the grid has the same number of rows.
pub open spec fn grid_wf(g: Seq<Seq<bool>>) -> bool {
    forall|i: int| 0 <= i < g.len() ==> #[trigger] g[i].len() == grid_rows(g)
}

/// Tile (`i`, `j`) lies on the grid.
pub open spec fn on_grid(g: Seq<Seq<bool>>, i: int, j: int) -> bool {
    0 <= i < g.len() && 0 <= j < grid_rows(g)
}

/// Tile (`i`, `j`) comes before tile (`x`, `y`) in the walk's order: rows from
/// the bottom, each from the left.
pub open spec fn comes_before(i: int, j: int, x: int, y: int) -> bool {
    j < y || (j == y && i < x)
}

/// Tile (`i`, `j`) lies in the `dx` by `dy` rectangle of tiles whose lower left
/// tile is (`x`, `y`).
pub open spec fn in_block(i: int, j: int, x: int, y: int, dx: int, dy: int) -> bool {
    x <= i < x + dx && y <= j < y + dy
}

/// The walk's abstract state: the grid, the tile it has reached and how it
/// groups tiles.
pub struct ConnectionsView {
    pub grid: Seq<Seq<bool>>,
    pub x: int,
    pub y: int,
    pub iterate_type: RectangleConnectionsIterateType,
}

/// Tile (`i`, `j`) is marked and the walk has not passed it yet.
pub open spec fn is_pending(v: ConnectionsView, i: int, j: int) -> bool {
    on_grid(v.grid, i, j) && v.grid[i][j] && !comes_before(i, j, v.x, v.y)
}

/// The walk has a tile left to return.
pub open spec fn has_pending(v: ConnectionsView) -> bool {
    exists|i: int, j: int| is_pending(v, i, j)
}

/// Tile (`i`, `j`) lies in group `b`, given as its lower left tile, width and
/// height.
pub open spec fn in_group(i: int, j: int, b: (int, int, int, int)) -> bool {
    in_block(i, j, b.0, b.1, b.2, b.3)
}

/// Taking group `b` leads from walk state `v` to `w`: every tile of the group
/// is pending in `v`, and the tiles pending in `w` are those pending in `v`
/// outside the group.
pub open spec fn takes_block(v: ConnectionsView, b: (int, int, int, int), w: ConnectionsView) -> bool {
    &&& forall|i: int, j: int| #[trigger] in_group(i, j, b) ==> is_pending(v, i, j)
    &&& forall|i: int, j: int| #[trigger] is_pending(w, i, j) == (is_pending(v, i, j) && !in_group(i, j, b))
}

/// Tile (`i`, `j`) lies in one of `groups`.
pub open spec fn in_some_group(groups: Seq<(int, int, int, int)>, i: int, j: int) -> bool {
    exists|k: int| 0 <= k < groups.len() && #[trigger] in_group(i, j, groups[k])
}

impl View for RectangleConnections {
    type V = Seq<Seq<bool>>;

    closed spec fn view(&self) -> Seq<Seq<bool>> {
        self.tiles@.map_values(|row: Vec<bool>| row@)
    }
}

impl RectangleConnections {
    proof fn lemma_view(&self)
        ensures
            self@.len() == self.tiles@.len(),
            forall|i: int| 0 <= i < self.tiles@.len() ==> #[trigger] self@[i] == self.tiles@[i]@,
    {
    }

    /// How the grid groups its tiles.
    pub closed spec fn spec_iterate_type(&self) -> RectangleConnectionsIterateType {
        self.iterate_type
    }

    /// Every column has the same number of rows.
    pub closed spec fn wf(&self) -> bool {
        grid_wf(self@)
    }

    /// A grid of `columns` by `rows` tiles, none marked, that returns every
    /// marked tile on its own.
    pub fn from(columns: usize, rows: usize) -> (r: Self)
        ensures
            r.wf(),
            r@.len() == columns,
            columns > 0 ==> grid_rows(r@) == rows,
            forall|i: int, j: int| on_grid(r@, i, j) ==> !r@[i][j],
            r.spec_iterate_type() == RectangleConnectionsIterateType::SmallerRectangles,
    {
        let mut tiles: Vec<Vec<bool>> = Vec::new();
        let mut c: usize = 0;
        while c < columns
            invariant
                c <= columns,
                tiles@.len() == c,
                forall|i: int| 0 <= i < c ==> #[trigger] tiles@[i]@.len() == rows,
                forall|i: int, j: int| 0 <= i < c && 0 <= j < rows ==> !tiles@[i]@[j],
            decreases columns - c,
        {
            let mut row: Vec<bool> = Vec::new();
            let mut r: usize = 0;
            while r < rows
                invariant
                    r <= rows,
                    row@.len() == r,
                    forall|j: int| 0 <= j < r ==> !row@[j],
                decreases rows - r,
            {
                row.push(false);
                r = r + 1;
            }
            tiles.push(row);
            c = c + 1;
        }
        let result = RectangleConnections {
            tiles,
            iterate_type: RectangleConnectionsIterateType::SmallerRectangles,
        };
        assert forall|i: int| 0 <= i < result@.len() implies #[trigger] result@[i].len() == grid_rows(result@) by {
            assert(result@[0] == result.tiles@[0]@);
        }
        result
    }

    /// Marks the tiles of columns `min_x..max_x` and rows `min_y..max_y`,
    /// cut off at the edges of the grid; an empty grid stays as it is.
    pub fn add_rect(&mut self, min_x: usize, min_y: usize, max_x: usize, max_y: usize)
        requires
            old(self).wf(),
        ensures
            final(self).wf(),
            final(self)@.len() == old(self)@.len(),
            grid_rows(final(self)@) == grid_rows(old(self)@),
            final(self).spec_iterate_type() == old(self).spec_iterate_type(),
            forall|i: int, j: int|
                on_grid(old(self)@, i, j) ==> final(self)@[i][j] == (old(self)@[i][j] || (min_x <= i
                    < max_x && min_y <= j < max_y)),
    {
        let ghost g0 = self@;
        let ghost it0 = self.iterate_type;
        if self.tiles.len() == 0 || self.tiles[0].len() == 0 {
            return;
        }
        let cols = self.tiles.len();
        let rows = self.tiles[0].len();
        let mut end_x = max_x;
        let mut end_y = max_y;
        if end_x >= cols {
            end_x = cols;
        }
        if end_y >= rows {
            end_y = rows;
        }
        proof {
            assert forall|i: int| 0 <= i < cols implies #[trigger] self.tiles@[i]@ == g0[i] by {}
        }
        let mut x = min_x;
        while x < end_x
            invariant
                min_x <= x,
                x <= end_x || x == min_x,
                self.iterate_type == it0,
                end_x <= cols,
                end_y <= rows,
                cols == self.tiles@.len(),
                cols == g0.len(),
                rows == grid_rows(g0),
                grid_wf(g0),
                forall|i: int| 0 <= i < cols ==> #[trigger] self.tiles@[i]@.len() == rows,
                forall|i: int, j: int|
                    0 <= i < cols && 0 <= j < rows ==> #[trigger] self.tiles@[i]@[j] == (g0[i][j] || (min_x
                        <= i < x && min_y <= j < end_y)),
            decreases end_x - x,
        {
            let mut y = min_y;
            assert forall|i: int, j: int| 0 <= i < cols && 0 <= j < rows implies self.tiles@[i]@[j] == (
            g0[i][j] || (min_x <= i < x && min_y <= j < end_y) || (i == x && min_y <= j < y)) by {}
            while y < end_y
                invariant
                    min_x <= x < end_x,
                    min_y <= y,
                    y <= end_y || y == min_y,
                    self.iterate_type == it0,
                    end_x <= cols,
                    end_y <= rows,
                    cols == self.tiles@.len(),
                    cols == g0.len(),
                    rows == grid_rows(g0),
                    grid_wf(g0),
                    forall|i: int| 0 <= i < cols ==> #[trigger] self.tiles@[i]@.len() == rows,
                    forall|i: int, j: int|
                        0 <= i < cols && 0 <= j < rows ==> #[trigger] self.tiles@[i]@[j] == (g0[i][j] || (min_x
                            <= i < x && min_y <= j < end_y) || (i == x && min_y <= j < y)),
                decreases end_y - y,
            {
                self.tiles[x][y] = true;
                y = y + 1;
            }
            x = x + 1;
        }
        proof {
            assert(self@.len() == cols);
            assert(self@[0] == self.tiles@[0]@);
            assert forall|i: int| 0 <= i < self@.len() implies #[trigger] self@[i].len() == grid_rows(self@) by {
                assert(self@[i] == self.tiles@[i]@);
            }
            assert forall|i: int, j: int| on_grid(g0, i, j) implies self@[i][j] == (g0[i][j] || (min_x
                <= i < max_x && min_y <= j < max_y)) by {
                assert(self@[i] == self.tiles@[i]@);
            }
        }
    }

    /// Groups the tiles into single tiles from now on.
    pub fn to_smaller_rect_iter(&mut self)
        ensures
            final(self)@ == old(self)@,
            final(self).wf() == old(self).wf(),
            final(self).spec_iterate_type() == RectangleConnectionsIterateType::SmallerRectangles,
    {
        self.iterate_type = RectangleConnectionsIterateType::SmallerRectangles;
    }

    /// Groups the tiles into the largest runs and blocks from now on.
    pub fn to_bigger_rect_iter(&mut self)
        ensures
            final(self)@ == old(self)@,
            final(self).wf() == old(self).wf(),
            final(self).spec_iterate_type() == RectangleConnectionsIterateType::BiggerRectangles,
    {
        self.iterate_type = RectangleConnectionsIterateType::BiggerRectangles;
    }
}

impl RectangleConnections {
    /// The walk over the grid's marked tiles, from the lower left tile.
    pub fn into_itr(self) -> (r: RectangleConnectionsItr)
        requires
            self.wf(),
        ensures
            r.wf(),
            r@ == (ConnectionsView { grid: self@, x: 0, y: 0, iterate_type: self.spec_iterate_type() }),
    {
        RectangleConnectionsItr { rectangle: self, x: 0, y: 0 }
    }
}

impl View for RectangleConnectionsItr {
    type V = ConnectionsView;

    closed spec fn view(&self) -> ConnectionsView {
        ConnectionsView {
            grid: self.rectangle@,
            x: self.x as int,
            y: self.y as int,
            iterate_type: self.rectangle.iterate_type,
        }
    }
}

/// The walk's position lies on the grid, or at its end.
pub open spec fn itr_position_ok(v: ConnectionsView) -> bool {
    &&& 0 <= v.x && 0 <= v.y
    &&& (v.x < v.grid.len() || v.x == 0)
    &&& v.y <= grid_rows(v.grid)
}

/// The tile after (`x`, `y`) in the walk's order on a grid of `cols` columns.
pub open spec fn next_tile(x: int, y: int, cols: int) -> (int, int) {
    if x + 1 >= cols {
        (0, y + 1)
    } else {
        (x + 1, y)
    }
}

impl RectangleConnectionsItr {
    /// The grid is well formed and the position lies on it or at its end.
    pub closed spec fn wf(&self) -> bool {
        &&& self.rectangle.wf()
        &&& itr_position_ok(self@)
    }

    fn increment_by_one_x(&mut self)
        requires
            old(self).wf(),
            (old(self).x as int) < old(self).rectangle.tiles@.len(),
            (old(self).y as int) < grid_rows(old(self).rectangle@),
        ensures
            final(self).wf(),
            final(self).rectangle == old(self).rectangle,
            (final(self).x as int, final(self).y as int) == next_tile(
                old(self).x as int,
                old(self).y as int,
                old(self).rectangle@.len() as int,
            ),
    {
        proof {
            self.rectangle.lemma_view();
        }
        let cols = self.rectangle.tiles.len();
        let rows = self.rectangle.tiles[0].len();
        self.x = self.x + 1;
        if self.x >= cols {
            self.x = 0;
            self.y = self.y + 1;
        }
    }

    /// The next group of marked tiles as its lower left tile, its width and
    /// its height in tiles; `None` when no marked tile is left.
    ///
    /// The group starts at the first marked tile that the walk has not passed.
    /// Grouping single tiles, it is that tile alone. Grouping bigger
    /// rectangles, it takes in the run of marked tiles to its right and then
    /// every row above in which the tiles across the run are all marked; the
    /// tiles it takes in are unmarked. Either way the walk moves past the
    /// first tile, so that the groups it returns cover the marked tiles once.
    pub fn next_rect(&mut self) -> (r: Option<(usize, usize, usize, usize)>)
        requires
            old(self).wf(),
        ensures
            final(self).wf(),
            final(self)@.iterate_type == old(self)@.iterate_type,
            final(self)@.grid.len() == old(self)@.grid.len(),
            grid_rows(final(self)@.grid) == grid_rows(old(self)@.grid),
            r is None <==> !has_pending(old(self)@),
            r is None ==> !has_pending(final(self)@) && final(self)@.grid == old(self)@.grid,
            r matches Some((x, y, dx, dy)) ==> is_pending(old(self)@, x as int, y as int) && forall|i: int, j: int|
                #[trigger] is_pending(old(self)@, i, j) ==> !comes_before(i, j, x as int, y as int),
            r matches Some((x, y, dx, dy)) ==> dx >= 1 && dy >= 1 && (old(self)@.iterate_type
                == RectangleConnectionsIterateType::SmallerRectangles ==> dx == 1 && dy == 1),
            r matches Some((x, y, dx, dy)) ==> forall|i: int, j: int|
                #[trigger] in_block(i, j, x as int, y as int, dx as int, dy as int) ==> is_pending(
                    old(self)@,
                    i,
                    j,
                ),
            r matches Some((x, y, dx, dy)) ==> forall|i: int, j: int|
                on_grid(old(self)@.grid, i, j) ==> #[trigger] final(self)@.grid[i][j] == (old(self)@.grid[i][j]
                    && !(in_block(i, j, x as int, y as int, dx as int, dy as int) && (i, j) != (
                    x as int,
                    y as int,
                ))),
            r matches Some((x, y, dx, dy)) ==> takes_block(
                old(self)@,
                (x as int, y as int, dx as int, dy as int),
                final(self)@,
            ),
            r matches Some((x, y, dx, dy)) ==> (final(self)@.x, final(self)@.y) == next_tile(
                x as int,
                y as int,
                old(self)@.grid.len() as int,
            ),
            r matches Some((x, y, dx, dy)) ==> forall|i: int, j: int|
                #[trigger] is_pending(final(self)@, i, j) == (is_pending(old(self)@, i, j) && !in_block(
                    i,
                    j,
                    x as int,
                    y as int,
                    dx as int,
                    dy as int,
                )),
            r matches Some((x, y, dx, dy)) ==> old(self)@.iterate_type
                == RectangleConnectionsIterateType::BiggerRectangles ==> (x + dx == old(self)@.grid.len()
                || !old(self)@.grid[x + dx][y as int]) && (y + dy == grid_rows(old(self)@.grid) || exists|d: int|
                0 <= d < dx && !#[trigger] old(self)@.grid[x + d][y + dy]),
    {
        let ghost v = self@;
        proof {
            self.rectangle.lemma_view();
        }
        let cols = self.rectangle.tiles.len();
        while self.x < cols && self.y < self.rectangle.tiles[0].len() && !self.rectangle.tiles[self.x][self.y]
            invariant
                self.wf(),
                self.rectangle == old(self).rectangle,
                cols == self.rectangle.tiles@.len(),
                v.grid == self.rectangle@,
                v == old(self)@,
                v.grid.len() == cols,
                forall|i: int| 0 <= i < cols ==> #[trigger] self.rectangle.tiles@[i]@ == v.grid[i],
                !comes_before(self.x as int, self.y as int, v.x, v.y),
                forall|i: int, j: int|
                    #[trigger] is_pending(v, i, j) ==> !comes_before(i, j, self.x as int, self.y as int),
            decreases grid_rows(v.grid) - self.y, cols - self.x,
        {
            let ghost (x0, y0) = (self.x as int, self.y as int);
            self.increment_by_one_x();
            proof {
                assert(!v.grid[x0][y0]);
                assert forall|i: int, j: int| #[trigger] is_pending(v, i, j) implies !comes_before(
                    i,
                    j,
                    self.x as int,
                    self.y as int,
                ) by {
                    assert(!comes_before(i, j, x0, y0));
                    assert((i, j) != (x0, y0));
                }
            }
        }
        if self.x >= cols || self.y >= self.rectangle.tiles[0].len() {
            proof {
                assert forall|i: int, j: int| !is_pending(v, i, j) by {
                    if is_pending(v, i, j) {
                        assert(!comes_before(i, j, self.x as int, self.y as int));
                    }
                }
                assert forall|i: int, j: int| !is_pending(self@, i, j) by {
                    if is_pending(self@, i, j) {
                        assert(is_pending(v, i, j));
                    }
                }
            }
            return None;
        }
        let x = self.x;
        let y = self.y;
        let rows = self.rectangle.tiles[0].len();
        let mut dx: usize = 1;
        let mut dy: usize = 1;
        assert(v.grid[x as int][y as int]);
        assert(is_pending(v, x as int, y as int));
        if let RectangleConnectionsIterateType::BiggerRectangles = self.rectangle.iterate_type {
            while x + dx < cols && self.rectangle.tiles[x + dx][y]
                invariant
                    1 <= dx,
                    x + dx <= cols,
                    x < cols,
                    y < rows,
                    rows == grid_rows(v.grid),
                    cols == self.rectangle.tiles@.len(),
                    v.grid.len() == cols,
                    grid_wf(v.grid),
                    self.rectangle.iterate_type == v.iterate_type,
                    self.x == x && self.y == y,
                    forall|i: int| 0 <= i < cols ==> #[trigger] self.rectangle.tiles@[i]@.len() == rows,
                    forall|i: int, j: int|
                        on_grid(v.grid, i, j) ==> #[trigger] self.rectangle.tiles@[i]@[j] == (v.grid[i][j]
                            && !(x < i < x + dx && j == y)),
                    forall|d: int| 0 <= d < dx ==> #[trigger] v.grid[x + d][y as int],
                decreases cols - x - dx,
            {
                assert(self.rectangle.tiles@[x + dx]@[y as int] == v.grid[x + dx][y as int]);
                self.rectangle.tiles[x + dx][y] = false;
                dx = dx + 1;
            }
            let mut going = true;
            assert forall|i: int, j: int| #[trigger] in_block(i, j, x as int, y as int, dx as int, dy as int) implies v.grid[i][j] by {
                assert(v.grid[x + (i - x)][y as int]);
            }
            while going && y + dy < self.rectangle.tiles[x + dx - 1].len()
                invariant
                    1 <= dx,
                    x + dx <= cols,
                    x < cols,
                    1 <= dy,
                    y + dy <= rows,
                    rows == grid_rows(v.grid),
                    cols == self.rectangle.tiles@.len(),
                    v.grid.len() == cols,
                    grid_wf(v.grid),
                    self.rectangle.iterate_type == v.iterate_type,
                    self.x == x && self.y == y,
                    x + dx == cols || !v.grid[x + dx][y as int],
                    forall|i: int| 0 <= i < cols ==> #[trigger] self.rectangle.tiles@[i]@.len() == rows,
                    forall|i: int, j: int|
                        on_grid(v.grid, i, j) ==> #[trigger] self.rectangle.tiles@[i]@[j] == (v.grid[i][j]
                            && !(in_block(i, j, x as int, y as int, dx as int, dy as int) && (i, j) != (
                            x as int,
                            y as int,
                        ))),
                    forall|i: int, j: int|
                        #[trigger] in_block(i, j, x as int, y as int, dx as int, dy as int) ==> v.grid[i][j],
                    !going ==> y + dy < rows && exists|d: int|
                        0 <= d < dx && !#[trigger] v.grid[x + d][y + dy],
                decreases rows - y - dy, if going { 1int } else { 0int },
            {
                let mut all_marked = true;
                let mut d: usize = 0;
                while d < dx
                    invariant
                        d <= dx,
                        x + dx <= cols,
                        y + dy < rows,
                        rows == grid_rows(v.grid),
                        cols == self.rectangle.tiles@.len(),
                        v.grid.len() == cols,
                        forall|i: int| 0 <= i < cols ==> #[trigger] self.rectangle.tiles@[i]@.len() == rows,
                        forall|i: int, j: int|
                            on_grid(v.grid, i, j) ==> #[trigger] self.rectangle.tiles@[i]@[j] == (v.grid[i][j]
                                && !(in_block(i, j, x as int, y as int, dx as int, dy as int) && (i, j) != (
                                x as int,
                                y as int,
                            ))),
                        all_marked <==> forall|e: int| 0 <= e < d ==> #[trigger] v.grid[x + e][y + dy],
                        self.rectangle.iterate_type == v.iterate_type,
                        self.x == x && self.y == y,
                        grid_wf(v.grid),
                        forall|i: int, j: int|
                            #[trigger] in_block(i, j, x as int, y as int, dx as int, dy as int) ==> v.grid[i][j],
                    decreases dx - d,
                {
                    assert(self.rectangle.tiles@[x + d]@[y + dy] == v.grid[x + d][y + dy]);
                    if !self.rectangle.tiles[x + d][y + dy] {
                        all_marked = false;
                    }
                    d = d + 1;
                }
                if !all_marked {
                    going = false;
                } else {
                    let mut d: usize = 0;
                    while d < dx
                        invariant
                            d <= dx,
                            x + dx <= cols,
                            y + dy < rows,
                            rows == grid_rows(v.grid),
                            cols == self.rectangle.tiles@.len(),
                            v.grid.len() == cols,
                            forall|i: int| 0 <= i < cols ==> #[trigger] self.rectangle.tiles@[i]@.len() == rows,
                            forall|i: int, j: int|
                                on_grid(v.grid, i, j) ==> #[trigger] self.rectangle.tiles@[i]@[j] == (
                                v.grid[i][j] && !(in_block(i, j, x as int, y as int, dx as int, dy as int) && (
                                i,
                                j,
                            ) != (x as int, y as int)) && !(x <= i < x + d && j == y + dy)),
                            forall|e: int| 0 <= e < dx ==> #[trigger] v.grid[x + e][y + dy],
                            self.rectangle.iterate_type == v.iterate_type,
                            self.x == x && self.y == y,
                            grid_wf(v.grid),
                            forall|i: int, j: int|
                                #[trigger] in_block(i, j, x as int, y as int, dx as int, dy as int) ==> v.grid[i][j],
                        decreases dx - d,
                    {
                        self.rectangle.tiles[x + d][y + dy] = false;
                        d = d + 1;
                    }
                    assert forall|i: int, j: int| #[trigger] in_block(i, j, x as int, y as int, dx as int, dy + 1) implies v.grid[i][j] by {
                        if j == y + dy {
                            assert(v.grid[x + (i - x)][y + dy]);
                        } else {
                            assert(in_block(i, j, x as int, y as int, dx as int, dy as int));
                        }
                    }
                    dy = dy + 1;
                }
            }
        }
        proof {
            self.rectangle.lemma_view();
        }
        self.increment_by_one_x();
        Some((x, y, dx, dy))
    }
}

/// Groups taken one after another from walk state `views[0]` cover, together
/// with the tiles still pending at the end, exactly the tiles pending at the
/// start; no tile lies in two of them. Once the walk has no tile left (its
/// `next_rect` returned `None`), the groups it returned cover every tile that
/// was marked and not yet passed, each exactly once.
pub proof fn lemma_groups_partition(views: Seq<ConnectionsView>, groups: Seq<(int, int, int, int)>)
    requires
        views.len() == groups.len() + 1,
        forall|k: int| 0 <= k < groups.len() ==> takes_block(views[k], #[trigger] groups[k], views[k + 1]),
    ensures
        forall|i: int, j: int|
            #[trigger] is_pending(views[0], i, j) <==> (is_pending(views.last(), i, j) || in_some_group(
                groups,
                i,
                j,
            )),
        forall|k1: int, k2: int, i: int, j: int|
            0 <= k1 < k2 < groups.len() && #[trigger] in_group(i, j, groups[k1]) ==> !#[trigger] in_group(
                i,
                j,
                groups[k2],
            ),
        forall|i: int, j: int| #[trigger] in_some_group(groups, i, j) ==> !is_pending(views.last(), i, j),
        !has_pending(views.last()) ==> forall|i: int, j: int|
            #[trigger] is_pending(views[0], i, j) <==> in_some_group(groups, i, j),
    decreases groups.len(),
{
    if groups.len() == 0 {
        assert forall|i: int, j: int| #[trigger] is_pending(views[0], i, j) <==> (is_pending(
            views.last(),
            i,
            j,
        ) || in_some_group(groups, i, j)) by {}
    } else {
        let n = groups.len() - 1;
        let vs = views.drop_last();
        let gs = groups.drop_last();
        assert forall|k: int| 0 <= k < gs.len() implies takes_block(vs[k], #[trigger] gs[k], vs[k + 1]) by {
            assert(gs[k] == groups[k]);
        }
        lemma_groups_partition(vs, gs);
        assert(takes_block(views[n], groups[n], views[n + 1]));
        assert(vs.last() == views[n]);
        assert forall|i: int, j: int| #[trigger] is_pending(views[0], i, j) <==> (is_pending(
            views.last(),
            i,
            j,
        ) || in_some_group(groups, i, j)) by {
            assert(is_pending(vs[0], i, j) == is_pending(views[0], i, j));
            if in_some_group(gs, i, j) {
                let k = choose|k: int| 0 <= k < gs.len() && #[trigger] in_group(i, j, gs[k]);
                assert(in_group(i, j, groups[k]));
            }
            if in_some_group(groups, i, j) {
                let k = choose|k: int| 0 <= k < groups.len() && #[trigger] in_group(i, j, groups[k]);
                if k < n {
                    assert(in_group(i, j, gs[k]));
                }
            }
            if in_group(i, j, groups[n]) {
                assert(is_pending(views[n], i, j));
            }
        }
        assert forall|i: int, j: int| #[trigger] in_some_group(groups, i, j) implies !is_pending(
            views.last(),
            i,
            j,
        ) by {
            let k = choose|k: int| 0 <= k < groups.len() && #[trigger] in_group(i, j, groups[k]);
            if k < n {
                assert(in_group(i, j, gs[k]));
                assert(in_some_group(gs, i, j));
            }
        }
        assert forall|k1: int, k2: int, i: int, j: int|
            0 <= k1 < k2 < groups.len() && #[trigger] in_group(i, j, groups[k1]) implies !#[trigger] in_group(
            i,
            j,
            groups[k2],
        ) by {
            if k2 < n {
                assert(in_group(i, j, gs[k1]));
                assert(gs[k2] == groups[k2]);
            } else if in_group(i, j, groups[k2]) {
                assert(in_group(i, j, gs[k1]));
                assert(in_some_group(gs, i, j));
                assert(is_pending(views[n], i, j));
                assert(is_pending(vs.last(), i, j));
            }
        }
    }
}

} // verus!
