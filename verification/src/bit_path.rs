//! Grid walks that a router bit follows over a `width` by `height` grid of
//! cells: row by row, column by column, or in a spiral out from a start cell.
use vstd::prelude::*;
use vstd::arithmetic::div_mod::{lemma_fundamental_div_mod, lemma_fundamental_div_mod_converse, lemma_mod_bound};
use vstd::arithmetic::mul::lemma_mul_inequality;

verus! {

/// The rule by which a walk moves from one cell to the next.
#[derive(Clone, Copy, Debug, PartialEq, Eq)]
pub enum PathOrder {
    /// Along the rows, reversing direction on every row.
    XThenY,
    /// Along the columns, reversing direction on every column.
    YThenX,
    /// Around the start cell in growing rings, folding back at the grid's
    /// narrow sides.
    SpiralInOut,
}

/// A walk over a `width` by `height` grid of cells that starts at
/// (`start_x`, `start_y`).
#[derive(Clone, Copy, Debug)]
pub struct Path {
    width: usize,
    height: usize,
    start_x: usize,
    start_y: usize,
    next_itr: PathOrder,
}

/// A position on a walk: the current cell, whether the bit is down there, and
/// whether the walk has ended.
#[derive(Clone, Copy, Debug)]
pub struct PathItr {
    path: Path,
    x: usize,
    y: usize,
    is_down: bool,
    is_end: bool,
}

/// The abstract state of a walk.
pub struct PathView {
    pub width: int,
    pub height: int,
    pub start_x: int,
    pub start_y: int,
    pub order: PathOrder,
    pub x: int,
    pub y: int,
    pub is_down: bool,
    pub is_end: bool,
}

impl View for Path {
    type V = PathView;

    closed spec fn view(&self) -> PathView {
        PathView {
            width: self.width as int,
            height: self.height as int,
            start_x: self.start_x as int,
            start_y: self.start_y as int,
            order: self.next_itr,
            x: self.start_x as int,
            y: self.start_y as int,
            is_down: true,
            is_end: false,
        }
    }
}

impl View for PathItr {
    type V = PathView;

    closed spec fn view(&self) -> PathView {
        PathView {
            width: self.path.width as int,
            height: self.path.height as int,
            start_x: self.path.start_x as int,
            start_y: self.path.start_y as int,
            order: self.path.next_itr,
            x: self.x as int,
            y: self.y as int,
            is_down: self.is_down,
            is_end: self.is_end,
        }
    }
}

/// The state `v` moved to cell (`x`, `y`) with the bit down or up as `is_down` says.
pub open spec fn moved(v: PathView, x: int, y: int, is_down: bool) -> PathView {
    PathView { x, y, is_down, ..v }
}

/// A value that a `usize` can hold.
pub open spec fn fits(n: int) -> bool {
    0 <= n <= usize::MAX
}

/// One step of the row-by-row walk: `None` where the step would overflow,
/// else the next state and whether it lies on the grid.
pub open spec fn x_then_y_step(v: PathView) -> Option<(PathView, bool)> {
    let (x, y) = (v.x, v.y);
    if y % 2 == 0 {
        if !fits(x + 1) {
            None
        } else if x + 1 >= v.width {
            if !fits(y + 1) {
                None
            } else {
                Some((moved(v, x, y + 1, v.is_down), y + 1 < v.height))
            }
        } else {
            Some((moved(v, x + 1, y, v.is_down), y < v.height))
        }
    } else {
        if x == 0 {
            if !fits(y + 1) {
                None
            } else {
                Some((moved(v, x, y + 1, v.is_down), y + 1 < v.height))
            }
        } else {
            Some((moved(v, x - 1, y, v.is_down), y < v.height))
        }
    }
}

/// The state with its two axes exchanged.
pub open spec fn transposed(v: PathView) -> PathView {
    PathView {
        width: v.height,
        height: v.width,
        start_x: v.start_y,
        start_y: v.start_x,
        x: v.y,
        y: v.x,
        ..v
    }
}

/// One step of the column-by-column walk: the row-by-row step on the
/// transposed grid.
pub open spec fn y_then_x_step(v: PathView) -> Option<(PathView, bool)> {
    match x_then_y_step(transposed(v)) {
        Some((w, b)) => Some((transposed(w), b)),
        None => None,
    }
}

/// The largest coordinate that the spiral walk handles: its arithmetic mixes
/// coordinates as `i64` values and sums of two of them as `usize` values.
pub open spec fn spiral_limit() -> int {
    if usize::MAX / 4 < i64::MAX {
        (usize::MAX / 4) as int
    } else {
        i64::MAX as int
    }
}

/// One step of the spiral walk: `None` where the step would overflow, else
/// the next state and whether it lies on the grid.
///
/// With the bit up, the step only lowers it. Otherwise the walk turns around
/// the start cell along the two diagonals through it: right above the rising
/// diagonal, down right of the falling one, left below the rising one and up
/// left of the falling one. Where it leaves the grid on a side along the
/// longer axis, it lifts the bit and continues on the mirrored column or row.
pub open spec fn spiral_step(v: PathView) -> Option<(PathView, bool)> {
    let (w, h, sx, sy) = (v.width, v.height, v.start_x, v.start_y);
    if !v.is_down {
        Some((moved(v, v.x, v.y, true), true))
    } else if v.x > spiral_limit() || v.y > spiral_limit() || sx > spiral_limit() || sy > spiral_limit() {
        None
    } else {
        let (x, y) = (v.x, v.y);
        // First move: the new cell, whether the bit stays down, and whether
        // the walk ends there.
        let (x1, y1, d1, ends): (int, int, bool, bool) = if x + y >= sx + sy {
            if y - x > sy - sx {
                (x + 1, y, true, false)
            } else if y == 0 {
                if w > h {
                    if 2 * sx >= x + 1 {
                        (2 * sx - x - 1, y, false, false)
                    } else {
                        (x, y, false, true)
                    }
                } else {
                    (x, y, true, true)
                }
            } else {
                (x, y - 1, true, false)
            }
        } else {
            if y - x < sy - sx {
                if x == 0 {
                    if h > w {
                        if 2 * sy >= y {
                            (x, 2 * sy - y, false, false)
                        } else {
                            (x, y, false, true)
                        }
                    } else {
                        (x, y, true, true)
                    }
                } else {
                    (x - 1, y, true, false)
                }
            } else {
                (x, y + 1, true, false)
            }
        };
        if ends {
            Some((moved(v, x1, y1, d1), false))
        } else {
            // Fold back at a narrow side.
            if x1 >= w && h > w {
                if w == 0 {
                    None
                } else if 2 * sy < y1 + 1 {
                    Some((moved(v, w - 1, y1, d1), false))
                } else {
                    let (x2, y2) = (w - 1, 2 * sy - y1 - 1);
                    Some((moved(v, x2, y2, false), y2 < h))
                }
            } else if y1 >= h && w > h {
                if h == 0 {
                    None
                } else if 2 * sx < x1 {
                    Some((moved(v, x1, h - 1, d1), false))
                } else {
                    let x2 = 2 * sx - x1;
                    Some((moved(v, x2, h - 1, false), x2 < w))
                }
            } else {
                Some((moved(v, x1, y1, d1), x1 < w && y1 < h))
            }
        }
    }
}

/// One step of the walk that `v.order` names.
pub open spec fn path_step(v: PathView) -> Option<(PathView, bool)> {
    match v.order {
        PathOrder::XThenY => x_then_y_step(v),
        PathOrder::YThenX => y_then_x_step(v),
        PathOrder::SpiralInOut => spiral_step(v),
    }
}

/// What one call of `next_item` does to a walk: the item it returns and the
/// state after it.
pub open spec fn next_item_spec(v: PathView) -> (PathView, Option<(int, int, bool)>) {
    if v.is_end {
        (v, None)
    } else {
        match path_step(v) {
            Some((w, true)) => (w, Some((v.x, v.y, v.is_down))),
            Some((w, false)) => (PathView { is_end: true, ..w }, Some((v.x, v.y, v.is_down))),
            None => (v, None),
        }
    }
}

/// `next_item` can be called on `v` without overflow.
pub open spec fn next_item_ok(v: PathView) -> bool {
    v.is_end || path_step(v) is Some
}

impl Path {
    /// A walk over a `width` by `height` grid that starts at cell (0, 0) and
    /// moves as `next_itr` says.
    pub fn from(width: usize, height: usize, next_itr: PathOrder) -> (r: Path)
        ensures
            r@ == (PathView {
                width: width as int,
                height: height as int,
                start_x: 0,
                start_y: 0,
                order: next_itr,
                x: 0,
                y: 0,
                is_down: true,
                is_end: false,
            }),
    {
        Path { width, height, start_x: 0, start_y: 0, next_itr }
    }

    /// The same walk started at the middle cell.
    pub fn start_middle(self) -> (r: Path)
        ensures
            r@ == (PathView {
                start_x: self@.width / 2,
                start_y: self@.height / 2,
                x: self@.width / 2,
                y: self@.height / 2,
                ..self@
            }),
    {
        let mut s = self;
        s.start_x = s.width / 2;
        s.start_y = s.height / 2;
        s
    }

    /// The same walk started at column `x`.
    pub fn set_x(self, x: usize) -> (r: Path)
        ensures
            r@ == (PathView { start_x: x as int, x: x as int, ..self@ }),
    {
        let mut s = self;
        s.start_x = x;
        s
    }

    /// The same walk started at row `y`.
    pub fn set_y(self, y: usize) -> (r: Path)
        ensures
            r@ == (PathView { start_y: y as int, y: y as int, ..self@ }),
    {
        let mut s = self;
        s.start_y = y;
        s
    }

    /// The plain grid coordinates of a cell.
    pub fn identity(l: usize, r: usize) -> (p: (usize, usize))
        ensures
            p == (l, r),
    {
        (l, r)
    }

    /// The walk at its start cell, with the bit down.
    pub fn into_itr(self) -> (r: PathItr)
        ensures
            r@ == self@,
            r@.x == r@.start_x && r@.y == r@.start_y,
            r@.is_down && !r@.is_end,
    {
        PathItr { path: self, x: self.start_x, y: self.start_y, is_down: true, is_end: false }
    }

    /// Moves one cell along the rows, reversing direction on every row;
    /// returns whether the new cell lies on the grid.
    pub fn path_x_then_y(path_itr: &mut PathItr) -> (r: bool)
        requires
            x_then_y_step(old(path_itr)@) is Some,
        ensures
            x_then_y_step(old(path_itr)@) == Some((final(path_itr)@, r)),
    {
        if path_itr.y % 2 == 0 {
            if path_itr.x + 1 >= path_itr.path.width {
                path_itr.y = path_itr.y + 1;
            } else {
                path_itr.x = path_itr.x + 1;
            }
        } else {
            if path_itr.x == 0 {
                path_itr.y = path_itr.y + 1;
            } else {
                path_itr.x = path_itr.x - 1;
            }
        }
        path_itr.y < path_itr.path.height
    }

    /// Moves one cell along the columns, reversing direction on every column;
    /// returns whether the new cell lies on the grid.
    pub fn path_y_then_x(path_itr: &mut PathItr) -> (r: bool)
        requires
            y_then_x_step(old(path_itr)@) is Some,
        ensures
            y_then_x_step(old(path_itr)@) == Some((final(path_itr)@, r)),
    {
        if path_itr.x % 2 == 0 {
            if path_itr.y + 1 >= path_itr.path.height {
                path_itr.x = path_itr.x + 1;
            } else {
                path_itr.y = path_itr.y + 1;
            }
        } else {
            if path_itr.y == 0 {
                path_itr.x = path_itr.x + 1;
            } else {
                path_itr.y = path_itr.y - 1;
            }
        }
        path_itr.x < path_itr.path.width
    }
    /// Moves one cell of a spiral around the start cell; returns whether the
    /// walk goes on. A step taken with the bit up only lowers it; a step that
    /// folds back at a narrow side of the grid lifts it.
    pub fn spiral_in_out(path_itr: &mut PathItr) -> (r: bool)
        requires
            spiral_step(old(path_itr)@) is Some,
        ensures
            spiral_step(old(path_itr)@) == Some((final(path_itr)@, r)),
    {
        if !path_itr.is_down {
            path_itr.is_down = true;
            return true;
        }
        let total = path_itr.path.start_x + path_itr.path.start_y;
        let y_intercept = path_itr.path.start_y as i64 - path_itr.path.start_x as i64;

        path_itr.is_down = true;

        if path_itr.x + path_itr.y >= total {
            if path_itr.y as i64 - path_itr.x as i64 > y_intercept {
                path_itr.x = path_itr.x + 1;
            } else {
                if path_itr.y == 0 {
                    if path_itr.path.width > path_itr.path.height {
                        path_itr.is_down = false;
                        if 2 * path_itr.path.start_x >= path_itr.x + 1 {
                            path_itr.x = 2 * path_itr.path.start_x - path_itr.x - 1;
                        } else {
                            return false;
                        }
                    } else {
                        return false;
                    }
                } else {
                    path_itr.y = path_itr.y - 1;
                }
            }
        } else {
            if (path_itr.y as i64 - path_itr.x as i64) < y_intercept {
                if path_itr.x == 0 {
                    if path_itr.path.height > path_itr.path.width {
                        path_itr.is_down = false;
                        if 2 * path_itr.path.start_y >= path_itr.y {
                            path_itr.y = 2 * path_itr.path.start_y - path_itr.y;
                        } else {
                            return false;
                        }
                    } else {
                        return false;
                    }
                } else {
                    path_itr.x = path_itr.x - 1;
                }
            } else {
                path_itr.y = path_itr.y + 1;
            }
        }

        if path_itr.x >= path_itr.path.width && path_itr.path.height > path_itr.path.width {
            path_itr.x = path_itr.path.width - 1;
            if 2 * path_itr.path.start_y < path_itr.y + 1 {
                return false;
            }
            path_itr.y = 2 * path_itr.path.start_y - path_itr.y - 1;
            path_itr.is_down = false;
        }

        if path_itr.y >= path_itr.path.height && path_itr.path.width > path_itr.path.height {
            path_itr.y = path_itr.path.height - 1;
            if 2 * path_itr.path.start_x < path_itr.x {
                return false;
            }
            path_itr.x = 2 * path_itr.path.start_x - path_itr.x;
            path_itr.is_down = false;
        }

        path_itr.x < path_itr.path.width && path_itr.y < path_itr.path.height
    }
}

impl PathItr {
    /// Whether `next_item` can be called now without overflow. For the row
    /// and column walks this is exact; for the spiral it holds when the walk
    /// has ended, the bit is up, or the grid has cells and the current and
    /// start cells lie within `spiral_limit`.
    pub fn can_step(&self) -> (r: bool)
        ensures
            r ==> next_item_ok(self@),
            self@.order != PathOrder::SpiralInOut ==> r == next_item_ok(self@),
            self@.order == PathOrder::SpiralInOut ==> r == (self@.is_end || !self@.is_down || (self@.width > 0
                && self@.height > 0 && self@.x <= spiral_limit() && self@.y <= spiral_limit() && self@.start_x
                <= spiral_limit() && self@.start_y <= spiral_limit())),
    {
        if self.is_end {
            return true;
        }
        let (x, y) = (self.x, self.y);
        match self.path.next_itr {
            PathOrder::XThenY => {
                if y % 2 == 0 {
                    x < usize::MAX && (x + 1 < self.path.width || y < usize::MAX)
                } else {
                    x != 0 || y < usize::MAX
                }
            },
            PathOrder::YThenX => {
                if x % 2 == 0 {
                    y < usize::MAX && (y + 1 < self.path.height || x < usize::MAX)
                } else {
                    y != 0 || x < usize::MAX
                }
            },
            PathOrder::SpiralInOut => {
                let lim: usize = usize::MAX / 4;
                proof {
                    assert(usize::MAX == 0xffff_ffff || usize::MAX == 0xffff_ffff_ffff_ffff);
                    assert(lim == spiral_limit());
                }
                !self.is_down || (self.path.width > 0 && self.path.height > 0 && x <= lim && y <= lim
                    && self.path.start_x <= lim && self.path.start_y <= lim)
            },
        }
    }

    /// The walk's current cell and whether the bit is down there, after which
    /// the walk moves one step; `None` once the walk has ended. The walk ends
    /// after the item whose step leaves the grid.
    pub fn next_item(&mut self) -> (r: Option<(usize, usize, bool)>)
        requires
            next_item_ok(old(self)@),
        ensures
            next_item_spec(old(self)@).0 == final(self)@,
            next_item_spec(old(self)@).1 == match r {
                Some((x, y, d)) => Some((x as int, y as int, d)),
                None => None::<(int, int, bool)>,
            },
    {
        if self.is_end {
            return None;
        }
        let pos = (self.x, self.y, self.is_down);
        let goes_on = match self.path.next_itr {
            PathOrder::XThenY => Path::path_x_then_y(self),
            PathOrder::YThenX => Path::path_y_then_x(self),
            PathOrder::SpiralInOut => Path::spiral_in_out(self),
        };
        if !goes_on {
            self.is_end = true;
        }
        Some(pos)
    }
}

/// Cell number `k` of the row-by-row walk over rows of `w` cells: row `k / w`,
/// crossed left to right on even rows and right to left on odd ones.
pub open spec fn x_then_y_cell(w: int, k: int) -> (int, int) {
    let y = k / w;
    let x = if y % 2 == 0 {
        k % w
    } else {
        w - 1 - k % w
    };
    (x, y)
}

/// The number of cell (`x`, `y`) in the row-by-row walk over rows of `w` cells.
pub open spec fn x_then_y_number(w: int, x: int, y: int) -> int {
    y * w + if y % 2 == 0 {
        x
    } else {
        w - 1 - x
    }
}

/// Cell number `k` of the column-by-column walk over columns of `h` cells.
pub open spec fn y_then_x_cell(h: int, k: int) -> (int, int) {
    let (y, x) = x_then_y_cell(h, k);
    (x, y)
}

/// The state after `n` calls of `next_item` from `v`.
pub open spec fn walk_after(v: PathView, n: nat) -> PathView
    decreases n,
{
    if n == 0 {
        v
    } else {
        next_item_spec(walk_after(v, (n - 1) as nat)).0
    }
}

/// The item that call number `n` (from 0) of `next_item` from `v` returns.
pub open spec fn walk_item(v: PathView, n: nat) -> Option<(int, int, bool)> {
    next_item_spec(walk_after(v, n)).1
}

/// A walk that has not moved yet from cell (0, 0) of a grid that `usize`
/// indices can address.
pub open spec fn fresh_at_origin(v: PathView, order: PathOrder) -> bool {
    &&& v.order == order
    &&& v.x == 0 && v.y == 0
    &&& v.is_down && !v.is_end
    &&& 0 < v.width <= usize::MAX
    &&& 0 < v.height <= usize::MAX
}

proof fn lemma_div_mod_parts(k: int, w: int, q: int, r: int)
    requires
        w > 0,
        0 <= r < w,
        k == q * w + r,
    ensures
        k / w == q,
        k % w == r,
{
    lemma_fundamental_div_mod_converse(k, w, q, r);
}

/// The row-by-row numbering is a one-to-one map between `0..w*h` and the
/// cells of the `w` by `h` grid.
pub proof fn lemma_x_then_y_numbering(w: int, h: int)
    requires
        w > 0,
        h > 0,
    ensures
        forall|k: int|
            0 <= k < w * h ==> {
                let (x, y) = #[trigger] x_then_y_cell(w, k);
                &&& 0 <= x < w && 0 <= y < h
                &&& x_then_y_number(w, x, y) == k
            },
        forall|x: int, y: int|
            0 <= x < w && 0 <= y < h ==> {
                let k = #[trigger] x_then_y_number(w, x, y);
                &&& 0 <= k < w * h
                &&& x_then_y_cell(w, k) == (x, y)
            },
{
    assert forall|k: int| 0 <= k < w * h implies {
        let (x, y) = #[trigger] x_then_y_cell(w, k);
        &&& 0 <= x < w && 0 <= y < h
        &&& x_then_y_number(w, x, y) == k
    } by {
        lemma_fundamental_div_mod(k, w);
        lemma_mod_bound(k, w);
        let q = k / w;
        let r = k % w;
        assert(k == q * w + r) by (nonlinear_arith)
            requires
                k == w * q + r,
        ;
        assert(0 <= q < h) by (nonlinear_arith)
            requires
                k == q * w + r,
                0 <= r < w,
                0 <= k < w * h,
        ;
    }
    assert forall|x: int, y: int| 0 <= x < w && 0 <= y < h implies {
        let k = #[trigger] x_then_y_number(w, x, y);
        &&& 0 <= k < w * h
        &&& x_then_y_cell(w, k) == (x, y)
    } by {
        let r = if y % 2 == 0 {
            x
        } else {
            w - 1 - x
        };
        let k = y * w + r;
        assert(0 <= k < w * h) by (nonlinear_arith)
            requires
                0 <= y < h,
                0 <= r < w,
                k == y * w + r,
        ;
        lemma_div_mod_parts(k, w, y, r);
    }
}

/// From cell number `k` of the row-by-row walk, a step reaches cell number
/// `k + 1`, a neighbour of cell `k`, and reports that it is on the grid
/// exactly when `k + 1 < w * h`.
pub proof fn lemma_x_then_y_step(v: PathView, k: int)
    requires
        0 < v.width <= usize::MAX,
        0 < v.height <= usize::MAX,
        0 <= k < v.width * v.height,
        (v.x, v.y) == x_then_y_cell(v.width, k),
    ensures
        x_then_y_step(v) == Some(
            (
                moved(v, x_then_y_cell(v.width, k + 1).0, x_then_y_cell(v.width, k + 1).1, v.is_down),
                k + 1 < v.width * v.height,
            ),
        ),
        ({
            let (x1, y1) = x_then_y_cell(v.width, k + 1);
            (if x1 >= v.x { x1 - v.x } else { v.x - x1 }) + (if y1 >= v.y { y1 - v.y } else { v.y - y1 }) == 1
        }),
{
    let w = v.width;
    let h = v.height;
    lemma_x_then_y_numbering(w, h);
    let _ = x_then_y_cell(w, k);
    lemma_fundamental_div_mod(k, w);
    lemma_mod_bound(k, w);
    let q = k / w;
    let r = k % w;
    assert(k == q * w + r) by (nonlinear_arith)
        requires
            k == w * q + r,
    ;
    if r + 1 < w {
        lemma_div_mod_parts(k + 1, w, q, r + 1);
        assert(q < h) by (nonlinear_arith)
            requires
                k == q * w + r,
                0 <= r,
                k < w * h,
                w > 0,
        ;
        assert((q + 1) * w <= w * h && (q + 1) * w == q * w + w) by (nonlinear_arith)
            requires
                q + 1 <= h,
                w > 0,
        ;
    } else {
        assert(k + 1 == (q + 1) * w + 0) by (nonlinear_arith)
            requires
                k == q * w + r,
                r == w - 1,
        ;
        lemma_div_mod_parts(k + 1, w, q + 1, 0);
        assert((k + 1 < w * h) == (q + 1 < h)) by (nonlinear_arith)
            requires
                k + 1 == (q + 1) * w,
                w > 0,
        ;
    }
    assert(v.y < h);
}

/// The column-by-column step is the row-by-row step with the axes exchanged.
pub proof fn lemma_y_then_x_step(v: PathView, k: int)
    requires
        0 < v.width <= usize::MAX,
        0 < v.height <= usize::MAX,
        0 <= k < v.width * v.height,
        (v.x, v.y) == y_then_x_cell(v.height, k),
    ensures
        y_then_x_step(v) == Some(
            (
                moved(v, y_then_x_cell(v.height, k + 1).0, y_then_x_cell(v.height, k + 1).1, v.is_down),
                k + 1 < v.width * v.height,
            ),
        ),
        ({
            let (x1, y1) = y_then_x_cell(v.height, k + 1);
            (if x1 >= v.x { x1 - v.x } else { v.x - x1 }) + (if y1 >= v.y { y1 - v.y } else { v.y - y1 }) == 1
        }),
{
    let t = transposed(v);
    assert(v.width * v.height == v.height * v.width) by (nonlinear_arith);
    lemma_x_then_y_step(t, k);
    let (x1, y1) = y_then_x_cell(v.height, k + 1);
    assert(transposed(moved(t, y1, x1, t.is_down)) == moved(v, x1, y1, v.is_down));
}

/// The row-by-row walk from cell (0, 0) returns the cells of the grid in
/// row-by-row order, each once and each with the bit down, each a neighbour of
/// the one before it; then it ends.
pub proof fn lemma_x_then_y_walk(v: PathView, n: nat)
    requires
        fresh_at_origin(v, PathOrder::XThenY),
        n <= v.width * v.height,
    ensures
        n < v.width * v.height ==> walk_after(v, n) == moved(
            v,
            x_then_y_cell(v.width, n as int).0,
            x_then_y_cell(v.width, n as int).1,
            true,
        ),
        n < v.width * v.height ==> walk_item(v, n) == Some(
            (x_then_y_cell(v.width, n as int).0, x_then_y_cell(v.width, n as int).1, true),
        ),
        n < v.width * v.height ==> next_item_ok(walk_after(v, n)),
        n == v.width * v.height ==> walk_after(v, n).is_end,
        n == v.width * v.height ==> walk_item(v, n) is None,
    decreases n,
{
    let w = v.width;
    let h = v.height;
    assert(w * h >= 1) by (nonlinear_arith)
        requires
            w > 0,
            h > 0,
    ;
    if n == 0 {
        lemma_div_mod_parts(0, w, 0, 0);
        assert(moved(v, 0, 0, true) == v);
        lemma_x_then_y_step(v, 0);
    } else {
        let m = (n - 1) as nat;
        lemma_x_then_y_walk(v, m);
        let prev = walk_after(v, m);
        lemma_x_then_y_step(prev, m as int);
        let (x1, y1) = x_then_y_cell(w, n as int);
        assert(moved(prev, x1, y1, true) == moved(v, x1, y1, true));
        if n < w * h {
            lemma_x_then_y_step(moved(v, x1, y1, true), n as int);
        }
    }
}

/// The column-by-column walk from cell (0, 0) returns the cells of the grid in
/// column-by-column order, each once and each with the bit down, each a
/// neighbour of the one before it; then it ends.
pub proof fn lemma_y_then_x_walk(v: PathView, n: nat)
    requires
        fresh_at_origin(v, PathOrder::YThenX),
        n <= v.width * v.height,
    ensures
        n < v.width * v.height ==> walk_after(v, n) == moved(
            v,
            y_then_x_cell(v.height, n as int).0,
            y_then_x_cell(v.height, n as int).1,
            true,
        ),
        n < v.width * v.height ==> walk_item(v, n) == Some(
            (y_then_x_cell(v.height, n as int).0, y_then_x_cell(v.height, n as int).1, true),
        ),
        n < v.width * v.height ==> next_item_ok(walk_after(v, n)),
        n == v.width * v.height ==> walk_after(v, n).is_end,
        n == v.width * v.height ==> walk_item(v, n) is None,
    decreases n,
{
    let w = v.width;
    let h = v.height;
    assert(w * h >= 1) by (nonlinear_arith)
        requires
            w > 0,
            h > 0,
    ;
    if n == 0 {
        lemma_div_mod_parts(0, h, 0, 0);
        assert(moved(v, 0, 0, true) == v);
        lemma_y_then_x_step(v, 0);
    } else {
        let m = (n - 1) as nat;
        lemma_y_then_x_walk(v, m);
        let prev = walk_after(v, m);
        lemma_y_then_x_step(prev, m as int);
        let (x1, y1) = y_then_x_cell(h, n as int);
        assert(moved(prev, x1, y1, true) == moved(v, x1, y1, true));
        if n < w * h {
            lemma_y_then_x_step(moved(v, x1, y1, true), n as int);
        }
    }
}

/// A spiral step with the bit up lowers it in place; a step with the bit down
/// that keeps it down moves to a neighbouring cell; a step that reports the
/// walk goes on leaves it on the grid.
pub proof fn lemma_spiral_step_moves(v: PathView)
    requires
        spiral_step(v) is Some,
        v.x >= 0 && v.y >= 0 && v.start_x >= 0 && v.start_y >= 0 && v.width >= 0 && v.height >= 0,
    ensures
        !v.is_down ==> spiral_step(v) == Some((moved(v, v.x, v.y, true), true)),
        v.is_down && spiral_step(v).unwrap().1 && spiral_step(v).unwrap().0.is_down ==> {
            let w = spiral_step(v).unwrap().0;
            (if w.x >= v.x { w.x - v.x } else { v.x - w.x }) + (if w.y >= v.y { w.y - v.y } else { v.y - w.y }) == 1
        },
        v.is_down && spiral_step(v).unwrap().1 ==> 0 <= spiral_step(v).unwrap().0.x < v.width && 0 <= spiral_step(v).unwrap().0.y < v.height,
        ({
            let w = spiral_step(v).unwrap().0;
            w.width == v.width && w.height == v.height && w.start_x == v.start_x && w.start_y == v.start_y && w.order == v.order && w.is_end == v.is_end
        }),
{
}

/// Where the spiral goes from the cell at (`u`, `v`) relative to its start,
/// with the bit down and no edge in the way.
pub open spec fn spiral_next(u: int, v: int) -> (int, int) {
    if u + v >= 0 {
        if v > u {
            (u + 1, v)
        } else {
            (u, v - 1)
        }
    } else {
        if v < u {
            (u - 1, v)
        } else {
            (u, v + 1)
        }
    }
}

/// The number of cells that the spiral passes before ring `m`: the square of
/// side `2m - 1` around the start.
pub open spec fn ring_start(m: int) -> int {
    (2 * m - 1) * (2 * m - 1)
}

/// Cell `j` (below `8m`) of ring `m` (from 1) of the spiral, relative to its
/// start: leftwards along the bottom, up the left side, rightwards along the
/// top, then down the right side.
pub open spec fn ring_cell(m: int, j: int) -> (int, int) {
    if j < 2 * m - 1 {
        (m - 1 - j, -m)
    } else if j < 4 * m - 1 {
        (-m, j - 3 * m + 1)
    } else if j < 6 * m - 1 {
        (j - 5 * m + 1, m)
    } else {
        (m, 7 * m - 1 - j)
    }
}

/// The ring of the spiral's cell number `k`.
pub open spec fn spiral_ring(k: nat) -> nat
    decreases k,
{
    if k == 0 {
        0
    } else {
        let m = spiral_ring((k - 1) as nat);
        if k == ring_start(m + 1 as int) {
            m + 1
        } else {
            m
        }
    }
}

/// Cell number `k` of the spiral, relative to its start.
pub open spec fn spiral_offset(k: nat) -> (int, int) {
    if k == 0 {
        (0, 0)
    } else {
        let m = spiral_ring(k) as int;
        ring_cell(m, k - ring_start(m))
    }
}

/// The larger of the distances of (`u`, `v`) from the start along each axis.
pub open spec fn ring_of(u: int, v: int) -> int {
    let au = if u >= 0 { u } else { -u };
    let av = if v >= 0 { v } else { -v };
    if au >= av {
        au
    } else {
        av
    }
}

/// The number of the spiral's cell at (`u`, `v`) relative to its start.
pub open spec fn spiral_index(u: int, v: int) -> int {
    let m = ring_of(u, v);
    if m == 0 {
        0
    } else if u == m {
        ring_start(m) + 7 * m - 1 - v
    } else if v == m {
        ring_start(m) + 5 * m - 1 + u
    } else if u == -m {
        ring_start(m) + 3 * m - 1 + v
    } else {
        ring_start(m) + m - 1 - u
    }
}

proof fn lemma_ring_start_step(m: int)
    ensures
        ring_start(m + 1) == ring_start(m) + 8 * m,
{
    assert((2 * m + 1) * (2 * m + 1) == (2 * m - 1) * (2 * m - 1) + 8 * m) by (nonlinear_arith);
}

proof fn lemma_first_rings()
    ensures
        ring_start(1) == 1,
        ring_start(2) == 9,
{
    assert(ring_start(1) == 1) by (nonlinear_arith);
    assert(ring_start(2) == 9) by (nonlinear_arith);
}

proof fn lemma_ring_start_positive(m: int)
    requires
        m >= 1,
    ensures
        ring_start(m) >= 1,
{
    assert((2 * m - 1) * (2 * m - 1) >= 1) by (nonlinear_arith)
        requires
            m >= 1,
    ;
}

proof fn lemma_ring_start_monotonic(a: int, b: int)
    requires
        1 <= a <= b,
    ensures
        ring_start(a) <= ring_start(b),
{
    assert((2 * a - 1) * (2 * a - 1) <= (2 * b - 1) * (2 * b - 1)) by (nonlinear_arith)
        requires
            1 <= a <= b,
    ;
}

/// Cell number `k` (from 1) lies in ring `spiral_ring(k)`, which starts at or
/// before it and ends after it.
proof fn lemma_ring_bounds(k: nat)
    requires
        k >= 1,
    ensures
        spiral_ring(k) >= 1,
        ring_start(spiral_ring(k) as int) <= k < ring_start(spiral_ring(k) + 1int),
    decreases k,
{
    let m = spiral_ring((k - 1) as nat) as int;
    if k == 1 {
        assert(spiral_ring(0) == 0);
        lemma_first_rings();
    } else {
        lemma_ring_bounds((k - 1) as nat);
        lemma_ring_start_step(m);
        lemma_ring_start_step(m + 1);
    }
}

/// A number between the start of ring `m` and the start of the next lies in
/// ring `m`.
proof fn lemma_ring_unique(k: nat, m: int)
    requires
        m >= 1,
        ring_start(m) <= k < ring_start(m + 1),
    ensures
        spiral_ring(k) == m,
{
    lemma_ring_start_positive(m);
    lemma_ring_bounds(k);
    let r = spiral_ring(k) as int;
    if r < m {
        lemma_ring_start_monotonic(r + 1, m);
    } else if r > m {
        lemma_ring_start_monotonic(m + 1, r);
    }
}

/// The spiral's cells in order, one step apart.
proof fn lemma_ring_next(m: int, j: int)
    requires
        m >= 1,
        0 <= j < 8 * m,
    ensures
        spiral_next(ring_cell(m, j).0, ring_cell(m, j).1) == if j + 1 < 8 * m {
            ring_cell(m, j + 1)
        } else {
            ring_cell(m + 1, 0)
        },
{
}

/// From cell number `k` the spiral steps to cell number `k + 1`.
proof fn lemma_offset_next(k: nat)
    ensures
        spiral_next(spiral_offset(k).0, spiral_offset(k).1) == spiral_offset(k + 1),
{
    if k == 0 {
        lemma_first_rings();
        lemma_ring_unique(1, 1);
    } else {
        lemma_ring_bounds(k);
        let m = spiral_ring(k) as int;
        let j = k - ring_start(m);
        lemma_ring_start_step(m);
        lemma_ring_start_step(m + 1);
        lemma_ring_next(m, j);
        if j + 1 < 8 * m {
            lemma_ring_unique(k + 1, m);
        } else {
            lemma_ring_unique(k + 1, m + 1);
        }
    }
}

/// Numbering a cell of the spiral undoes finding it, both ways.
proof fn lemma_spiral_numbering(k: nat, u: int, v: int)
    ensures
        spiral_index(spiral_offset(k).0, spiral_offset(k).1) == k,
        spiral_index(u, v) >= 0,
        spiral_offset(spiral_index(u, v) as nat) == (u, v),
        ring_of(u, v) >= 1 ==> ring_start(ring_of(u, v)) <= spiral_index(u, v) < ring_start(ring_of(u, v) + 1),
{
    if k >= 1 {
        lemma_ring_bounds(k);
        let m = spiral_ring(k) as int;
        lemma_ring_start_step(m);
    }
    let m = ring_of(u, v);
    if m >= 1 {
        lemma_ring_start_step(m);
        lemma_ring_start_positive(m);
        let i = spiral_index(u, v);
        assert(ring_start(m) <= i < ring_start(m + 1));
        lemma_ring_unique(i as nat, m);
    }
}

/// A spiral walk that has not moved yet from the middle cell of a square
/// grid small enough for its arithmetic.
pub open spec fn fresh_centered_square(v: PathView) -> bool {
    &&& v.order == PathOrder::SpiralInOut
    &&& v.width == v.height
    &&& 0 < v.width <= spiral_limit()
    &&& v.start_x == v.width / 2 && v.start_y == v.height / 2
    &&& v.x == v.start_x && v.y == v.start_y
    &&& v.is_down && !v.is_end
}

/// One of the first `count` calls of `next_item` from `p` returns cell
/// (`x`, `y`) with the bit down.
pub open spec fn walk_returns(p: PathView, x: int, y: int, count: nat) -> bool {
    exists|n: nat| n < count && #[trigger] walk_item(p, n) == Some((x, y, true))
}

/// The cell at (`u`, `v`) from the start of `p` lies on its grid.
pub open spec fn on_grid_from(p: PathView, u: int, v: int) -> bool {
    &&& 0 <= p.start_x + u < p.width
    &&& 0 <= p.start_y + v < p.height
}

/// On a square grid of side `w` walked from its middle cell, the cells on the
/// grid are exactly the first `w * w` cells of the spiral.
proof fn lemma_square_grid_is_prefix(w: int, u: int, v: int)
    requires
        w >= 1,
    ensures
        (0 <= w / 2 + u < w && 0 <= w / 2 + v < w) <==> spiral_index(u, v) < w * w,
{
    let s = w / 2;
    let m = ring_of(u, v);
    let i = spiral_index(u, v);
    let in_grid = 0 <= s + u < w && 0 <= s + v < w;
    lemma_spiral_numbering(0, u, v);
    if w % 2 == 1 {
        assert(w == 2 * s + 1);
        assert(w * w == ring_start(s + 1)) by (nonlinear_arith)
            requires
                w == 2 * s + 1,
        ;
        lemma_ring_start_positive(s + 1);
        assert(in_grid == (m <= s));
        if m == 0 {
            assert(i == 0);
        } else if m <= s {
            lemma_ring_start_monotonic(m + 1, s + 1);
        } else {
            lemma_ring_start_monotonic(s + 1, m);
        }
    } else {
        assert(w == 2 * s);
        assert(s >= 1);
        assert(w * w == ring_start(s) + 4 * s - 1) by (nonlinear_arith)
            requires
                w == 2 * s,
        ;
        lemma_ring_start_step(s);
        lemma_ring_start_positive(s);
        if m == 0 {
            assert(i == 0);
            assert(in_grid);
        } else if m < s {
            lemma_ring_start_monotonic(m + 1, s);
            assert(in_grid);
        } else if m == s {
            assert(i == ring_start(s) + (i - ring_start(s)));
            if u == s {
                assert(!in_grid);
            } else if v == s {
                assert(!in_grid);
            } else if u == -s {
                assert(in_grid);
            } else {
                assert(v == -s);
                assert(in_grid);
            }
        } else {
            lemma_ring_start_monotonic(s + 1, m);
            assert(!in_grid);
        }
    }
}

/// A spiral step with the bit down from a cell of a square grid walked from
/// its middle: it goes on exactly when the next cell of the spiral is on the
/// grid, and then moves there with the bit down.
proof fn lemma_square_spiral_step(p: PathView, u: int, v: int)
    requires
        p.order == PathOrder::SpiralInOut,
        p.width == p.height,
        0 < p.width <= spiral_limit(),
        p.start_x == p.width / 2,
        p.start_y == p.height / 2,
        p.x == p.start_x + u,
        p.y == p.start_y + v,
        on_grid_from(p, u, v),
        p.is_down,
    ensures
        spiral_step(p) is Some,
        spiral_step(p).unwrap().1 == on_grid_from(p, spiral_next(u, v).0, spiral_next(u, v).1),
        on_grid_from(p, spiral_next(u, v).0, spiral_next(u, v).1) ==> spiral_step(p).unwrap().0 == moved(
            p,
            p.start_x + spiral_next(u, v).0,
            p.start_y + spiral_next(u, v).1,
            true,
        ),
{
}

/// The spiral walk over a square grid from its middle cell: call `n` returns
/// cell number `n` of the spiral with the bit down, until `w * w` cells are
/// returned; then the walk ends.
proof fn lemma_square_spiral_walk(p: PathView, n: nat)
    requires
        fresh_centered_square(p),
        n <= p.width * p.width,
    ensures
        n < p.width * p.width ==> walk_after(p, n) == moved(
            p,
            p.start_x + spiral_offset(n).0,
            p.start_y + spiral_offset(n).1,
            true,
        ),
        n < p.width * p.width ==> on_grid_from(p, spiral_offset(n).0, spiral_offset(n).1),
        n < p.width * p.width ==> walk_item(p, n) == Some(
            (p.start_x + spiral_offset(n).0, p.start_y + spiral_offset(n).1, true),
        ),
        n < p.width * p.width ==> next_item_ok(walk_after(p, n)),
        n == p.width * p.width ==> walk_after(p, n).is_end,
        n == p.width * p.width ==> walk_item(p, n) is None,
    decreases n,
{
    let w = p.width;
    let (u, v) = spiral_offset(n);
    lemma_spiral_numbering(n, 0, 0);
    lemma_square_grid_is_prefix(w, u, v);
    if n == 0 {
        assert(moved(p, p.start_x, p.start_y, true) == p);
        lemma_square_spiral_step(p, 0, 0);
    } else {
        let k = (n - 1) as nat;
        lemma_square_spiral_walk(p, k);
        let (a, b) = spiral_offset(k);
        lemma_spiral_numbering(k, 0, 0);
        lemma_square_grid_is_prefix(w, a, b);
        let q = walk_after(p, k);
        lemma_square_spiral_step(q, a, b);
        lemma_offset_next(k);
        if n < w * w {
            assert(moved(q, p.start_x + u, p.start_y + v, true) == moved(p, p.start_x + u, p.start_y + v, true));
            lemma_square_spiral_step(walk_after(p, n), u, v);
        }
    }
}

/// On a square grid walked in a spiral from its middle cell, the walk returns
/// every cell of the grid exactly once, each with the bit down and each a
/// neighbour of the one before it, and then ends.
pub proof fn lemma_spiral_square_covers(p: PathView)
    requires
        fresh_centered_square(p),
    ensures
        forall|n: nat|
            n < p.width * p.width ==> #[trigger] walk_item(p, n) == Some(
                (p.start_x + spiral_offset(n).0, p.start_y + spiral_offset(n).1, true),
            ) && on_grid_from(p, spiral_offset(n).0, spiral_offset(n).1),
        forall|n1: nat, n2: nat|
            n1 < p.width * p.width && n2 < p.width * p.width && n1 != n2 ==> #[trigger] walk_item(p, n1)
                != #[trigger] walk_item(p, n2),
        forall|x: int, y: int|
            0 <= x < p.width && 0 <= y < p.height ==> #[trigger] walk_returns(p, x, y, (p.width * p.width) as nat),
        forall|n: nat|
            n + 1 < p.width * p.width ==> {
                let (u0, v0) = #[trigger] spiral_offset(n);
                let (u1, v1) = spiral_offset(n + 1);
                (if u1 >= u0 { u1 - u0 } else { u0 - u1 }) + (if v1 >= v0 { v1 - v0 } else { v0 - v1 }) == 1
            },
        walk_after(p, (p.width * p.width) as nat).is_end,
        walk_item(p, (p.width * p.width) as nat) is None,
{
    let w = p.width;
    assert(w * w >= 1) by (nonlinear_arith)
        requires
            w >= 1,
    ;
    let big = (w * w) as nat;
    lemma_square_spiral_walk(p, big);
    assert forall|n: nat| n < p.width * p.width implies #[trigger] walk_item(p, n) == Some(
        (p.start_x + spiral_offset(n).0, p.start_y + spiral_offset(n).1, true),
    ) && on_grid_from(p, spiral_offset(n).0, spiral_offset(n).1) by {
        lemma_square_spiral_walk(p, n);
    }
    assert forall|n1: nat, n2: nat|
        n1 < p.width * p.width && n2 < p.width * p.width && n1 != n2 implies #[trigger] walk_item(p, n1)
            != #[trigger] walk_item(p, n2) by {
        lemma_square_spiral_walk(p, n1);
        lemma_square_spiral_walk(p, n2);
        lemma_spiral_numbering(n1, 0, 0);
        lemma_spiral_numbering(n2, 0, 0);
    }
    assert forall|x: int, y: int| 0 <= x < p.width && 0 <= y < p.height implies #[trigger] walk_returns(
        p,
        x,
        y,
        big,
    ) by {
        let u = x - p.start_x;
        let v = y - p.start_y;
        lemma_spiral_numbering(0, u, v);
        lemma_square_grid_is_prefix(w, u, v);
        let n = spiral_index(u, v) as nat;
        lemma_square_spiral_walk(p, n);
    }
    assert forall|n: nat| n + 1 < p.width * p.width implies {
        let (u0, v0) = #[trigger] spiral_offset(n);
        let (u1, v1) = spiral_offset(n + 1);
        (if u1 >= u0 { u1 - u0 } else { u0 - u1 }) + (if v1 >= v0 { v1 - v0 } else { v0 - v1 }) == 1
    } by {
        lemma_offset_next(n);
    }
}

/// A spiral step with the bit down to a next cell that lies on the grid moves
/// there and keeps the bit down, whatever the grid's shape.
proof fn lemma_spiral_step_inside(p: PathView, u: int, v: int)
    requires
        p.order == PathOrder::SpiralInOut,
        0 <= p.start_x <= spiral_limit(),
        0 <= p.start_y <= spiral_limit(),
        p.width <= spiral_limit(),
        p.height <= spiral_limit(),
        p.x == p.start_x + u,
        p.y == p.start_y + v,
        on_grid_from(p, u, v),
        on_grid_from(p, spiral_next(u, v).0, spiral_next(u, v).1),
        p.is_down,
    ensures
        spiral_step(p) == Some(
            (moved(p, p.start_x + spiral_next(u, v).0, p.start_y + spiral_next(u, v).1, true), true),
        ),
{
}

/// A spiral walk that has not moved yet from the middle cell of a grid small
/// enough for its arithmetic.
pub open spec fn fresh_centered(v: PathView) -> bool {
    &&& v.order == PathOrder::SpiralInOut
    &&& 0 < v.width <= spiral_limit()
    &&& 0 < v.height <= spiral_limit()
    &&& v.start_x == v.width / 2 && v.start_y == v.height / 2
    &&& v.x == v.start_x && v.y == v.start_y
    &&& v.is_down && !v.is_end
}

/// Column number `c` that the spiral walks over a grid `h` rows high once it
/// has used up the rows, relative to its start: alternately on the left and
/// on the right, moving outwards.
pub open spec fn wide_column(h: int, c: int) -> int {
    let t = h / 2;
    if h % 2 == 1 {
        if c % 2 == 0 {
            -t - 1 - c / 2
        } else {
            t + (c + 1) / 2
        }
    } else {
        if c % 2 == 0 {
            t + c / 2
        } else {
            -t - (c + 1) / 2
        }
    }
}

/// Cell `k` of column number `c`: columns on the right are walked down from
/// the top row, those on the left up from the bottom row.
pub open spec fn wide_column_cell(h: int, c: int, k: int) -> (int, int) {
    let t = h / 2;
    let u = wide_column(h, c);
    if u > 0 {
        (u, h - 1 - t - k)
    } else {
        (u, k - t)
    }
}

/// Item number `n` of the spiral walk over a grid wider than its `h` rows
/// from its middle cell, relative to the start, with whether the bit is down:
/// first the spiral's `h * h` cells around the start, then the columns, each
/// entered with the bit up at its first cell.
pub open spec fn wide_item(h: int, n: int) -> (int, int, bool) {
    if n < h * h {
        (spiral_offset(n as nat).0, spiral_offset(n as nat).1, true)
    } else {
        let m = n - h * h;
        let c = m / (h + 1);
        let r = m % (h + 1);
        if r == 0 {
            (wide_column_cell(h, c, 0).0, wide_column_cell(h, c, 0).1, false)
        } else {
            (wide_column_cell(h, c, r - 1).0, wide_column_cell(h, c, r - 1).1, true)
        }
    }
}

/// The number of items of the spiral walk over a `w` by `h` grid that is wider
/// than high.
pub open spec fn wide_count(w: int, h: int) -> int {
    h * h + (w - h) * (h + 1)
}

/// The cells around the start of a wide grid's spiral with numbers below
/// `h * h` lie on the grid, in its rows and in the columns next to the start.
proof fn lemma_wide_prefix_on_grid(w: int, h: int, u: int, v: int)
    requires
        w > h >= 1,
        spiral_index(u, v) < h * h,
    ensures
        0 <= h / 2 + u < h,
        0 <= h / 2 + v < h,
        0 <= w / 2 + u < w,
{
    lemma_square_grid_is_prefix(h, u, v);
}

/// The walk of `p` standing at its item number `n`, for a grid wider than
/// high.
pub open spec fn wide_state(p: PathView, n: int) -> PathView {
    let it = wide_item(p.height, n);
    moved(p, p.start_x + it.0, p.start_y + it.1, it.2)
}

/// How the columns follow one another, where they lie, and which of them fit
/// on a `w` by `h` grid.
proof fn lemma_wide_columns(w: int, h: int, c: int)
    requires
        w > h >= 1,
        c >= 0,
    ensures
        wide_column(h, c) != 0,
        wide_column(h, c) > 0 ==> wide_column(h, c) >= h - h / 2 && wide_column(h, c + 1) == -wide_column(h, c) - 1,
        wide_column(h, c) < 0 ==> wide_column(h, c) <= -(h / 2) - 1 && wide_column(h, c + 1) == -wide_column(h, c),
        (-(w / 2) <= wide_column(h, c) <= w - 1 - w / 2) <==> c < w - h,
{
    let t = h / 2;
    let s = w / 2;
    assert(w == 2 * s + w % 2);
    assert(h == 2 * t + h % 2);
}

/// Different columns lie apart.
proof fn lemma_wide_columns_differ(h: int, c1: int, c2: int)
    requires
        h >= 1,
        c1 >= 0,
        c2 >= 0,
        c1 != c2,
    ensures
        wide_column(h, c1) != wide_column(h, c2),
{
}

/// Every column of the grid outside the rows next to the start is walked.
proof fn lemma_wide_column_of(h: int, u: int) -> (c: int)
    requires
        h >= 1,
        u < -(h / 2) || u > h - 1 - h / 2,
    ensures
        c >= 0,
        wide_column(h, c) == u,
{
    let t = h / 2;
    if h % 2 == 1 {
        if u > 0 {
            2 * (u - t) - 1
        } else {
            2 * (-t - 1 - u)
        }
    } else {
        if u > 0 {
            2 * (u - t)
        } else {
            2 * (-t - u) - 1
        }
    }
}

/// Where the spiral over a square of side `h` around its start ends: the
/// bottom right corner for odd `h`, the top of the left side for even `h`.
proof fn lemma_prefix_last(h: int)
    requires
        h >= 1,
    ensures
        h % 2 == 1 ==> spiral_offset((h * h - 1) as nat) == (h / 2, -(h / 2)),
        h % 2 == 0 ==> spiral_offset((h * h - 1) as nat) == (-(h / 2), h / 2 - 1),
{
    let t = h / 2;
    if h % 2 == 1 {
        assert(h * h - 1 == ring_start(t) + 8 * t - 1) by (nonlinear_arith)
            requires
                h == 2 * t + 1,
        ;
        if t >= 1 {
            assert(spiral_index(t, -t) == h * h - 1);
        } else {
            assert(h * h - 1 == 0) by (nonlinear_arith)
                requires
                    h == 1,
            ;
        }
        lemma_spiral_numbering(0, t, -t);
    } else {
        assert(h * h - 1 == ring_start(t) + 4 * t - 2) by (nonlinear_arith)
            requires
                h == 2 * t,
        ;
        assert(spiral_index(-t, t - 1) == h * h - 1);
        lemma_spiral_numbering(0, -t, t - 1);
    }
}

/// Item number `h * h + c * (h + 1) + r` lies in column `c`: its first cell
/// with the bit up for `r == 0`, else cell `r - 1` with the bit down.
proof fn lemma_wide_item_in_column(h: int, c: int, r: int)
    requires
        h >= 1,
        c >= 0,
        0 <= r <= h,
    ensures
        wide_item(h, h * h + c * (h + 1) + r) == if r == 0 {
            (wide_column_cell(h, c, 0).0, wide_column_cell(h, c, 0).1, false)
        } else {
            (wide_column_cell(h, c, r - 1).0, wide_column_cell(h, c, r - 1).1, true)
        },
{
    lemma_div_mod_parts(c * (h + 1) + r, h + 1, c, r);
}

/// Column steps of the spiral walk over a grid wider than high: from cell
/// `r - 1` of column `c` (or its first cell with the bit up, for `r == 0`).
proof fn lemma_wide_step_column(p: PathView, c: int, r: int)
    requires
        fresh_centered(p),
        p.width > p.height,
        0 <= c < p.width - p.height,
        0 <= r <= p.height,
    ensures
        ({
            let h = p.height;
            let n = h * h + c * (h + 1) + r;
            &&& on_grid_from(p, wide_item(h, n).0, wide_item(h, n).1)
            &&& spiral_step(wide_state(p, n)) is Some
            &&& spiral_step(wide_state(p, n)).unwrap().1 == (r < h || c + 1 < p.width - p.height)
            &&& (r < h || c + 1 < p.width - p.height) ==> spiral_step(wide_state(p, n)).unwrap().0 == wide_state(p, n + 1)
        }),
{
    let w = p.width;
    let h = p.height;
    let t = h / 2;
    let ss = w / 2;
    let n = h * h + c * (h + 1) + r;
    lemma_wide_item_in_column(h, c, r);
    lemma_wide_columns(w, h, c);
    lemma_wide_columns(w, h, c + 1);
    assert(w == 2 * ss + w % 2);
    assert(h == 2 * t + h % 2);
    if r < h {
        lemma_wide_item_in_column(h, c, r + 1);
        assert(n + 1 == h * h + c * (h + 1) + (r + 1));
    } else {
        lemma_wide_item_in_column(h, c + 1, 0);
        assert(n + 1 == h * h + (c + 1) * (h + 1) + 0) by (nonlinear_arith)
            requires
                n == h * h + c * (h + 1) + h,
        ;
    }
}

/// The first step of the spiral walk over a grid wider than high that leaves
/// the square around the start: it enters the first column with the bit up.
proof fn lemma_wide_step_turn(p: PathView)
    requires
        fresh_centered(p),
        p.width > p.height,
    ensures
        ({
            let h = p.height;
            let n = h * h - 1;
            &&& on_grid_from(p, wide_item(h, n).0, wide_item(h, n).1)
            &&& spiral_step(wide_state(p, n)) == Some((wide_state(p, n + 1), true))
        }),
{
    let w = p.width;
    let h = p.height;
    let t = h / 2;
    let ss = w / 2;
    let n = h * h - 1;
    assert(h * h >= 1) by (nonlinear_arith)
        requires
            h >= 1,
    ;
    lemma_prefix_last(h);
    lemma_wide_item_in_column(h, 0, 0);
    assert(h * h + 0 * (h + 1) + 0 == n + 1);
    lemma_wide_columns(w, h, 0);
    lemma_spiral_numbering(n as nat, 0, 0);
    lemma_wide_prefix_on_grid(w, h, spiral_offset(n as nat).0, spiral_offset(n as nat).1);
    assert(w == 2 * ss + w % 2);
    assert(h == 2 * t + h % 2);
}

/// Steps of the spiral walk over a grid wider than high within the square
/// around its start.
proof fn lemma_wide_step_prefix(p: PathView, n: int)
    requires
        fresh_centered(p),
        p.width > p.height,
        0 <= n,
        n + 1 < p.height * p.height,
    ensures
        on_grid_from(p, wide_item(p.height, n).0, wide_item(p.height, n).1),
        spiral_step(wide_state(p, n)) == Some((wide_state(p, n + 1), true)),
{
    let w = p.width;
    let h = p.height;
    let (u, v) = spiral_offset(n as nat);
    let (u1, v1) = spiral_offset((n + 1) as nat);
    lemma_spiral_numbering(n as nat, 0, 0);
    lemma_spiral_numbering((n + 1) as nat, 0, 0);
    lemma_wide_prefix_on_grid(w, h, u, v);
    lemma_wide_prefix_on_grid(w, h, u1, v1);
    lemma_offset_next(n as nat);
    lemma_spiral_step_inside(wide_state(p, n), u, v);
}

/// One step of the spiral walk over a grid wider than high, from its middle
/// cell: from item `n` it reaches item `n + 1`, and it reports that the walk
/// goes on exactly when there is such an item.
#[verifier::rlimit(40)]
proof fn lemma_wide_step(p: PathView, n: int)
    requires
        fresh_centered(p),
        p.width > p.height,
        0 <= n < wide_count(p.width, p.height),
    ensures
        on_grid_from(p, wide_item(p.height, n).0, wide_item(p.height, n).1),
        spiral_step(wide_state(p, n)) is Some,
        spiral_step(wide_state(p, n)).unwrap().1 == (n + 1 < wide_count(p.width, p.height)),
        n + 1 < wide_count(p.width, p.height) ==> spiral_step(wide_state(p, n)).unwrap().0 == wide_state(p, n + 1),
{
    let w = p.width;
    let h = p.height;
    let hh = h * h;
    assert(hh >= 1) by (nonlinear_arith)
        requires
            hh == h * h,
            h >= 1,
    ;
    assert((w - h) * (h + 1) >= h + 1) by (nonlinear_arith)
        requires
            w - h >= 1,
            h >= 1,
    ;
    if n + 1 < hh {
        lemma_wide_step_prefix(p, n);
    } else if n + 1 == hh {
        lemma_wide_step_turn(p);
    } else {
        let m = n - hh;
        lemma_fundamental_div_mod(m, h + 1);
        lemma_mod_bound(m, h + 1);
        let c = m / (h + 1);
        let r = m % (h + 1);
        assert(m == c * (h + 1) + r) by (nonlinear_arith)
            requires
                m == (h + 1) * c + r,
        ;
        assert(0 <= c < w - h) by (nonlinear_arith)
            requires
                m == c * (h + 1) + r,
                0 <= m < (w - h) * (h + 1),
                0 <= r <= h,
                h >= 1,
        ;
        lemma_wide_step_column(p, c, r);
        assert((c + 1) * (h + 1) == c * (h + 1) + h + 1) by (nonlinear_arith);
        assert((c + 1 <= w - h) ==> (c + 1) * (h + 1) <= (w - h) * (h + 1)) by (nonlinear_arith)
            requires
                h >= 1,
        ;
        assert((c + 1 < w - h) ==> (c + 2) * (h + 1) <= (w - h) * (h + 1)) by (nonlinear_arith)
            requires
                h >= 1,
        ;
        assert((c + 2) * (h + 1) == c * (h + 1) + 2 * h + 2) by (nonlinear_arith);
    }
}

/// The spiral walk over a grid wider than high from its middle cell returns
/// its items in order, then ends.
proof fn lemma_wide_walk(p: PathView, n: nat)
    requires
        fresh_centered(p),
        p.width > p.height,
        n <= wide_count(p.width, p.height),
    ensures
        n < wide_count(p.width, p.height) ==> walk_after(p, n) == wide_state(p, n as int),
        n < wide_count(p.width, p.height) ==> walk_item(p, n) == Some(
            (
                p.start_x + wide_item(p.height, n as int).0,
                p.start_y + wide_item(p.height, n as int).1,
                wide_item(p.height, n as int).2,
            ),
        ),
        n < wide_count(p.width, p.height) ==> on_grid_from(
            p,
            wide_item(p.height, n as int).0,
            wide_item(p.height, n as int).1,
        ),
        n == wide_count(p.width, p.height) ==> walk_after(p, n).is_end,
        n == wide_count(p.width, p.height) ==> walk_item(p, n) is None,
    decreases n,
{
    let h = p.height;
    assert(h * h >= 1) by (nonlinear_arith)
        requires
            h >= 1,
    ;
    if n == 0 {
        assert(wide_state(p, 0) == p);
        lemma_wide_step(p, 0);
    } else {
        let k = (n - 1) as nat;
        lemma_wide_walk(p, k);
        lemma_wide_step(p, k as int);
        if n < wide_count(p.width, p.height) {
            lemma_wide_step(p, n as int);
        }
    }
}

/// Item number `n` of a wide grid's walk past the square around the start,
/// as column and place in the column.
proof fn lemma_wide_decompose(w: int, h: int, n: int) -> (cr: (int, int))
    requires
        w > h >= 1,
        h * h <= n < wide_count(w, h),
    ensures
        0 <= cr.0 < w - h,
        0 <= cr.1 <= h,
        n == h * h + cr.0 * (h + 1) + cr.1,
{
    let m = n - h * h;
    lemma_fundamental_div_mod(m, h + 1);
    lemma_mod_bound(m, h + 1);
    let c = m / (h + 1);
    let r = m % (h + 1);
    assert(m == c * (h + 1) + r) by (nonlinear_arith)
        requires
            m == (h + 1) * c + r,
    ;
    assert(0 <= c < w - h) by (nonlinear_arith)
        requires
            m == c * (h + 1) + r,
            0 <= m < (w - h) * (h + 1),
            0 <= r <= h,
            h >= 1,
    ;
    (c, r)
}

/// Relative cells of a wide grid's walk: those around the start lie in the
/// rows' span of columns, the others in their columns; two items with the bit
/// down differ in place; an item with the bit down lies next to the item
/// before it, or on it.
proof fn lemma_wide_items(w: int, h: int, n1: int, n2: int)
    requires
        w > h >= 1,
        0 <= n1 < wide_count(w, h),
        0 <= n2 < wide_count(w, h),
    ensures
        n1 != n2 && wide_item(h, n1).2 && wide_item(h, n2).2 ==> (wide_item(h, n1).0, wide_item(h, n1).1) != (
            wide_item(h, n2).0,
            wide_item(h, n2).1,
        ),
{
    let t = h / 2;
    let hh = h * h;
    assert(h == 2 * t + h % 2);
    if n1 < hh {
        lemma_spiral_numbering(n1 as nat, 0, 0);
        lemma_square_grid_is_prefix(h, spiral_offset(n1 as nat).0, spiral_offset(n1 as nat).1);
    } else {
        let (c1, r1) = lemma_wide_decompose(w, h, n1);
        lemma_wide_item_in_column(h, c1, r1);
        lemma_wide_columns(w, h, c1);
    }
    if n2 < hh {
        lemma_spiral_numbering(n2 as nat, 0, 0);
        lemma_square_grid_is_prefix(h, spiral_offset(n2 as nat).0, spiral_offset(n2 as nat).1);
    } else {
        let (c2, r2) = lemma_wide_decompose(w, h, n2);
        lemma_wide_item_in_column(h, c2, r2);
        lemma_wide_columns(w, h, c2);
    }
    if n1 >= hh && n2 >= hh {
        let (c1, r1) = lemma_wide_decompose(w, h, n1);
        let (c2, r2) = lemma_wide_decompose(w, h, n2);
        if c1 != c2 {
            lemma_wide_columns_differ(h, c1, c2);
        } else if r1 == r2 {
            assert(n1 == n2);
        }
        if n2 == n1 + 1 && r2 >= 1 {
            if c1 != c2 {
                assert(hh + c2 * (h + 1) + r2 == hh + c1 * (h + 1) + r1 + 1);
                assert(false) by (nonlinear_arith)
                    requires
                        c2 * (h + 1) + r2 == c1 * (h + 1) + r1 + 1,
                        c1 != c2,
                        1 <= r2 <= h,
                        0 <= r1 <= h,
                ;
            }
        }
    }
}

/// An item with the bit down of a wide grid's walk lies next to the item
/// before it, or on it.
proof fn lemma_wide_neighbours(w: int, h: int, n: int)
    requires
        w > h >= 1,
        0 <= n,
        n + 1 < wide_count(w, h),
        wide_item(h, n + 1).2,
    ensures
        ({
            let (u0, v0, d0) = wide_item(h, n);
            let (u1, v1, d1) = wide_item(h, n + 1);
            (if u1 >= u0 { u1 - u0 } else { u0 - u1 }) + (if v1 >= v0 { v1 - v0 } else { v0 - v1 }) <= 1
        }),
{
    let hh = h * h;
    if n + 1 < hh {
        lemma_offset_next(n as nat);
    } else {
        let (c2, r2) = lemma_wide_decompose(w, h, n + 1);
        lemma_wide_item_in_column(h, c2, r2);
        assert(r2 >= 1);
        if n < hh {
            assert(false) by (nonlinear_arith)
                requires
                    n + 1 == hh + c2 * (h + 1) + r2,
                    n < hh,
                    c2 >= 0,
                    r2 >= 1,
                    h >= 1,
            ;
        }
        assert(n == hh + c2 * (h + 1) + (r2 - 1));
        lemma_wide_item_in_column(h, c2, r2 - 1);
    }
}

/// Every cell of a wide grid is an item of its walk with the bit down.
proof fn lemma_wide_index_of(w: int, h: int, u: int, v: int) -> (n: int)
    requires
        w > h >= 1,
        0 <= w / 2 + u < w,
        0 <= h / 2 + v < h,
    ensures
        0 <= n < wide_count(w, h),
        wide_item(h, n) == (u, v, true),
{
    let t = h / 2;
    let hh = h * h;
    assert((w - h) * (h + 1) >= h + 1) by (nonlinear_arith)
        requires
            w - h >= 1,
            h >= 1,
    ;
    if -t <= u <= h - 1 - t {
        lemma_square_grid_is_prefix(h, u, v);
        lemma_spiral_numbering(0, u, v);
        spiral_index(u, v)
    } else {
        let c = lemma_wide_column_of(h, u);
        lemma_wide_columns(w, h, c);
        let k = if u > 0 {
            h - 1 - t - v
        } else {
            v + t
        };
        lemma_wide_item_in_column(h, c, k + 1);
        assert(hh + c * (h + 1) + k + 1 < wide_count(w, h)) by (nonlinear_arith)
            requires
                0 <= c < w - h,
                0 <= k < h,
                wide_count(w, h) == hh + (w - h) * (h + 1),
                h >= 1,
        ;
        assert(hh + c * (h + 1) + k + 1 >= 0) by (nonlinear_arith)
            requires
                c >= 0,
                k >= 0,
                hh == h * h,
                h >= 1,
        ;
        hh + c * (h + 1) + k + 1
    }
}

/// Row number `c` that the spiral walks over a grid `w` columns wide once it
/// has used up the columns, relative to its start: alternately above and
/// below, moving outwards.
pub open spec fn tall_row(w: int, c: int) -> int {
    let s = w / 2;
    if w % 2 == 1 {
        if c % 2 == 0 {
            s + 1 + c / 2
        } else {
            -s - 1 - (c + 1) / 2
        }
    } else {
        if c % 2 == 0 {
            -s - 1 - c / 2
        } else {
            s + (c + 1) / 2
        }
    }
}

/// Cell `k` of row number `c`: rows above the start are walked rightwards
/// from the left column, those below leftwards from the right column.
pub open spec fn tall_row_cell(w: int, c: int, k: int) -> (int, int) {
    let s = w / 2;
    let v = tall_row(w, c);
    if v > 0 {
        (k - s, v)
    } else {
        (w - 1 - s - k, v)
    }
}

/// The number of the spiral's cells around the start of a grid higher than
/// its `w` columns wide before it turns to rows: the square of side `w` and
/// one row more.
pub open spec fn tall_prefix(w: int) -> int {
    w * w + w
}

/// Item number `n` of the spiral walk over a grid higher than its `w` columns
/// wide from its middle cell, relative to the start, with whether the bit is
/// down: first the spiral's cells around the start, then the rows, each
/// entered with the bit up at its first cell.
pub open spec fn tall_item(w: int, n: int) -> (int, int, bool) {
    if n < tall_prefix(w) {
        (spiral_offset(n as nat).0, spiral_offset(n as nat).1, true)
    } else {
        let m = n - tall_prefix(w);
        let c = m / (w + 1);
        let r = m % (w + 1);
        if r == 0 {
            (tall_row_cell(w, c, 0).0, tall_row_cell(w, c, 0).1, false)
        } else {
            (tall_row_cell(w, c, r - 1).0, tall_row_cell(w, c, r - 1).1, true)
        }
    }
}

/// The number of items of the spiral walk over a `w` by `h` grid that is
/// higher than wide.
pub open spec fn tall_count(w: int, h: int) -> int {
    tall_prefix(w) + (h - w - 1) * (w + 1)
}

/// The walk of `p` standing at its item number `n`, for a grid higher than
/// wide.
pub open spec fn tall_state(p: PathView, n: int) -> PathView {
    let it = tall_item(p.width, n);
    moved(p, p.start_x + it.0, p.start_y + it.1, it.2)
}

/// How the rows follow one another, where they lie, and which of them fit on
/// a `w` by `h` grid.
proof fn lemma_tall_rows(w: int, h: int, c: int)
    requires
        h > w >= 1,
        c >= 0,
    ensures
        tall_row(w, c) != 0,
        tall_row(w, c) > 0 ==> tall_row(w, c) >= w / 2 + 1 && tall_row(w, c + 1) == -tall_row(w, c) - 1,
        tall_row(w, c) < 0 ==> tall_row(w, c) <= -(w / 2) - w % 2 - 1 && tall_row(w, c + 1) == -tall_row(w, c),
        (-(h / 2) <= tall_row(w, c) <= h - 1 - h / 2) <==> c < h - w - 1,
{
    let t = h / 2;
    let s = w / 2;
    assert(w == 2 * s + w % 2);
    assert(h == 2 * t + h % 2);
}

/// Different rows lie apart.
proof fn lemma_tall_rows_differ(w: int, c1: int, c2: int)
    requires
        w >= 1,
        c1 >= 0,
        c2 >= 0,
        c1 != c2,
    ensures
        tall_row(w, c1) != tall_row(w, c2),
{
}

/// Every row of the grid outside the rows around the start is walked.
proof fn lemma_tall_row_of(w: int, v: int) -> (c: int)
    requires
        w >= 1,
        v < -(w / 2) - w % 2 || v > w / 2,
    ensures
        c >= 0,
        tall_row(w, c) == v,
{
    let s = w / 2;
    if w % 2 == 1 {
        if v > 0 {
            2 * (v - s - 1)
        } else {
            2 * (-s - 1 - v) - 1
        }
    } else {
        if v > 0 {
            2 * (v - s) - 1
        } else {
            2 * (-s - 1 - v)
        }
    }
}

/// The spiral's cells numbered below `tall_prefix(w)` are those of the
/// columns `-w/2 ..= w - 1 - w/2` and the rows `-w/2 - w%2 ..= w/2` around the
/// start.
proof fn lemma_tall_prefix_cells(w: int, u: int, v: int)
    requires
        w >= 1,
    ensures
        spiral_index(u, v) < tall_prefix(w) <==> (-(w / 2) <= u <= w - 1 - w / 2 && -(w / 2) - w % 2 <= v <= w / 2),
{
    let s = w / 2;
    let m = ring_of(u, v);
    let i = spiral_index(u, v);
    lemma_square_grid_is_prefix(w, u, v);
    lemma_spiral_numbering(0, u, v);
    if w % 2 == 1 {
        assert(w == 2 * s + 1);
        assert(w * w == ring_start(s + 1)) by (nonlinear_arith)
            requires
                w == 2 * s + 1,
        ;
        assert(tall_prefix(w) == ring_start(s + 1) + 2 * s + 1);
        lemma_ring_start_step(s + 1);
        if m > s + 1 {
            lemma_ring_start_monotonic(s + 2, m);
        } else if m >= 1 && m < s + 1 {
            lemma_ring_start_monotonic(m + 1, s + 1);
        }
    } else {
        assert(w == 2 * s);
        assert(w * w == ring_start(s) + 4 * s - 1) by (nonlinear_arith)
            requires
                w == 2 * s,
        ;
        assert(tall_prefix(w) == ring_start(s) + 6 * s - 1);
        lemma_ring_start_step(s);
        if m > s {
            lemma_ring_start_monotonic(s + 1, m);
        } else if m >= 1 && m < s {
            lemma_ring_start_monotonic(m + 1, s);
        }
    }
}

/// Where the spiral's cells around the start of a tall grid end: the left end
/// of the row below for odd `w`, the right end of the top row for even `w`.
proof fn lemma_tall_prefix_last(w: int)
    requires
        w >= 1,
    ensures
        w % 2 == 1 ==> spiral_offset((tall_prefix(w) - 1) as nat) == (-(w / 2), -(w / 2) - 1),
        w % 2 == 0 ==> spiral_offset((tall_prefix(w) - 1) as nat) == (w / 2 - 1, w / 2),
{
    let s = w / 2;
    if w % 2 == 1 {
        assert(tall_prefix(w) - 1 == ring_start(s + 1) + 2 * s) by (nonlinear_arith)
            requires
                w == 2 * s + 1,
        ;
        assert(spiral_index(-s, -s - 1) == tall_prefix(w) - 1);
        lemma_spiral_numbering(0, -s, -s - 1);
    } else {
        assert(tall_prefix(w) - 1 == ring_start(s) + 6 * s - 2) by (nonlinear_arith)
            requires
                w == 2 * s,
        ;
        assert(spiral_index(s - 1, s) == tall_prefix(w) - 1);
        lemma_spiral_numbering(0, s - 1, s);
    }
}

/// Item number `tall_prefix(w) + c * (w + 1) + r` lies in row `c`: its first
/// cell with the bit up for `r == 0`, else cell `r - 1` with the bit down.
proof fn lemma_tall_item_in_row(w: int, c: int, r: int)
    requires
        w >= 1,
        c >= 0,
        0 <= r <= w,
    ensures
        tall_item(w, tall_prefix(w) + c * (w + 1) + r) == if r == 0 {
            (tall_row_cell(w, c, 0).0, tall_row_cell(w, c, 0).1, false)
        } else {
            (tall_row_cell(w, c, r - 1).0, tall_row_cell(w, c, r - 1).1, true)
        },
{
    lemma_div_mod_parts(c * (w + 1) + r, w + 1, c, r);
}

/// The cells around the start of a tall grid's spiral with numbers below
/// `tall_prefix(w)` lie on the grid.
proof fn lemma_tall_prefix_on_grid(w: int, h: int, u: int, v: int)
    requires
        h > w >= 1,
        spiral_index(u, v) < tall_prefix(w),
    ensures
        0 <= w / 2 + u < w,
        0 <= h / 2 + v < h,
{
    lemma_tall_prefix_cells(w, u, v);
    assert(w == 2 * (w / 2) + w % 2);
    assert(h == 2 * (h / 2) + h % 2);
}

/// Steps of the spiral walk over a grid higher than wide among the cells
/// around its start.
proof fn lemma_tall_step_prefix(p: PathView, n: int)
    requires
        fresh_centered(p),
        p.height > p.width,
        0 <= n,
        n + 1 < tall_prefix(p.width),
    ensures
        on_grid_from(p, tall_item(p.width, n).0, tall_item(p.width, n).1),
        spiral_step(tall_state(p, n)) == Some((tall_state(p, n + 1), true)),
{
    let w = p.width;
    let h = p.height;
    let (u, v) = spiral_offset(n as nat);
    let (u1, v1) = spiral_offset((n + 1) as nat);
    lemma_spiral_numbering(n as nat, 0, 0);
    lemma_spiral_numbering((n + 1) as nat, 0, 0);
    lemma_tall_prefix_on_grid(w, h, u, v);
    lemma_tall_prefix_on_grid(w, h, u1, v1);
    lemma_offset_next(n as nat);
    lemma_spiral_step_inside(tall_state(p, n), u, v);
}

/// The step of the spiral walk over a grid higher than wide that leaves the
/// cells around the start: it enters the first row with the bit up, or ends
/// where there is no row left.
proof fn lemma_tall_step_turn(p: PathView)
    requires
        fresh_centered(p),
        p.height > p.width,
    ensures
        ({
            let w = p.width;
            let n = tall_prefix(w) - 1;
            &&& on_grid_from(p, tall_item(w, n).0, tall_item(w, n).1)
            &&& spiral_step(tall_state(p, n)) is Some
            &&& spiral_step(tall_state(p, n)).unwrap().1 == (p.height - w - 1 > 0)
            &&& p.height - w - 1 > 0 ==> spiral_step(tall_state(p, n)).unwrap().0 == tall_state(p, n + 1)
        }),
{
    let w = p.width;
    let h = p.height;
    let s = w / 2;
    let t = h / 2;
    let n = tall_prefix(w) - 1;
    assert(tall_prefix(w) >= 2) by (nonlinear_arith)
        requires
            w >= 1,
    ;
    lemma_tall_prefix_last(w);
    lemma_tall_item_in_row(w, 0, 0);
    assert(tall_prefix(w) + 0 * (w + 1) + 0 == n + 1);
    lemma_tall_rows(w, h, 0);
    lemma_spiral_numbering(n as nat, 0, 0);
    lemma_tall_prefix_on_grid(w, h, spiral_offset(n as nat).0, spiral_offset(n as nat).1);
    assert(w == 2 * s + w % 2);
    assert(h == 2 * t + h % 2);
}

/// Row steps of the spiral walk over a grid higher than wide: from cell
/// `r - 1` of row `c` (or its first cell with the bit up, for `r == 0`).
proof fn lemma_tall_step_row(p: PathView, c: int, r: int)
    requires
        fresh_centered(p),
        p.height > p.width,
        0 <= c < p.height - p.width - 1,
        0 <= r <= p.width,
    ensures
        ({
            let w = p.width;
            let n = tall_prefix(w) + c * (w + 1) + r;
            &&& on_grid_from(p, tall_item(w, n).0, tall_item(w, n).1)
            &&& spiral_step(tall_state(p, n)) is Some
            &&& spiral_step(tall_state(p, n)).unwrap().1 == (r < w || c + 1 < p.height - w - 1)
            &&& (r < w || c + 1 < p.height - w - 1) ==> spiral_step(tall_state(p, n)).unwrap().0 == tall_state(p, n + 1)
        }),
{
    let w = p.width;
    let h = p.height;
    let s = w / 2;
    let t = h / 2;
    let n = tall_prefix(w) + c * (w + 1) + r;
    lemma_tall_item_in_row(w, c, r);
    lemma_tall_rows(w, h, c);
    lemma_tall_rows(w, h, c + 1);
    assert(w == 2 * s + w % 2);
    assert(h == 2 * t + h % 2);
    if r < w {
        lemma_tall_item_in_row(w, c, r + 1);
        assert(n + 1 == tall_prefix(w) + c * (w + 1) + (r + 1));
    } else {
        lemma_tall_item_in_row(w, c + 1, 0);
        assert(n + 1 == tall_prefix(w) + (c + 1) * (w + 1) + 0) by (nonlinear_arith)
            requires
                n == tall_prefix(w) + c * (w + 1) + w,
        ;
    }
}

/// Item number `n` of a tall grid's walk past the cells around the start,
/// as row and place in the row.
proof fn lemma_tall_decompose(w: int, h: int, n: int) -> (cr: (int, int))
    requires
        h > w >= 1,
        tall_prefix(w) <= n < tall_count(w, h),
    ensures
        0 <= cr.0 < h - w - 1,
        0 <= cr.1 <= w,
        n == tall_prefix(w) + cr.0 * (w + 1) + cr.1,
{
    let m = n - tall_prefix(w);
    lemma_fundamental_div_mod(m, w + 1);
    lemma_mod_bound(m, w + 1);
    let c = m / (w + 1);
    let r = m % (w + 1);
    assert(m == c * (w + 1) + r) by (nonlinear_arith)
        requires
            m == (w + 1) * c + r,
    ;
    assert(0 <= c < h - w - 1) by (nonlinear_arith)
        requires
            m == c * (w + 1) + r,
            0 <= m < (h - w - 1) * (w + 1),
            0 <= r <= w,
            w >= 1,
    ;
    (c, r)
}

/// One step of the spiral walk over a grid higher than wide, from its middle
/// cell: from item `n` it reaches item `n + 1`, and it reports that the walk
/// goes on exactly when there is such an item.
#[verifier::rlimit(40)]
proof fn lemma_tall_step(p: PathView, n: int)
    requires
        fresh_centered(p),
        p.height > p.width,
        0 <= n < tall_count(p.width, p.height),
    ensures
        on_grid_from(p, tall_item(p.width, n).0, tall_item(p.width, n).1),
        spiral_step(tall_state(p, n)) is Some,
        spiral_step(tall_state(p, n)).unwrap().1 == (n + 1 < tall_count(p.width, p.height)),
        n + 1 < tall_count(p.width, p.height) ==> spiral_step(tall_state(p, n)).unwrap().0 == tall_state(p, n + 1),
{
    let w = p.width;
    let h = p.height;
    let k = tall_prefix(w);
    if n + 1 < k {
        lemma_tall_step_prefix(p, n);
    } else if n + 1 == k {
        lemma_tall_step_turn(p);
        assert((n + 1 < tall_count(w, h)) == (h - w - 1 > 0)) by (nonlinear_arith)
            requires
                n + 1 == k,
                tall_count(w, h) == k + (h - w - 1) * (w + 1),
                h - w - 1 >= 0,
                w >= 1,
        ;
    } else {
        let (c, r) = lemma_tall_decompose(w, h, n);
        lemma_tall_step_row(p, c, r);
        assert((c + 1) * (w + 1) == c * (w + 1) + w + 1) by (nonlinear_arith);
        assert((c + 1 <= h - w - 1) ==> (c + 1) * (w + 1) <= (h - w - 1) * (w + 1)) by (nonlinear_arith)
            requires
                w >= 1,
        ;
        assert((c + 1 < h - w - 1) ==> (c + 2) * (w + 1) <= (h - w - 1) * (w + 1)) by (nonlinear_arith)
            requires
                w >= 1,
        ;
        assert((c + 2) * (w + 1) == c * (w + 1) + 2 * w + 2) by (nonlinear_arith);
    }
}

/// The spiral walk over a grid higher than wide from its middle cell returns
/// its items in order, then ends.
proof fn lemma_tall_walk(p: PathView, n: nat)
    requires
        fresh_centered(p),
        p.height > p.width,
        n <= tall_count(p.width, p.height),
    ensures
        n < tall_count(p.width, p.height) ==> walk_after(p, n) == tall_state(p, n as int),
        n < tall_count(p.width, p.height) ==> walk_item(p, n) == Some(
            (
                p.start_x + tall_item(p.width, n as int).0,
                p.start_y + tall_item(p.width, n as int).1,
                tall_item(p.width, n as int).2,
            ),
        ),
        n < tall_count(p.width, p.height) ==> on_grid_from(
            p,
            tall_item(p.width, n as int).0,
            tall_item(p.width, n as int).1,
        ),
        n == tall_count(p.width, p.height) ==> walk_after(p, n).is_end,
        n == tall_count(p.width, p.height) ==> walk_item(p, n) is None,
    decreases n,
{
    let w = p.width;
    assert(tall_prefix(w) >= 2) by (nonlinear_arith)
        requires
            w >= 1,
    ;
    assert(tall_count(w, p.height) >= tall_prefix(w)) by (nonlinear_arith)
        requires
            p.height - w - 1 >= 0,
            w >= 1,
            tall_count(w, p.height) == tall_prefix(w) + (p.height - w - 1) * (w + 1),
    ;
    if n == 0 {
        assert(tall_state(p, 0) == p);
        lemma_tall_step(p, 0);
    } else {
        let k = (n - 1) as nat;
        lemma_tall_walk(p, k);
        lemma_tall_step(p, k as int);
        if n < tall_count(p.width, p.height) {
            lemma_tall_step(p, n as int);
        }
    }
}

/// Two items with the bit down of a tall grid's walk differ in place.
proof fn lemma_tall_items(w: int, h: int, n1: int, n2: int)
    requires
        h > w >= 1,
        0 <= n1 < tall_count(w, h),
        0 <= n2 < tall_count(w, h),
    ensures
        n1 != n2 && tall_item(w, n1).2 && tall_item(w, n2).2 ==> (tall_item(w, n1).0, tall_item(w, n1).1) != (
            tall_item(w, n2).0,
            tall_item(w, n2).1,
        ),
{
    let k = tall_prefix(w);
    assert(w == 2 * (w / 2) + w % 2);
    if n1 < k {
        lemma_spiral_numbering(n1 as nat, 0, 0);
        lemma_tall_prefix_cells(w, spiral_offset(n1 as nat).0, spiral_offset(n1 as nat).1);
    } else {
        let (c1, r1) = lemma_tall_decompose(w, h, n1);
        lemma_tall_item_in_row(w, c1, r1);
        lemma_tall_rows(w, h, c1);
    }
    if n2 < k {
        lemma_spiral_numbering(n2 as nat, 0, 0);
        lemma_tall_prefix_cells(w, spiral_offset(n2 as nat).0, spiral_offset(n2 as nat).1);
    } else {
        let (c2, r2) = lemma_tall_decompose(w, h, n2);
        lemma_tall_item_in_row(w, c2, r2);
        lemma_tall_rows(w, h, c2);
    }
    if n1 >= k && n2 >= k {
        let (c1, r1) = lemma_tall_decompose(w, h, n1);
        let (c2, r2) = lemma_tall_decompose(w, h, n2);
        if c1 != c2 {
            lemma_tall_rows_differ(w, c1, c2);
        } else if r1 == r2 {
            assert(n1 == n2);
        }
    }
}

/// An item with the bit down of a tall grid's walk lies next to the item
/// before it, or on it.
proof fn lemma_tall_neighbours(w: int, h: int, n: int)
    requires
        h > w >= 1,
        0 <= n,
        n + 1 < tall_count(w, h),
        tall_item(w, n + 1).2,
    ensures
        ({
            let (u0, v0, d0) = tall_item(w, n);
            let (u1, v1, d1) = tall_item(w, n + 1);
            (if u1 >= u0 { u1 - u0 } else { u0 - u1 }) + (if v1 >= v0 { v1 - v0 } else { v0 - v1 }) <= 1
        }),
{
    let k = tall_prefix(w);
    if n + 1 < k {
        lemma_offset_next(n as nat);
    } else {
        let (c2, r2) = lemma_tall_decompose(w, h, n + 1);
        lemma_tall_item_in_row(w, c2, r2);
        assert(r2 >= 1);
        if n < k {
            assert(false) by (nonlinear_arith)
                requires
                    n + 1 == k + c2 * (w + 1) + r2,
                    n < k,
                    c2 >= 0,
                    r2 >= 1,
                    w >= 1,
            ;
        }
        assert(n == k + c2 * (w + 1) + (r2 - 1));
        lemma_tall_item_in_row(w, c2, r2 - 1);
    }
}

/// Every cell of a tall grid is an item of its walk with the bit down.
proof fn lemma_tall_index_of(w: int, h: int, u: int, v: int) -> (n: int)
    requires
        h > w >= 1,
        0 <= w / 2 + u < w,
        0 <= h / 2 + v < h,
    ensures
        0 <= n < tall_count(w, h),
        tall_item(w, n) == (u, v, true),
{
    let s = w / 2;
    let k = tall_prefix(w);
    assert(w == 2 * s + w % 2);
    assert(tall_count(w, h) >= k) by (nonlinear_arith)
        requires
            h - w - 1 >= 0,
            w >= 1,
            tall_count(w, h) == k + (h - w - 1) * (w + 1),
    ;
    lemma_tall_prefix_cells(w, u, v);
    if -s - w % 2 <= v <= s {
        lemma_spiral_numbering(0, u, v);
        spiral_index(u, v)
    } else {
        let c = lemma_tall_row_of(w, v);
        lemma_tall_rows(w, h, c);
        let j = if v > 0 {
            u + s
        } else {
            w - 1 - s - u
        };
        lemma_tall_item_in_row(w, c, j + 1);
        assert(k + c * (w + 1) + j + 1 < tall_count(w, h)) by (nonlinear_arith)
            requires
                0 <= c < h - w - 1,
                0 <= j < w,
                tall_count(w, h) == k + (h - w - 1) * (w + 1),
                w >= 1,
        ;
        assert(k + c * (w + 1) + j + 1 >= 0) by (nonlinear_arith)
            requires
                c >= 0,
                j >= 0,
                k >= 0,
                w >= 1,
        ;
        k + c * (w + 1) + j + 1
    }
}

/// The number of items of the spiral walk from the middle cell of a `w` by `h`
/// grid.
pub open spec fn spiral_count(w: int, h: int) -> int {
    if w > h {
        wide_count(w, h)
    } else if h > w {
        tall_count(w, h)
    } else {
        w * w
    }
}

/// An item returned with the bit down.
pub open spec fn is_down_item(item: Option<(int, int, bool)>) -> bool {
    item matches Some((x, y, d)) && d
}

/// An item on the `w` by `h` grid.
pub open spec fn item_on_grid(item: Option<(int, int, bool)>, w: int, h: int) -> bool {
    item matches Some((x, y, d)) && 0 <= x < w && 0 <= y < h
}

/// Two items at most one cell apart, along one axis.
pub open spec fn within_one_step(a: Option<(int, int, bool)>, b: Option<(int, int, bool)>) -> bool {
    a matches Some((x0, y0, d0)) && b matches Some((x1, y1, d1)) && (if x1 >= x0 {
        x1 - x0
    } else {
        x0 - x1
    }) + (if y1 >= y0 {
        y1 - y0
    } else {
        y0 - y1
    }) <= 1
}

/// The first `count` calls of `next_item` from `p` return only cells of the
/// grid; they return every cell of the grid exactly once with the bit down;
/// each item with the bit down lies on or next to the item before it; the call
/// after them returns nothing; and each of these calls may be made.
pub open spec fn walk_covers(p: PathView, count: nat) -> bool {
    &&& forall|n: nat| n <= count ==> next_item_ok(#[trigger] walk_after(p, n))
    &&& forall|n: nat| n < count ==> item_on_grid(#[trigger] walk_item(p, n), p.width, p.height)
    &&& forall|n1: nat, n2: nat|
        n1 < count && n2 < count && n1 != n2 && is_down_item(#[trigger] walk_item(p, n1)) && is_down_item(
            #[trigger] walk_item(p, n2),
        ) ==> walk_item(p, n1) != walk_item(p, n2)
    &&& forall|x: int, y: int| 0 <= x < p.width && 0 <= y < p.height ==> #[trigger] walk_returns(p, x, y, count)
    &&& forall|n: nat|
        0 < n < count && is_down_item(#[trigger] walk_item(p, n)) ==> within_one_step(
            walk_item(p, (n - 1) as nat),
            walk_item(p, n),
        )
    &&& walk_item(p, count) is None
}

proof fn lemma_square_covers(p: PathView)
    requires
        fresh_centered(p),
        p.width == p.height,
    ensures
        walk_covers(p, (p.width * p.width) as nat),
{
    let w = p.width;
    let h = p.height;
    let count = (w * w) as nat;
    assert(fresh_centered_square(p));
    lemma_spiral_square_covers(p);
    assert forall|n: nat| n <= count implies next_item_ok(#[trigger] walk_after(p, n)) by {
        lemma_square_spiral_walk(p, n);
    }
    assert forall|n: nat| n < count implies item_on_grid(#[trigger] walk_item(p, n), w, h) by {
        lemma_square_spiral_walk(p, n);
    }
    assert forall|x: int, y: int| 0 <= x < w && 0 <= y < h implies #[trigger] walk_returns(p, x, y, count) by {}
    assert forall|n: nat| 0 < n < count && is_down_item(#[trigger] walk_item(p, n)) implies within_one_step(
        walk_item(p, (n - 1) as nat),
        walk_item(p, n),
    ) by {
        lemma_square_spiral_walk(p, n);
        lemma_square_spiral_walk(p, (n - 1) as nat);
        let _ = spiral_offset((n - 1) as nat);
        assert((n - 1) as nat + 1 == n);
    }
}

proof fn lemma_wide_covers_grid(p: PathView)
    requires
        fresh_centered(p),
        p.width > p.height,
    ensures
        forall|n: nat|
            n < wide_count(p.width, p.height) ==> item_on_grid(#[trigger] walk_item(p, n), p.width, p.height),
{
    assert forall|n: nat| n < wide_count(p.width, p.height) implies item_on_grid(
        #[trigger] walk_item(p, n),
        p.width,
        p.height,
    ) by {
        lemma_wide_walk(p, n);
    }
}

proof fn lemma_wide_covers_once(p: PathView)
    requires
        fresh_centered(p),
        p.width > p.height,
    ensures
        forall|n1: nat, n2: nat|
            n1 < wide_count(p.width, p.height) && n2 < wide_count(p.width, p.height) && n1 != n2 && is_down_item(
                #[trigger] walk_item(p, n1),
            ) && is_down_item(#[trigger] walk_item(p, n2)) ==> walk_item(p, n1) != walk_item(p, n2),
{
    let count = wide_count(p.width, p.height);
    assert forall|n1: nat, n2: nat|
        n1 < count && n2 < count && n1 != n2 && is_down_item(#[trigger] walk_item(p, n1)) && is_down_item(
            #[trigger] walk_item(p, n2),
        ) implies walk_item(p, n1) != walk_item(p, n2) by {
        lemma_wide_walk(p, n1);
        lemma_wide_walk(p, n2);
        lemma_wide_items(p.width, p.height, n1 as int, n2 as int);
    }
}

proof fn lemma_wide_covers_all(p: PathView)
    requires
        fresh_centered(p),
        p.width > p.height,
    ensures
        forall|x: int, y: int|
            0 <= x < p.width && 0 <= y < p.height ==> #[trigger] walk_returns(
                p,
                x,
                y,
                wide_count(p.width, p.height) as nat,
            ),
{
    let count = wide_count(p.width, p.height) as nat;
    assert forall|x: int, y: int| 0 <= x < p.width && 0 <= y < p.height implies #[trigger] walk_returns(
        p,
        x,
        y,
        count,
    ) by {
        let n = lemma_wide_index_of(p.width, p.height, x - p.start_x, y - p.start_y);
        lemma_wide_walk(p, n as nat);
        assert(walk_item(p, n as nat) == Some((x, y, true)));
    }
}

proof fn lemma_wide_covers_steps(p: PathView)
    requires
        fresh_centered(p),
        p.width > p.height,
    ensures
        forall|n: nat|
            0 < n < wide_count(p.width, p.height) && is_down_item(#[trigger] walk_item(p, n)) ==> within_one_step(
                walk_item(p, (n - 1) as nat),
                walk_item(p, n),
            ),
{
    let count = wide_count(p.width, p.height);
    assert forall|n: nat| 0 < n < count && is_down_item(#[trigger] walk_item(p, n)) implies within_one_step(
        walk_item(p, (n - 1) as nat),
        walk_item(p, n),
    ) by {
        lemma_wide_walk(p, n);
        lemma_wide_walk(p, (n - 1) as nat);
        lemma_wide_neighbours(p.width, p.height, n - 1);
    }
}

proof fn lemma_wide_covers(p: PathView)
    requires
        fresh_centered(p),
        p.width > p.height,
    ensures
        walk_covers(p, wide_count(p.width, p.height) as nat),
{
    lemma_wide_walk(p, wide_count(p.width, p.height) as nat);
    assert forall|n: nat| n <= wide_count(p.width, p.height) implies next_item_ok(#[trigger] walk_after(p, n)) by {
        lemma_wide_walk(p, n);
        if n < wide_count(p.width, p.height) {
            lemma_wide_step(p, n as int);
        }
    }
    lemma_wide_covers_grid(p);
    lemma_wide_covers_once(p);
    lemma_wide_covers_all(p);
    lemma_wide_covers_steps(p);
}

proof fn lemma_tall_covers_grid(p: PathView)
    requires
        fresh_centered(p),
        p.height > p.width,
    ensures
        forall|n: nat|
            n < tall_count(p.width, p.height) ==> item_on_grid(#[trigger] walk_item(p, n), p.width, p.height),
{
    assert forall|n: nat| n < tall_count(p.width, p.height) implies item_on_grid(
        #[trigger] walk_item(p, n),
        p.width,
        p.height,
    ) by {
        lemma_tall_walk(p, n);
    }
}

proof fn lemma_tall_covers_once(p: PathView)
    requires
        fresh_centered(p),
        p.height > p.width,
    ensures
        forall|n1: nat, n2: nat|
            n1 < tall_count(p.width, p.height) && n2 < tall_count(p.width, p.height) && n1 != n2 && is_down_item(
                #[trigger] walk_item(p, n1),
            ) && is_down_item(#[trigger] walk_item(p, n2)) ==> walk_item(p, n1) != walk_item(p, n2),
{
    let count = tall_count(p.width, p.height);
    assert forall|n1: nat, n2: nat|
        n1 < count && n2 < count && n1 != n2 && is_down_item(#[trigger] walk_item(p, n1)) && is_down_item(
            #[trigger] walk_item(p, n2),
        ) implies walk_item(p, n1) != walk_item(p, n2) by {
        lemma_tall_walk(p, n1);
        lemma_tall_walk(p, n2);
        lemma_tall_items(p.width, p.height, n1 as int, n2 as int);
    }
}

proof fn lemma_tall_covers_all(p: PathView)
    requires
        fresh_centered(p),
        p.height > p.width,
    ensures
        forall|x: int, y: int|
            0 <= x < p.width && 0 <= y < p.height ==> #[trigger] walk_returns(
                p,
                x,
                y,
                tall_count(p.width, p.height) as nat,
            ),
{
    let count = tall_count(p.width, p.height) as nat;
    assert forall|x: int, y: int| 0 <= x < p.width && 0 <= y < p.height implies #[trigger] walk_returns(
        p,
        x,
        y,
        count,
    ) by {
        let n = lemma_tall_index_of(p.width, p.height, x - p.start_x, y - p.start_y);
        lemma_tall_walk(p, n as nat);
        assert(walk_item(p, n as nat) == Some((x, y, true)));
    }
}

proof fn lemma_tall_covers_steps(p: PathView)
    requires
        fresh_centered(p),
        p.height > p.width,
    ensures
        forall|n: nat|
            0 < n < tall_count(p.width, p.height) && is_down_item(#[trigger] walk_item(p, n)) ==> within_one_step(
                walk_item(p, (n - 1) as nat),
                walk_item(p, n),
            ),
{
    let count = tall_count(p.width, p.height);
    assert forall|n: nat| 0 < n < count && is_down_item(#[trigger] walk_item(p, n)) implies within_one_step(
        walk_item(p, (n - 1) as nat),
        walk_item(p, n),
    ) by {
        lemma_tall_walk(p, n);
        lemma_tall_walk(p, (n - 1) as nat);
        lemma_tall_neighbours(p.width, p.height, n - 1);
    }
}

proof fn lemma_tall_covers(p: PathView)
    requires
        fresh_centered(p),
        p.height > p.width,
    ensures
        walk_covers(p, tall_count(p.width, p.height) as nat),
{
    lemma_tall_walk(p, tall_count(p.width, p.height) as nat);
    assert forall|n: nat| n <= tall_count(p.width, p.height) implies next_item_ok(#[trigger] walk_after(p, n)) by {
        lemma_tall_walk(p, n);
        if n < tall_count(p.width, p.height) {
            lemma_tall_step(p, n as int);
        }
    }
    lemma_tall_covers_grid(p);
    lemma_tall_covers_once(p);
    lemma_tall_covers_all(p);
    lemma_tall_covers_steps(p);
}

/// The spiral walk from the middle cell of any grid returns only cells of the
/// grid; it returns every cell of the grid exactly once with the bit down
/// (its other items, where it crosses to the far side of the start, have the
/// bit up); each item with the bit down lies on or next to the item before it;
/// and it ends after `spiral_count` items.
pub proof fn lemma_spiral_covers(p: PathView)
    requires
        fresh_centered(p),
    ensures
        walk_covers(p, spiral_count(p.width, p.height) as nat),
{
    if p.width == p.height {
        lemma_square_covers(p);
    } else if p.width > p.height {
        lemma_wide_covers(p);
    } else {
        lemma_tall_covers(p);
    }
}

/// The row-by-row walk from cell (0, 0) covers its grid: every cell once,
/// each a neighbour of the one before, then the end.
pub proof fn lemma_x_then_y_covers(p: PathView)
    requires
        fresh_at_origin(p, PathOrder::XThenY),
    ensures
        walk_covers(p, (p.width * p.height) as nat),
{
    let w = p.width;
    let h = p.height;
    let count = (w * h) as nat;
    assert(w * h >= 1) by (nonlinear_arith)
        requires
            w >= 1,
            h >= 1,
    ;
    lemma_x_then_y_numbering(w, h);
    lemma_x_then_y_walk(p, count);
    assert forall|n: nat| n <= count implies next_item_ok(#[trigger] walk_after(p, n)) by {
        lemma_x_then_y_walk(p, n);
    }
    assert forall|n: nat| n < count implies item_on_grid(#[trigger] walk_item(p, n), w, h) by {
        lemma_x_then_y_walk(p, n);
        let _ = x_then_y_cell(w, n as int);
    }
    assert forall|n1: nat, n2: nat|
        n1 < count && n2 < count && n1 != n2 && is_down_item(#[trigger] walk_item(p, n1)) && is_down_item(
            #[trigger] walk_item(p, n2),
        ) implies walk_item(p, n1) != walk_item(p, n2) by {
        lemma_x_then_y_walk(p, n1);
        lemma_x_then_y_walk(p, n2);
        let _ = x_then_y_cell(w, n1 as int);
        let _ = x_then_y_cell(w, n2 as int);
    }
    assert forall|x: int, y: int| 0 <= x < w && 0 <= y < h implies #[trigger] walk_returns(p, x, y, count) by {
        let n = x_then_y_number(w, x, y);
        lemma_x_then_y_walk(p, n as nat);
        assert(walk_item(p, n as nat) == Some((x, y, true)));
    }
    assert forall|n: nat| 0 < n < count && is_down_item(#[trigger] walk_item(p, n)) implies within_one_step(
        walk_item(p, (n - 1) as nat),
        walk_item(p, n),
    ) by {
        let k = (n - 1) as nat;
        lemma_x_then_y_walk(p, n);
        lemma_x_then_y_walk(p, k);
        let _ = x_then_y_cell(w, k as int);
        lemma_x_then_y_step(walk_after(p, k), k as int);
    }
}

/// The column-by-column walk from cell (0, 0) covers its grid: every cell
/// once, each a neighbour of the one before, then the end.
pub proof fn lemma_y_then_x_covers(p: PathView)
    requires
        fresh_at_origin(p, PathOrder::YThenX),
    ensures
        walk_covers(p, (p.width * p.height) as nat),
{
    let w = p.width;
    let h = p.height;
    let count = (w * h) as nat;
    assert(w * h >= 1 && w * h == h * w) by (nonlinear_arith)
        requires
            w >= 1,
            h >= 1,
    ;
    lemma_x_then_y_numbering(h, w);
    lemma_y_then_x_walk(p, count);
    assert forall|n: nat| n <= count implies next_item_ok(#[trigger] walk_after(p, n)) by {
        lemma_y_then_x_walk(p, n);
    }
    assert forall|n: nat| n < count implies item_on_grid(#[trigger] walk_item(p, n), w, h) by {
        lemma_y_then_x_walk(p, n);
        let _ = x_then_y_cell(h, n as int);
    }
    assert forall|n1: nat, n2: nat|
        n1 < count && n2 < count && n1 != n2 && is_down_item(#[trigger] walk_item(p, n1)) && is_down_item(
            #[trigger] walk_item(p, n2),
        ) implies walk_item(p, n1) != walk_item(p, n2) by {
        lemma_y_then_x_walk(p, n1);
        lemma_y_then_x_walk(p, n2);
        let _ = x_then_y_cell(h, n1 as int);
        let _ = x_then_y_cell(h, n2 as int);
    }
    assert forall|x: int, y: int| 0 <= x < w && 0 <= y < h implies #[trigger] walk_returns(p, x, y, count) by {
        let n = x_then_y_number(h, y, x);
        lemma_y_then_x_walk(p, n as nat);
        assert(walk_item(p, n as nat) == Some((x, y, true)));
    }
    assert forall|n: nat| 0 < n < count && is_down_item(#[trigger] walk_item(p, n)) implies within_one_step(
        walk_item(p, (n - 1) as nat),
        walk_item(p, n),
    ) by {
        let k = (n - 1) as nat;
        lemma_y_then_x_walk(p, n);
        lemma_y_then_x_walk(p, k);
        let _ = x_then_y_cell(h, k as int);
        lemma_y_then_x_step(walk_after(p, k), k as int);
    }
}

} // verus!
