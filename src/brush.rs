use vstd::prelude::*;
use crate::element::Element;
use crate::grid::{Grid, in_grid, cell_index, lemma_cell_index, lemma_index_cell};

verus! {

/// First row (or column) covered by a brush of side `size` centred on `center`:
/// the block starts `size / 2` before the centre, and never before 0.
pub open spec fn span_lo(size: int, center: int) -> int {
    if center >= size / 2 {
        center - size / 2
    } else {
        0
    }
}

/// One past the last row (or column) covered by a brush of side `size` centred on `center`.
pub open spec fn span_hi(size: int, center: int) -> int {
    center + size - size / 2
}

/// Whether a brush of side `size` centred on `center` covers row (or column) `p`.
pub open spec fn in_span(size: int, center: int, p: int) -> bool {
    span_lo(size, center) <= p < span_hi(size, center)
}

/// `g` with `m` written into every cell whose row is in `[r_lo, r_hi)` and whose
/// column is in `[c_lo, c_hi)`.
pub open spec fn fill_rect(
    g: Seq<Element>,
    w: int,
    m: Element,
    r_lo: int,
    r_hi: int,
    c_lo: int,
    c_hi: int,
) -> Seq<Element> {
    Seq::new(
        g.len(),
        |i: int|
            if r_lo <= i / w < r_hi && c_lo <= i % w < c_hi {
                m
            } else {
                g[i]
            },
    )
}

/// The offset `center + d - size / 2`, saturating at 0.
pub open spec fn saturating_offset(center: int, d: int, size: int) -> int {
    if center + d >= size / 2 {
        center + d - size / 2
    } else {
        0
    }
}

/// The span of a brush is exactly the set of saturating offsets
/// `center + d - size / 2` for `d` in `[0, size)`.
pub proof fn lemma_span_is_saturating_offsets(size: int, center: int, p: int)
    requires
        size >= 0,
        center >= 0,
    ensures
        (span_lo(size, center) <= p < span_hi(size, center)) <==> exists|d: int|
            0 <= d < size && #[trigger] saturating_offset(center, d, size) == p,
{
    let half = size / 2;
    if span_lo(size, center) <= p < span_hi(size, center) {
        let d = p + half - center;
        assert(saturating_offset(center, d, size) == p);
    }
    if exists|d: int| 0 <= d < size && #[trigger] saturating_offset(center, d, size) == p {
        let d = choose|d: int| 0 <= d < size && #[trigger] saturating_offset(center, d, size) == p;
        assert(half <= size - 1 || size == 0);
    }
}

/// `g` after a square brush of side `size` centred on `(row, col)` painted `m`:
/// its top-left corner is `size / 2` up and left of the centre, saturating at
/// 0, and the part that falls outside the grid is dropped.
pub open spec fn stamp(g: Seq<Element>, w: int, m: Element, size: int, row: int, col: int) -> Seq<
    Element,
> {
    fill_rect(g, w, m, span_lo(size, row), span_hi(size, row), span_lo(size, col), span_hi(size, col))
}

/// `g` after the brush was stamped, in order, centred on each `(x, y)` point
/// of `pts`; the cells that fall outside the grid are dropped.
pub open spec fn stamp_path(
    g: Seq<Element>,
    w: int,
    h: int,
    m: Element,
    size: int,
    pts: Seq<(int, int)>,
) -> Seq<Element>
    decreases pts.len(),
{
    if pts.len() == 0 {
        g
    } else {
        let p = pts.last();
        stamp(stamp_path(g, w, h, m, size, pts.drop_last()), w, m, size, p.1, p.0)
    }
}

pub open spec fn dist(a: int, b: int) -> int {
    if a >= b {
        a - b
    } else {
        b - a
    }
}

/// One lattice step from `a` towards `b`.
pub open spec fn toward(a: int, b: int) -> int {
    if a < b {
        a + 1
    } else {
        a - 1
    }
}

/// The points visited from `(x, y)` by the error-accumulator walk towards
/// `(x1, y1)`, where `dx` is the horizontal distance, `dy` minus the vertical
/// one, and `err` the accumulated error. Each round visits the current point,
/// then steps the column when `2 * err >= dy` and the row when `2 * err <= dx`;
/// the walk ends when an axis that should step is already at its target.
pub open spec fn walk(x: int, y: int, x1: int, y1: int, dx: int, dy: int, err: int) -> Seq<
    (int, int),
>
    decreases dist(x, x1) + dist(y, y1),
{
    let step_x = 2 * err >= dy;
    let step_y = 2 * err <= dx;
    if (step_x && x == x1) || (step_y && y == y1) || (!step_x && !step_y) {
        seq![(x, y)]
    } else {
        let nx = if step_x {
            toward(x, x1)
        } else {
            x
        };
        let ny = if step_y {
            toward(y, y1)
        } else {
            y
        };
        let ne = err + (if step_x {
            dy
        } else {
            0
        }) + (if step_y {
            dx
        } else {
            0
        });
        seq![(x, y)] + walk(nx, ny, x1, y1, dx, dy, ne)
    }
}

/// The `(x, y)` points of the line from `(x0, y0)` to `(x1, y1)`.
pub open spec fn line_points(x0: int, y0: int, x1: int, y1: int) -> Seq<(int, int)> {
    walk(x0, y0, x1, y1, dist(x1, x0), -dist(y1, y0), dist(x1, x0) - dist(y1, y0))
}

/// The rows (or columns) in `[0, n)` covered by a brush of side `size`
/// centred on `center`, as the range `[r.0, r.1)`; empty when it misses them.
fn clipped_span(size: usize, center: i128, n: usize) -> (r: (usize, usize))
    requires
        -0x1_0000_0000_0000_0000 <= center <= 0x1_0000_0000_0000_0000,
    ensures
        r.0 <= n,
        r.1 <= n,
        forall|p: int|
            0 <= p < n ==> ((r.0 <= p < r.1) <==> #[trigger] in_span(
                size as int,
                center as int,
                p,
            )),
{
    let half = (size / 2) as i128;
    let lo: i128 = if center >= half {
        center - half
    } else {
        0
    };
    let hi: i128 = center + size as i128 - half;
    let a: usize = if lo >= n as i128 {
        n
    } else {
        lo as usize
    };
    let b: usize = if hi <= 0 {
        0
    } else if hi >= n as i128 {
        n
    } else {
        hi as usize
    };
    (a, b)
}

/// Paints `elmnt` into the square of side `size` centred on `(row, col)`,
/// which may lie off the grid; the part of the square outside the grid is
/// dropped.
fn stamp_at(grid: &mut Grid, elmnt: Element, size: usize, row: i128, col: i128)
    requires
        old(grid).wf(),
        -0x1_0000_0000_0000_0000 <= row <= 0x1_0000_0000_0000_0000,
        -0x1_0000_0000_0000_0000 <= col <= 0x1_0000_0000_0000_0000,
    ensures
        final(grid).wf(),
        final(grid).width == old(grid).width,
        final(grid).height == old(grid).height,
        final(grid)@ == stamp(old(grid)@, old(grid).w(), elmnt, size as int, row as int, col as int),
{
    let ghost g0 = grid@;
    let w = grid.width;
    let h = grid.height;
    let (r_lo, r_hi) = clipped_span(size, row, h);
    let (c_lo, c_hi) = clipped_span(size, col, w);
    let mut y: usize = r_lo;
    while y < r_hi
        invariant
            grid.wf(),
            grid.width == w,
            grid.height == h,
            r_lo <= y,
            y <= r_hi || y == r_lo,
            r_hi <= h,
            c_hi <= w,
            grid@ == fill_rect(g0, w as int, elmnt, r_lo as int, y as int, c_lo as int, c_hi as int),
        decreases r_hi - y,
    {
        let mut x: usize = c_lo;
        while x < c_hi
            invariant
                grid.wf(),
                grid.width == w,
                grid.height == h,
                r_lo <= y < r_hi <= h,
                c_lo <= x || x == c_lo,
                x <= c_hi || x == c_lo,
                c_hi <= w,
                grid@.len() == g0.len(),
                forall|i: int|
                    0 <= i < g0.len() ==> #[trigger] grid@[i] == if (r_lo <= i / (w as int) < y
                        && c_lo <= i % (w as int) < c_hi) || (i / (w as int) == y && c_lo <= i % (
                    w as int) < x) {
                        elmnt
                    } else {
                        g0[i]
                    },
            decreases c_hi - x,
        {
            proof {
                lemma_cell_index(w as int, h as int, y as int, x as int);
            }
            let ghost before = grid@;
            grid.set(y, x, elmnt);
            assert forall|i: int| 0 <= i < g0.len() implies #[trigger] grid@[i] == if (r_lo <= i / (
            w as int) < y && c_lo <= i % (w as int) < c_hi) || (i / (w as int) == y && c_lo <= i % (
            w as int) <= x) {
                elmnt
            } else {
                g0[i]
            } by {
                lemma_index_cell(w as int, h as int, i);
                if i != cell_index(w as int, y as int, x as int) {
                    assert(grid@[i] == before[i]);
                }
            }
            x = x + 1;
        }
        y = y + 1;
        assert(grid@ =~= fill_rect(
            g0,
            w as int,
            elmnt,
            r_lo as int,
            y as int,
            c_lo as int,
            c_hi as int,
        ));
    }
    assert forall|i: int| 0 <= i < g0.len() implies grid@[i] == stamp(
        g0,
        w as int,
        elmnt,
        size as int,
        row as int,
        col as int,
    )[i] by {
        lemma_index_cell(w as int, h as int, i);
        assert(in_span(size as int, row as int, i / (w as int)) <==> (r_lo <= i / (w as int)
            < r_hi));
        assert(in_span(size as int, col as int, i % (w as int)) <==> (c_lo <= i % (w as int)
            < c_hi));
    }
    assert(grid@ =~= stamp(g0, w as int, elmnt, size as int, row as int, col as int));
}

/// Paints `elmnt` into the square of side `size` centred on `(row, col)`; the
/// part of the square outside the grid is dropped.
pub fn draw_square_terrain(grid: &mut Grid, elmnt: Element, size: usize, row: usize, col: usize)
    requires
        old(grid).wf(),
    ensures
        final(grid).wf(),
        final(grid).width == old(grid).width,
        final(grid).height == old(grid).height,
        final(grid)@ == stamp(old(grid)@, old(grid).w(), elmnt, size as int, row as int, col as int),
{
    stamp_at(grid, elmnt, size, row as i128, col as i128);
}

/// Stamps the brush at every point of the line from `(x0, y0)` to `(x1, y1)`,
/// both ends included, so that a fast stroke leaves no gap. Points may lie off
/// the grid: the cells of their brush outside it are dropped.
pub fn draw_square_terrain_line(
    grid: &mut Grid,
    elmnt: Element,
    size: usize,
    x0: i32,
    y0: i32,
    x1: i32,
    y1: i32,
)
    requires
        old(grid).wf(),
    ensures
        final(grid).wf(),
        final(grid).width == old(grid).width,
        final(grid).height == old(grid).height,
        final(grid)@ == stamp_path(
            old(grid)@,
            old(grid).w(),
            old(grid).h(),
            elmnt,
            size as int,
            line_points(x0 as int, y0 as int, x1 as int, y1 as int),
        ),
{
    let ghost g0 = grid@;
    let ghost pts = line_points(x0 as int, y0 as int, x1 as int, y1 as int);
    let w = grid.width;
    let h = grid.height;
    let tx = x1 as i64;
    let ty = y1 as i64;
    let mut x = x0 as i64;
    let mut y = y0 as i64;
    let dx: i64 = if tx >= x {
        tx - x
    } else {
        x - tx
    };
    let dy: i64 = if ty >= y {
        y - ty
    } else {
        ty - y
    };
    let mut err: i64 = dx + dy;
    let ghost mut visited: Seq<(int, int)> = Seq::empty();
    let mut done = false;
    assert(visited + pts =~= pts);
    while !done
        invariant
            grid.wf(),
            grid.width == w,
            grid.height == h,
            w == old(grid).width,
            h == old(grid).height,
            g0 == old(grid)@,
            pts == line_points(x0 as int, y0 as int, x1 as int, y1 as int),
            tx == x1,
            ty == y1,
            dx == dist(x1 as int, x0 as int),
            dy == -dist(y1 as int, y0 as int),
            (x0 <= x <= x1) || (x1 <= x <= x0),
            (y0 <= y <= y1) || (y1 <= y <= y0),
            2 * dy <= err <= 2 * dx,
            !done ==> pts == visited + walk(
                x as int,
                y as int,
                x1 as int,
                y1 as int,
                dx as int,
                dy as int,
                err as int,
            ),
            !done ==> grid@ == stamp_path(g0, w as int, h as int, elmnt, size as int, visited),
            done ==> grid@ == stamp_path(g0, w as int, h as int, elmnt, size as int, pts),
        decreases dist(x as int, x1 as int) + dist(y as int, y1 as int) + if done {
            0int
        } else {
            1int
        },
    {
        stamp_at(grid, elmnt, size, y as i128, x as i128);
        let ghost p = (x as int, y as int);
        let ghost pe = err as int;
        proof {
            assert(visited.push(p).drop_last() =~= visited);
        }
        let e2 = 2 * err;
        let mut stop = false;
        if e2 >= dy {
            if x == tx {
                stop = true;
            } else {
                err = err + dy;
                x = if x < tx {
                    x + 1
                } else {
                    x - 1
                };
            }
        }
        if !stop && e2 <= dx {
            if y == ty {
                stop = true;
            } else {
                err = err + dx;
                y = if y < ty {
                    y + 1
                } else {
                    y - 1
                };
            }
        }
        proof {
            let rest = walk(p.0, p.1, x1 as int, y1 as int, dx as int, dy as int, pe);
            if stop {
                assert(rest == seq![p]);
                assert(visited + seq![p] =~= visited.push(p));
            } else {
                let next = walk(
                    x as int,
                    y as int,
                    x1 as int,
                    y1 as int,
                    dx as int,
                    dy as int,
                    err as int,
                );
                assert(rest == seq![p] + next);
                assert(visited + (seq![p] + next) =~= visited.push(p) + next);
            }
            visited = visited.push(p);
        }
        done = stop;
    }
}

/// Paints one frame of a stroke in (row, column) coordinates: the line from
/// the previous pointer sample to the current one, or, when the pointer was
/// just pressed, the brush at the current point alone.
pub fn apply_stroke(
    grid: &mut Grid,
    prev: Option<(i32, i32)>,
    cur: (i32, i32),
    brush_size: usize,
    material: Element,
)
    requires
        old(grid).wf(),
    ensures
        final(grid).wf(),
        final(grid).width == old(grid).width,
        final(grid).height == old(grid).height,
        match prev {
            Some(p) => final(grid)@ == stamp_path(
                old(grid)@,
                old(grid).w(),
                old(grid).h(),
                material,
                brush_size as int,
                line_points(p.1 as int, p.0 as int, cur.1 as int, cur.0 as int),
            ),
            None => final(grid)@ == stamp(
                old(grid)@,
                old(grid).w(),
                material,
                brush_size as int,
                cur.0 as int,
                cur.1 as int,
            ),
        },
{
    match prev {
        Some(p) => {
            draw_square_terrain_line(grid, material, brush_size, p.1, p.0, cur.1, cur.0);
        },
        None => {
            stamp_at(grid, material, brush_size, cur.0 as i128, cur.1 as i128);
        },
    }
}

/// Whether two lattice points are equal or neighbours, diagonals included.
pub open spec fn adjacent(p: (int, int), q: (int, int)) -> bool {
    dist(p.0, q.0) <= 1 && dist(p.1, q.1) <= 1
}

/// The walk from a point between the ends, reached after `dist(x, x0)` column
/// steps and `dist(y, y0)` row steps, visits its own point first, moves to a
/// neighbour each time, and stops exactly at `(x1, y1)`.
proof fn lemma_walk_shape(x0: int, y0: int, x: int, y: int, x1: int, y1: int, err: int)
    requires
        dist(x0, x) + dist(x, x1) == dist(x1, x0),
        dist(y0, y) + dist(y, y1) == dist(y1, y0),
        err == dist(x1, x0) * (1 + dist(y, y0)) - dist(y1, y0) * (1 + dist(x, x0)),
    ensures
        walk(x, y, x1, y1, dist(x1, x0), -dist(y1, y0), err).len() >= 1,
        walk(x, y, x1, y1, dist(x1, x0), -dist(y1, y0), err)[0] == (x, y),
        walk(x, y, x1, y1, dist(x1, x0), -dist(y1, y0), err).last() == (x1, y1),
        forall|i: int|
            0 <= i < walk(x, y, x1, y1, dist(x1, x0), -dist(y1, y0), err).len() - 1 ==> adjacent(
                #[trigger] walk(x, y, x1, y1, dist(x1, x0), -dist(y1, y0), err)[i],
                walk(x, y, x1, y1, dist(x1, x0), -dist(y1, y0), err)[i + 1],
            ),
    decreases dist(x, x1) + dist(y, y1),
{
    let dx = dist(x1, x0);
    let big_dy = dist(y1, y0);
    let dy = -big_dy;
    let nx = dist(x, x0);
    let ny = dist(y, y0);
    let step_x = 2 * err >= dy;
    let step_y = 2 * err <= dx;
    let pts = walk(x, y, x1, y1, dx, dy, err);
    if step_x && x == x1 {
        assert(nx == dx);
        assert(ny >= big_dy) by (nonlinear_arith)
            requires
                err == dx * (1 + ny) - big_dy * (1 + nx),
                nx == dx,
                2 * err >= -big_dy,
                0 <= ny <= big_dy,
                0 <= nx,
        ;
    } else if step_y && y == y1 {
        assert(ny == big_dy);
        assert(nx >= dx) by (nonlinear_arith)
            requires
                err == dx * (1 + ny) - big_dy * (1 + nx),
                ny == big_dy,
                2 * err <= dx,
                0 <= nx <= dx,
                0 <= ny,
        ;
    } else {
        let x2 = if step_x {
            toward(x, x1)
        } else {
            x
        };
        let y2 = if step_y {
            toward(y, y1)
        } else {
            y
        };
        let e2 = err + (if step_x {
            dy
        } else {
            0
        }) + (if step_y {
            dx
        } else {
            0
        });
        let nx2 = dist(x2, x0);
        let ny2 = dist(y2, y0);
        assert(nx2 == nx + if step_x {
            1int
        } else {
            0int
        });
        assert(ny2 == ny + if step_y {
            1int
        } else {
            0int
        });
        assert(e2 == dx * (1 + ny2) - big_dy * (1 + nx2)) by (nonlinear_arith)
            requires
                err == dx * (1 + ny) - big_dy * (1 + nx),
                e2 == err + (if step_x {
                    -big_dy
                } else {
                    0
                }) + (if step_y {
                    dx
                } else {
                    0
                }),
                nx2 == nx + if step_x {
                    1int
                } else {
                    0int
                },
                ny2 == ny + if step_y {
                    1int
                } else {
                    0int
                },
        ;
        lemma_walk_shape(x0, y0, x2, y2, x1, y1, e2);
        let rest = walk(x2, y2, x1, y1, dx, dy, e2);
        assert(pts == seq![(x, y)] + rest);
        assert forall|i: int| 0 <= i < pts.len() - 1 implies adjacent(
            #[trigger] pts[i],
            pts[i + 1],
        ) by {
            if i > 0 {
                assert(pts[i] == rest[i - 1]);
                assert(pts[i + 1] == rest[i]);
            }
        }
    }
}

/// However far apart two pointer samples are, the stroke between them starts
/// at the first, ends at the second, and moves to a neighbouring lattice point
/// (diagonals included) at each step: it has no gap.
pub proof fn lemma_line_is_connected(x0: int, y0: int, x1: int, y1: int)
    ensures
        line_points(x0, y0, x1, y1).len() >= 1,
        line_points(x0, y0, x1, y1)[0] == (x0, y0),
        line_points(x0, y0, x1, y1).last() == (x1, y1),
        forall|i: int|
            0 <= i < line_points(x0, y0, x1, y1).len() - 1 ==> adjacent(
                #[trigger] line_points(x0, y0, x1, y1)[i],
                line_points(x0, y0, x1, y1)[i + 1],
            ),
{
    let dx = dist(x1, x0);
    let big_dy = dist(y1, y0);
    assert(dx - big_dy == dx * (1 + dist(y0, y0)) - big_dy * (1 + dist(x0, x0))) by (nonlinear_arith)
        requires
            dist(y0, y0) == 0,
            dist(x0, x0) == 0,
    ;
    lemma_walk_shape(x0, y0, x0, y0, x1, y1, dx - big_dy);
}

/// Along the walk, the axis with the longer distance steps in every round, so
/// the walk has one point more than that distance still to go.
proof fn lemma_walk_len(x0: int, y0: int, x: int, y: int, x1: int, y1: int, err: int)
    requires
        dist(x0, x) + dist(x, x1) == dist(x1, x0),
        dist(y0, y) + dist(y, y1) == dist(y1, y0),
        err == dist(x1, x0) * (1 + dist(y, y0)) - dist(y1, y0) * (1 + dist(x, x0)),
        dist(x1, x0) >= dist(y1, y0) ==> 2 * err >= -dist(y1, y0),
        dist(y1, y0) >= dist(x1, x0) ==> 2 * err <= dist(x1, x0),
    ensures
        dist(x1, x0) >= dist(y1, y0) ==> walk(x, y, x1, y1, dist(x1, x0), -dist(y1, y0), err).len()
            == dist(x, x1) + 1,
        dist(y1, y0) >= dist(x1, x0) ==> walk(x, y, x1, y1, dist(x1, x0), -dist(y1, y0), err).len()
            == dist(y, y1) + 1,
        dist(x1, x0) >= dist(y1, y0) ==> forall|k: int|
            0 <= k < walk(x, y, x1, y1, dist(x1, x0), -dist(y1, y0), err).len() ==> dist(
                x,
                #[trigger] walk(x, y, x1, y1, dist(x1, x0), -dist(y1, y0), err)[k].0,
            ) == k && dist(x, walk(x, y, x1, y1, dist(x1, x0), -dist(y1, y0), err)[k].0) + dist(
                walk(x, y, x1, y1, dist(x1, x0), -dist(y1, y0), err)[k].0,
                x1,
            ) == dist(x, x1),
        dist(y1, y0) >= dist(x1, x0) ==> forall|k: int|
            0 <= k < walk(x, y, x1, y1, dist(x1, x0), -dist(y1, y0), err).len() ==> dist(
                y,
                #[trigger] walk(x, y, x1, y1, dist(x1, x0), -dist(y1, y0), err)[k].1,
            ) == k && dist(y, walk(x, y, x1, y1, dist(x1, x0), -dist(y1, y0), err)[k].1) + dist(
                walk(x, y, x1, y1, dist(x1, x0), -dist(y1, y0), err)[k].1,
                y1,
            ) == dist(y, y1),
    decreases dist(x, x1) + dist(y, y1),
{
    let dx = dist(x1, x0);
    let big_dy = dist(y1, y0);
    let dy = -big_dy;
    let nx = dist(x, x0);
    let ny = dist(y, y0);
    let step_x = 2 * err >= dy;
    let step_y = 2 * err <= dx;
    lemma_walk_shape(x0, y0, x, y, x1, y1, err);
    if (step_x && x == x1) || (step_y && y == y1) || (!step_x && !step_y) {
    } else {
        let x2 = if step_x {
            toward(x, x1)
        } else {
            x
        };
        let y2 = if step_y {
            toward(y, y1)
        } else {
            y
        };
        let e2 = err + (if step_x {
            dy
        } else {
            0
        }) + (if step_y {
            dx
        } else {
            0
        });
        let nx2 = dist(x2, x0);
        let ny2 = dist(y2, y0);
        assert(nx2 == nx + if step_x {
            1int
        } else {
            0int
        });
        assert(ny2 == ny + if step_y {
            1int
        } else {
            0int
        });
        assert(e2 == dx * (1 + ny2) - big_dy * (1 + nx2)) by (nonlinear_arith)
            requires
                err == dx * (1 + ny) - big_dy * (1 + nx),
                e2 == err + (if step_x {
                    -big_dy
                } else {
                    0
                }) + (if step_y {
                    dx
                } else {
                    0
                }),
                nx2 == nx + if step_x {
                    1int
                } else {
                    0int
                },
                ny2 == ny + if step_y {
                    1int
                } else {
                    0int
                },
        ;
        lemma_walk_len(x0, y0, x2, y2, x1, y1, e2);
        let pts = walk(x, y, x1, y1, dx, dy, err);
        let rest = walk(x2, y2, x1, y1, dx, dy, e2);
        assert(pts == seq![(x, y)] + rest);
        assert forall|k: int| 0 < k < pts.len() implies #[trigger] pts[k] == rest[k - 1] by {}
        if dx >= big_dy {
            assert(step_x);
            assert forall|k: int| 0 <= k < pts.len() implies dist(x, #[trigger] pts[k].0) == k && dist(
                x,
                pts[k].0,
            ) + dist(pts[k].0, x1) == dist(x, x1) by {
                if k > 0 {
                    assert(pts[k] == rest[k - 1]);
                    assert(dist(x2, rest[k - 1].0) == k - 1);
                }
            }
        }
        if big_dy >= dx {
            assert(step_y);
            assert forall|k: int| 0 <= k < pts.len() implies dist(y, #[trigger] pts[k].1) == k && dist(
                y,
                pts[k].1,
            ) + dist(pts[k].1, y1) == dist(y, y1) by {
                if k > 0 {
                    assert(pts[k] == rest[k - 1]);
                    assert(dist(y2, rest[k - 1].1) == k - 1);
                }
            }
        }
    }
}

/// The line between two samples has one point more than the longer of its
/// horizontal and vertical distances, and visits no point twice.
pub proof fn lemma_line_length(x0: int, y0: int, x1: int, y1: int)
    ensures
        line_points(x0, y0, x1, y1).len() == if dist(x1, x0) >= dist(y1, y0) {
            dist(x1, x0) + 1
        } else {
            dist(y1, y0) + 1
        },
        line_points(x0, y0, x1, y1).no_duplicates(),
{
    let dx = dist(x1, x0);
    let big_dy = dist(y1, y0);
    assert(dx - big_dy == dx * (1 + dist(y0, y0)) - big_dy * (1 + dist(x0, x0))) by (nonlinear_arith)
        requires
            dist(y0, y0) == 0,
            dist(x0, x0) == 0,
    ;
    lemma_walk_len(x0, y0, x0, y0, x1, y1, dx - big_dy);
    let pts = line_points(x0, y0, x1, y1);
    assert forall|a: int, b: int| 0 <= a < pts.len() && 0 <= b < pts.len() && a != b implies pts[a]
        != pts[b] by {
        if dx >= big_dy {
            assert(dist(x0, pts[a].0) == a);
            assert(dist(x0, pts[b].0) == b);
        } else {
            assert(dist(y0, pts[a].1) == a);
            assert(dist(y0, pts[b].1) == b);
        }
    }
}

/// Stamping a brush of side at least 1 at a point inside the grid paints that point.
proof fn lemma_stamp_covers_center(g: Seq<Element>, w: int, h: int, m: Element, size: int, r: int, c: int)
    requires
        w > 0,
        g.len() == w * h,
        size >= 1,
        in_grid(w, h, r, c),
    ensures
        stamp(g, w, m, size, r, c)[cell_index(w, r, c)] == m,
{
    lemma_cell_index(w, h, r, c);
}

/// After the brush was stamped along `pts`, every point of `pts` that lies in
/// the grid holds the brush's material.
proof fn lemma_path_paints_points(
    g: Seq<Element>,
    w: int,
    h: int,
    m: Element,
    size: int,
    pts: Seq<(int, int)>,
)
    requires
        w > 0,
        g.len() == w * h,
        size >= 1,
    ensures
        stamp_path(g, w, h, m, size, pts).len() == g.len(),
        forall|i: int|
            0 <= i < pts.len() && in_grid(w, h, pts[i].1, pts[i].0) ==> #[trigger] stamp_path(
                g,
                w,
                h,
                m,
                size,
                pts,
            )[cell_index(w, pts[i].1, pts[i].0)] == m,
    decreases pts.len(),
{
    if pts.len() > 0 {
        let before = pts.drop_last();
        lemma_path_paints_points(g, w, h, m, size, before);
        let prev = stamp_path(g, w, h, m, size, before);
        let p = pts.last();
        assert forall|i: int| 0 <= i < pts.len() && in_grid(w, h, pts[i].1, pts[i].0) implies #[trigger] stamp_path(
            g,
            w,
            h,
            m,
            size,
            pts,
        )[cell_index(w, pts[i].1, pts[i].0)] == m by {
            lemma_cell_index(w, h, pts[i].1, pts[i].0);
            if i == pts.len() - 1 {
                lemma_stamp_covers_center(prev, w, h, m, size, p.1, p.0);
            } else {
                assert(pts[i] == before[i]);
            }
        }
    }
}

/// A stroke with a brush of side at least 1 paints every point of its line
/// that lies in the grid, both pointer samples included.
pub proof fn lemma_stroke_paints_line(
    g: Seq<Element>,
    w: int,
    h: int,
    m: Element,
    size: int,
    x0: int,
    y0: int,
    x1: int,
    y1: int,
)
    requires
        w > 0,
        g.len() == w * h,
        size >= 1,
    ensures
        forall|i: int|
            0 <= i < line_points(x0, y0, x1, y1).len() && in_grid(
                w,
                h,
                line_points(x0, y0, x1, y1)[i].1,
                line_points(x0, y0, x1, y1)[i].0,
            ) ==> #[trigger] stamp_path(g, w, h, m, size, line_points(x0, y0, x1, y1))[cell_index(
                w,
                line_points(x0, y0, x1, y1)[i].1,
                line_points(x0, y0, x1, y1)[i].0,
            )] == m,
{
    lemma_path_paints_points(g, w, h, m, size, line_points(x0, y0, x1, y1));
}

/// With a brush of one cell, stamping along `pts` paints exactly the cells
/// at the points of `pts` and leaves every other cell as it was.
proof fn lemma_thin_path_paints_exactly(
    g: Seq<Element>,
    w: int,
    h: int,
    m: Element,
    pts: Seq<(int, int)>,
)
    requires
        w > 0,
        g.len() == w * h,
    ensures
        stamp_path(g, w, h, m, 1, pts).len() == g.len(),
        forall|i: int|
            0 <= i < g.len() ==> #[trigger] stamp_path(g, w, h, m, 1, pts)[i] == if pts.contains(
                (i % w, i / w),
            ) {
                m
            } else {
                g[i]
            },
    decreases pts.len(),
{
    if pts.len() > 0 {
        let before = pts.drop_last();
        lemma_thin_path_paints_exactly(g, w, h, m, before);
        let p = pts.last();
        assert forall|i: int| 0 <= i < g.len() implies #[trigger] stamp_path(
            g,
            w,
            h,
            m,
            1,
            pts,
        )[i] == if pts.contains((i % w, i / w)) {
            m
        } else {
            g[i]
        } by {
            lemma_index_cell(w, h, i);
            let q = (i % w, i / w);
            if before.contains(q) {
                let k = choose|k: int| 0 <= k < before.len() && before[k] == q;
                assert(pts[k] == q);
            }
            if pts.contains(q) && q != p {
                let k = choose|k: int| 0 <= k < pts.len() && pts[k] == q;
                assert(k != pts.len() - 1);
                assert(before[k] == q);
            }
            if q == p {
                assert(pts[pts.len() - 1] == q);
            }
        }
    }
}

/// A stroke with a one-cell brush paints exactly the cells of its line that
/// lie in the grid, and nothing else; the line has one point more than the
/// longer of its two distances, none of them repeated.
pub proof fn lemma_thin_stroke_paints_exactly(
    g: Seq<Element>,
    w: int,
    h: int,
    m: Element,
    x0: int,
    y0: int,
    x1: int,
    y1: int,
)
    requires
        w > 0,
        g.len() == w * h,
    ensures
        forall|i: int|
            0 <= i < g.len() ==> #[trigger] stamp_path(g, w, h, m, 1, line_points(x0, y0, x1, y1))[i]
                == if line_points(x0, y0, x1, y1).contains((i % w, i / w)) {
                m
            } else {
                g[i]
            },
        line_points(x0, y0, x1, y1).no_duplicates(),
        line_points(x0, y0, x1, y1).len() == if dist(x1, x0) >= dist(y1, y0) {
            dist(x1, x0) + 1
        } else {
            dist(y1, y0) + 1
        },
{
    lemma_thin_path_paints_exactly(g, w, h, m, line_points(x0, y0, x1, y1));
    lemma_line_length(x0, y0, x1, y1);
}

/// The points of row `y` from column `x` to column `x1`, one step at a time.
pub open spec fn row_run(x: int, x1: int, y: int) -> Seq<(int, int)>
    decreases dist(x, x1),
{
    if x == x1 {
        seq![(x, y)]
    } else {
        seq![(x, y)] + row_run(toward(x, x1), x1, y)
    }
}

/// The points of column `x` from row `y` to row `y1`, one step at a time.
pub open spec fn col_run(x: int, y: int, y1: int) -> Seq<(int, int)>
    decreases dist(y, y1),
{
    if y == y1 {
        seq![(x, y)]
    } else {
        seq![(x, y)] + col_run(x, toward(y, y1), y1)
    }
}

proof fn lemma_row_walk(x: int, y: int, x1: int, dx: int)
    requires
        dx >= 1 || (x == x1 && dx >= 0),
    ensures
        walk(x, y, x1, y, dx, 0, dx) == row_run(x, x1, y),
    decreases dist(x, x1),
{
    if x != x1 {
        lemma_row_walk(toward(x, x1), y, x1, dx);
    }
}

proof fn lemma_col_walk(x: int, y: int, y1: int, big_dy: int)
    requires
        big_dy >= 1 || (y == y1 && big_dy >= 0),
    ensures
        walk(x, y, x, y1, 0, -big_dy, -big_dy) == col_run(x, y, y1),
    decreases dist(y, y1),
{
    if y != y1 {
        lemma_col_walk(x, toward(y, y1), y1, big_dy);
    }
}

proof fn lemma_row_run_split(xa: int, xm: int, xb: int, y: int)
    requires
        dist(xa, xm) + dist(xm, xb) == dist(xa, xb),
    ensures
        row_run(xa, xb, y) == row_run(xa, xm, y) + row_run(xm, xb, y).drop_first(),
    decreases dist(xa, xm),
{
    if xa == xm {
        assert(row_run(xa, xb, y)[0] == (xa, y));
        assert(row_run(xa, xb, y) =~= seq![(xa, y)] + row_run(xa, xb, y).drop_first());
    } else {
        let t = toward(xa, xm);
        assert(toward(xa, xb) == t);
        lemma_row_run_split(t, xm, xb, y);
        assert(row_run(xa, xb, y) =~= row_run(xa, xm, y) + row_run(xm, xb, y).drop_first());
    }
}

proof fn lemma_col_run_split(x: int, ya: int, ym: int, yb: int)
    requires
        dist(ya, ym) + dist(ym, yb) == dist(ya, yb),
    ensures
        col_run(x, ya, yb) == col_run(x, ya, ym) + col_run(x, ym, yb).drop_first(),
    decreases dist(ya, ym),
{
    if ya == ym {
        assert(col_run(x, ya, yb)[0] == (x, ya));
        assert(col_run(x, ya, yb) =~= seq![(x, ya)] + col_run(x, ya, yb).drop_first());
    } else {
        let t = toward(ya, ym);
        assert(toward(ya, yb) == t);
        lemma_col_run_split(x, t, ym, yb);
        assert(col_run(x, ya, yb) =~= col_run(x, ya, ym) + col_run(x, ym, yb).drop_first());
    }
}

/// Stamping along `a` and then along `b` is stamping along `a + b`.
proof fn lemma_stamp_path_concat(
    g: Seq<Element>,
    w: int,
    h: int,
    m: Element,
    size: int,
    a: Seq<(int, int)>,
    b: Seq<(int, int)>,
)
    ensures
        stamp_path(g, w, h, m, size, a + b) == stamp_path(
            stamp_path(g, w, h, m, size, a),
            w,
            h,
            m,
            size,
            b,
        ),
    decreases b.len(),
{
    if b.len() == 0 {
        assert(a + b =~= a);
    } else {
        lemma_stamp_path_concat(g, w, h, m, size, a, b.drop_last());
        assert((a + b).drop_last() =~= a + b.drop_last());
        assert((a + b).last() == b.last());
    }
}

/// Splitting a straight stroke, along a row or along a column, at a sample
/// between its ends paints the same cells as the whole stroke.
pub proof fn lemma_straight_stroke_split(
    g: Seq<Element>,
    w: int,
    h: int,
    m: Element,
    size: int,
    xa: int,
    ya: int,
    xm: int,
    ym: int,
    xb: int,
    yb: int,
)
    requires
        (ya == ym && ym == yb && dist(xa, xm) + dist(xm, xb) == dist(xa, xb)) || (xa == xm && xm
            == xb && dist(ya, ym) + dist(ym, yb) == dist(ya, yb)),
    ensures
        stamp_path(
            stamp_path(g, w, h, m, size, line_points(xa, ya, xm, ym)),
            w,
            h,
            m,
            size,
            line_points(xm, ym, xb, yb),
        ) == stamp_path(g, w, h, m, size, line_points(xa, ya, xb, yb)),
{
    let a = line_points(xa, ya, xm, ym);
    let b = line_points(xm, ym, xb, yb);
    let c = line_points(xa, ya, xb, yb);
    if ya == ym && ym == yb && dist(xa, xm) + dist(xm, xb) == dist(xa, xb) {
        lemma_row_walk(xa, ya, xm, dist(xm, xa));
        lemma_row_walk(xm, ya, xb, dist(xb, xm));
        lemma_row_walk(xa, ya, xb, dist(xb, xa));
        lemma_row_run_split(xa, xm, xb, ya);
    } else {
        lemma_col_walk(xa, ya, ym, dist(ym, ya));
        lemma_col_walk(xa, ym, yb, dist(yb, ym));
        lemma_col_walk(xa, ya, yb, dist(yb, ya));
        lemma_col_run_split(xa, ya, ym, yb);
    }
    assert(c == a + b.drop_first());
    lemma_line_is_connected(xa, ya, xm, ym);
    lemma_line_is_connected(xm, ym, xb, yb);
    let p = (xm, ym);
    let rest = b.drop_first();
    assert(b =~= seq![p] + rest);
    assert(a + b =~= a.push(p) + rest);
    lemma_stamp_path_concat(g, w, h, m, size, a, b);
    lemma_stamp_path_concat(g, w, h, m, size, a.push(p), rest);
    lemma_stamp_path_concat(g, w, h, m, size, a, rest);
    // Stamping the sample where `a` ends a second time changes nothing.
    assert(a.push(p).drop_last() =~= a);
    assert(a == a.drop_last().push(p));
    let before = stamp_path(g, w, h, m, size, a.drop_last());
    let once = stamp(before, w, m, size, p.1, p.0);
    assert(stamp(once, w, m, size, p.1, p.0) =~= once);
}

} // verus!
