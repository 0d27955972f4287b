use vstd::prelude::*;
use crate::element::Element;
use crate::grid::{
    Grid,
    in_grid,
    cell_index,
    holds,
    swap_cells,
    lemma_cell_index,
    all_air,
    move_cell,
    cell_matches,
    is_cell_empty,
};
use crate::clock::TickClock;
use vstd::seq_lib::{to_multiset_update, to_multiset_contains};
use crate::random::draw_coins;

verus! {

/// Sand resting on a liquid sinks into it only on ticks that are a multiple of this.
pub const SAND_SINK_PERIOD: u64 = 20;

/// Lava moves only on ticks that are a multiple of this.
pub const LAVA_PERIOD: u64 = 3;

/// `g` after the cell at `(r, c)` has changed places with the one at `(r2, c2)`.
pub open spec fn swap_at(g: Seq<Element>, w: int, r: int, c: int, r2: int, c2: int) -> Seq<
    Element,
> {
    swap_cells(g, cell_index(w, r2, c2), cell_index(w, r, c))
}

/// Whether the cell below `(r, c)` is a liquid that sand sinks through.
pub open spec fn liquid_below(g: Seq<Element>, w: int, h: int, r: int, c: int) -> bool {
    holds(g, w, h, r + 1, c, Element::Water) || holds(g, w, h, r + 1, c, Element::Lava)
}

/// Sand falls into air, water or lava below it (into a liquid only on every
/// `SAND_SINK_PERIOD`-th tick); otherwise it slides down-left, then down-right,
/// each only where both the side cell and the cell below it are air.
pub open spec fn sand_rule(g: Seq<Element>, w: int, h: int, r: int, c: int, ticks: u64) -> Seq<
    Element,
> {
    if holds(g, w, h, r + 1, c, Element::Air) || liquid_below(g, w, h, r, c) {
        if liquid_below(g, w, h, r, c) && ticks % SAND_SINK_PERIOD != 0 {
            g
        } else {
            swap_at(g, w, r, c, r + 1, c)
        }
    } else if holds(g, w, h, r, c - 1, Element::Air) && holds(g, w, h, r + 1, c - 1, Element::Air) {
        swap_at(g, w, r, c, r + 1, c - 1)
    } else if holds(g, w, h, r, c + 1, Element::Air) && holds(g, w, h, r + 1, c + 1, Element::Air) {
        swap_at(g, w, r, c, r + 1, c + 1)
    } else {
        g
    }
}

/// A liquid falls into air below it; otherwise it moves one cell to the side
/// that `coin` picks (`true`: right), when that cell is air.
pub open spec fn liquid_move(g: Seq<Element>, w: int, h: int, r: int, c: int, coin: bool) -> Seq<
    Element,
> {
    if holds(g, w, h, r + 1, c, Element::Air) {
        swap_at(g, w, r, c, r + 1, c)
    } else if coin {
        if holds(g, w, h, r, c + 1, Element::Air) {
            swap_at(g, w, r, c, r, c + 1)
        } else {
            g
        }
    } else {
        if holds(g, w, h, r, c - 1, Element::Air) {
            swap_at(g, w, r, c, r, c - 1)
        } else {
            g
        }
    }
}

/// Whether one of the four diagonal neighbours of `(r, c)` holds lava.
pub open spec fn lava_on_diagonal(g: Seq<Element>, w: int, h: int, r: int, c: int) -> bool {
    ||| holds(g, w, h, r - 1, c - 1, Element::Lava)
    ||| holds(g, w, h, r - 1, c + 1, Element::Lava)
    ||| holds(g, w, h, r + 1, c - 1, Element::Lava)
    ||| holds(g, w, h, r + 1, c + 1, Element::Lava)
}

/// Water moves as a liquid; then, if lava touches `(r, c)` diagonally, that
/// cell turns to stone.
pub open spec fn water_rule(g: Seq<Element>, w: int, h: int, r: int, c: int, coin: bool) -> Seq<
    Element,
> {
    let moved = liquid_move(g, w, h, r, c, coin);
    if lava_on_diagonal(moved, w, h, r, c) {
        moved.update(cell_index(w, r, c), Element::Stone)
    } else {
        moved
    }
}

/// The grid after the pass has visited `(r, c)`, by the material found there.
pub open spec fn cell_rule(
    g: Seq<Element>,
    w: int,
    h: int,
    r: int,
    c: int,
    ticks: u64,
    coin: bool,
) -> Seq<Element> {
    match g[cell_index(w, r, c)] {
        Element::Sand => sand_rule(g, w, h, r, c, ticks),
        Element::Water => water_rule(g, w, h, r, c, coin),
        Element::Lava => if ticks % LAVA_PERIOD == 0 {
            liquid_move(g, w, h, r, c, coin)
        } else {
            g
        },
        _ => g,
    }
}

/// The grid after the first `n` cells of row `r` were visited, left to right.
/// The cell at position `i` of the grid uses coin `coins[i]`.
pub open spec fn row_pass(
    g: Seq<Element>,
    w: int,
    h: int,
    r: int,
    n: nat,
    ticks: u64,
    coins: Seq<bool>,
) -> Seq<Element>
    decreases n,
{
    if n == 0 {
        g
    } else {
        let before = row_pass(g, w, h, r, (n - 1) as nat, ticks, coins);
        cell_rule(before, w, h, r, n - 1, ticks, coins[cell_index(w, r, n - 1)])
    }
}

/// The grid after the bottom `k` rows were swept, bottom row first.
pub open spec fn rows_pass(g: Seq<Element>, w: int, h: int, k: nat, ticks: u64, coins: Seq<bool>) -> Seq<
    Element,
>
    decreases k,
{
    if k == 0 {
        g
    } else {
        row_pass(rows_pass(g, w, h, (k - 1) as nat, ticks, coins), w, h, h - k, w as nat, ticks, coins)
    }
}

/// One full update pass over a grid of `w` columns and `h` rows.
pub open spec fn pass(g: Seq<Element>, w: int, h: int, ticks: u64, coins: Seq<bool>) -> Seq<Element> {
    rows_pass(g, w, h, h as nat, ticks, coins)
}

proof fn lemma_dims_fit(grid: &Grid)
    requires
        grid.wf(),
    ensures
        grid.height <= usize::MAX,
        grid.width <= usize::MAX,
{
    assert(grid.height <= grid.width * grid.height) by (nonlinear_arith)
        requires
            grid.width >= 1,
            grid.height >= 1,
    ;
    assert(grid.width <= grid.width * grid.height) by (nonlinear_arith)
        requires
            grid.width >= 1,
            grid.height >= 1,
    ;
}

/// Whether lava sits on one of the four diagonal neighbours of `(row, col)`.
fn touches_lava(grid: &Grid, row: usize, col: usize) -> (r: bool)
    requires
        grid.wf(),
        in_grid(grid.w(), grid.h(), row as int, col as int),
    ensures
        r == lava_on_diagonal(grid@, grid.w(), grid.h(), row as int, col as int),
{
    proof {
        lemma_dims_fit(grid);
    }
    let lava = [Element::Lava];
    let mut found = false;
    if row > 0 && col > 0 && cell_matches(grid, col - 1, row - 1, lava.as_slice()) {
        found = true;
    }
    if row > 0 && cell_matches(grid, col + 1, row - 1, lava.as_slice()) {
        found = true;
    }
    if col > 0 && cell_matches(grid, col - 1, row + 1, lava.as_slice()) {
        found = true;
    }
    if cell_matches(grid, col + 1, row + 1, lava.as_slice()) {
        found = true;
    }
    proof {
        assert(lava@ =~= seq![Element::Lava]);
    }
    found
}

/// Applies the rule of the material at `(row, col)` to that cell.
pub fn update_cell(grid: &mut Grid, row: usize, col: usize, ticks: u64, coin: bool)
    requires
        old(grid).wf(),
        in_grid(old(grid).w(), old(grid).h(), row as int, col as int),
    ensures
        final(grid).wf(),
        final(grid).width == old(grid).width,
        final(grid).height == old(grid).height,
        final(grid)@ == cell_rule(
            old(grid)@,
            old(grid).w(),
            old(grid).h(),
            row as int,
            col as int,
            ticks,
            coin,
        ),
{
    proof {
        lemma_dims_fit(grid);
        lemma_cell_index(grid.w(), grid.h(), row as int, col as int);
    }
    let cell = grid.cells[row * grid.width + col];
    match cell {
        Element::Sand => {
            let open_below = [Element::Air, Element::Water, Element::Lava];
            let liquids = [Element::Water, Element::Lava];
            proof {
                assert(open_below@ =~= seq![Element::Air, Element::Water, Element::Lava]);
                assert(liquids@ =~= seq![Element::Water, Element::Lava]);
                let b = grid.at(row + 1, col as int);
                if b == Element::Air {
                    assert(open_below@[0] == b);
                }
                if b == Element::Water {
                    assert(open_below@[1] == b);
                    assert(liquids@[0] == b);
                }
                if b == Element::Lava {
                    assert(open_below@[2] == b);
                    assert(liquids@[1] == b);
                }
            }
            if cell_matches(grid, col, row + 1, open_below.as_slice()) {
                if cell_matches(grid, col, row + 1, liquids.as_slice()) && ticks % SAND_SINK_PERIOD
                    != 0 {
                    return ;
                }
                move_cell(grid, col, row, 0, 1);
            } else if col > 0 && is_cell_empty(grid, col - 1, row) && is_cell_empty(
                grid,
                col - 1,
                row + 1,
            ) {
                move_cell(grid, col, row, -1, 1);
            } else if col + 1 < grid.width && is_cell_empty(grid, col + 1, row) && is_cell_empty(
                grid,
                col + 1,
                row + 1,
            ) {
                move_cell(grid, col, row, 1, 1);
            }
        },
        Element::Water | Element::Lava => {
            if cell == Element::Lava && ticks % LAVA_PERIOD != 0 {
                return ;
            }
            if is_cell_empty(grid, col, row + 1) {
                move_cell(grid, col, row, 0, 1);
            } else if coin {
                if is_cell_empty(grid, col + 1, row) {
                    move_cell(grid, col, row, 1, 0);
                }
            } else {
                if col > 0 && is_cell_empty(grid, col - 1, row) {
                    move_cell(grid, col, row, -1, 0);
                }
            }
            if cell == Element::Water {
                if touches_lava(grid, row, col) {
                    grid.set(row, col, Element::Stone);
                }
            }
        },
        _ => {},
    }
}

/// One update pass with the given coin flips: rows from the bottom up, each
/// row left to right, every cell by `update_cell`, in place.
pub fn update_pass(grid: &mut Grid, ticks: u64, coins: &Vec<bool>)
    requires
        old(grid).wf(),
        coins@.len() == old(grid).w() * old(grid).h(),
    ensures
        final(grid).wf(),
        final(grid).width == old(grid).width,
        final(grid).height == old(grid).height,
        final(grid)@ == pass(old(grid)@, old(grid).w(), old(grid).h(), ticks, coins@),
{
    let w = grid.width;
    let h = grid.height;
    let ghost g0 = grid@;
    let mut k: usize = 0;
    while k < h
        invariant
            grid.wf(),
            grid.width == w,
            grid.height == h,
            w == old(grid).width,
            h == old(grid).height,
            g0 == old(grid)@,
            coins@.len() == w * h,
            k <= h,
            grid@ == rows_pass(g0, w as int, h as int, k as nat, ticks, coins@),
        decreases h - k,
    {
        let row = h - 1 - k;
        let ghost start = grid@;
        let mut col: usize = 0;
        while col < w
            invariant
                grid.wf(),
                grid.width == w,
                grid.height == h,
                coins@.len() == w * h,
                row < h,
                col <= w,
                grid@ == row_pass(start, w as int, h as int, row as int, col as nat, ticks, coins@),
            decreases w - col,
        {
            proof {
                lemma_cell_index(w as int, h as int, row as int, col as int);
            }
            let coin = coins[row * w + col];
            update_cell(grid, row, col, ticks, coin);
            col = col + 1;
        }
        k = k + 1;
    }
}

/// One frame of the simulation: a fresh fair coin for every cell, then
/// `update_pass` with the clock's tick count.
pub fn step(grid: &mut Grid, clock: &TickClock)
    requires
        old(grid).wf(),
    ensures
        final(grid).wf(),
        final(grid).width == old(grid).width,
        final(grid).height == old(grid).height,
        exists|coins: Seq<bool>|
            coins.len() == old(grid).w() * old(grid).h() && final(grid)@ == #[trigger] pass(
                old(grid)@,
                old(grid).w(),
                old(grid).h(),
                clock.count,
                coins,
            ),
{
    let coins = draw_coins(grid.width * grid.height);
    update_pass(grid, clock.ticks(), &coins);
}

/// Whether a material never moves on its own.
pub open spec fn is_inert(m: Element) -> bool {
    m != Element::Sand && m != Element::Water && m != Element::Lava
}

/// Visiting cells that hold inert materials changes nothing.
proof fn lemma_row_pass_rest_inert(
    g: Seq<Element>,
    w: int,
    h: int,
    r: int,
    m: nat,
    n: nat,
    ticks: u64,
    coins: Seq<bool>,
)
    requires
        m <= n,
        forall|c: int|
            m <= c < n ==> #[trigger] is_inert(
                row_pass(g, w, h, r, m, ticks, coins)[cell_index(w, r, c)],
            ),
    ensures
        row_pass(g, w, h, r, n, ticks, coins) == row_pass(g, w, h, r, m, ticks, coins),
    decreases n,
{
    if n > m {
        lemma_row_pass_rest_inert(g, w, h, r, m, (n - 1) as nat, ticks, coins);
        assert(is_inert(row_pass(g, w, h, r, m, ticks, coins)[cell_index(w, r, n - 1)]));
    }
}

/// Sweeping rows whose cells all hold inert materials changes nothing.
proof fn lemma_rows_pass_rest_inert(
    g: Seq<Element>,
    w: int,
    h: int,
    k0: nat,
    k: nat,
    ticks: u64,
    coins: Seq<bool>,
)
    requires
        w > 0,
        k0 <= k <= h,
        forall|r: int, c: int|
            h - k <= r < h - k0 && 0 <= c < w ==> #[trigger] is_inert(
                rows_pass(g, w, h, k0, ticks, coins)[cell_index(w, r, c)],
            ),
    ensures
        rows_pass(g, w, h, k, ticks, coins) == rows_pass(g, w, h, k0, ticks, coins),
    decreases k,
{
    if k > k0 {
        lemma_rows_pass_rest_inert(g, w, h, k0, (k - 1) as nat, ticks, coins);
        let before = rows_pass(g, w, h, k0, ticks, coins);
        assert forall|c: int| 0 <= c < w implies #[trigger] is_inert(
            row_pass(before, w, h, h - k, 0, ticks, coins)[cell_index(w, h - k, c)],
        ) by {
            assert(is_inert(before[cell_index(w, h - k, c)]));
        }
        lemma_row_pass_rest_inert(before, w, h, h - k, 0, w as nat, ticks, coins);
    }
}

/// An all-`Air` grid is left unchanged by a pass, so clearing and then
/// updating leaves every cell `Air`.
pub proof fn lemma_pass_keeps_all_air(w: int, h: int, ticks: u64, coins: Seq<bool>)
    requires
        w > 0,
        h > 0,
    ensures
        pass(all_air(w * h), w, h, ticks, coins) == all_air(w * h),
{
    let g = all_air(w * h);
    assert forall|r: int, c: int| 0 <= r < h && 0 <= c < w implies #[trigger] is_inert(
        rows_pass(g, w, h, 0, ticks, coins)[cell_index(w, r, c)],
    ) by {
        lemma_cell_index(w, h, r, c);
    }
    lemma_rows_pass_rest_inert(g, w, h, 0, h as nat, ticks, coins);
}

/// A lone grain of sand with air below it falls by exactly one row in a pass.
pub proof fn lemma_lone_sand_falls_one_row(
    g: Seq<Element>,
    w: int,
    h: int,
    r: int,
    c: int,
    ticks: u64,
    coins: Seq<bool>,
)
    requires
        w > 0,
        g.len() == w * h,
        in_grid(w, h, r, c),
        r + 1 < h,
        g[cell_index(w, r, c)] == Element::Sand,
        forall|i: int| 0 <= i < g.len() && i != cell_index(w, r, c) ==> g[i] == Element::Air,
    ensures
        pass(g, w, h, ticks, coins) == g.update(cell_index(w, r, c), Element::Air).update(
            cell_index(w, r + 1, c),
            Element::Sand,
        ),
{
    let src = cell_index(w, r, c);
    let dst = cell_index(w, r + 1, c);
    let moved = g.update(src, Element::Air).update(dst, Element::Sand);
    lemma_cell_index(w, h, r, c);
    lemma_cell_index(w, h, r + 1, c);
    // Rows below the grain hold only air.
    assert forall|rr: int, cc: int| h - (h - r - 1) <= rr < h && 0 <= cc < w implies #[trigger] is_inert(
        rows_pass(g, w, h, 0, ticks, coins)[cell_index(w, rr, cc)],
    ) by {
        lemma_cell_index(w, h, rr, cc);
    }
    lemma_rows_pass_rest_inert(g, w, h, 0, (h - r - 1) as nat, ticks, coins);
    // In the grain's row, the cells left of it hold only air.
    assert forall|cc: int| 0 <= cc < c implies #[trigger] is_inert(
        row_pass(g, w, h, r, 0, ticks, coins)[cell_index(w, r, cc)],
    ) by {
        lemma_cell_index(w, h, r, cc);
    }
    lemma_row_pass_rest_inert(g, w, h, r, 0, c as nat, ticks, coins);
    // The grain itself falls.
    assert(holds(g, w, h, r + 1, c, Element::Air));
    assert(swap_at(g, w, r, c, r + 1, c) =~= moved);
    assert(row_pass(g, w, h, r, (c + 1) as nat, ticks, coins) == moved);
    // After it, the grid holds air everywhere but below the grain.
    assert forall|cc: int| c + 1 <= cc < w implies #[trigger] is_inert(
        row_pass(g, w, h, r, (c + 1) as nat, ticks, coins)[cell_index(w, r, cc)],
    ) by {
        lemma_cell_index(w, h, r, cc);
    }
    lemma_row_pass_rest_inert(g, w, h, r, (c + 1) as nat, w as nat, ticks, coins);
    assert(rows_pass(g, w, h, (h - r) as nat, ticks, coins) == moved);
    assert forall|rr: int, cc: int| h - h <= rr < h - (h - r) && 0 <= cc < w implies #[trigger] is_inert(
        rows_pass(g, w, h, (h - r) as nat, ticks, coins)[cell_index(w, rr, cc)],
    ) by {
        lemma_cell_index(w, h, rr, cc);
    }
    lemma_rows_pass_rest_inert(g, w, h, (h - r) as nat, h as nat, ticks, coins);
}

/// Sand with stone below it and stone on its left never moves into the cell
/// down-left of it, even when that cell is air: it cannot cut the corner.
pub proof fn lemma_sand_corner_blocked(
    g: Seq<Element>,
    w: int,
    h: int,
    r: int,
    c: int,
    ticks: u64,
    coin: bool,
)
    requires
        w > 0,
        g.len() == w * h,
        in_grid(w, h, r, c),
        in_grid(w, h, r + 1, c - 1),
        g[cell_index(w, r, c)] == Element::Sand,
        g[cell_index(w, r + 1, c)] == Element::Stone,
        g[cell_index(w, r, c - 1)] == Element::Stone,
    ensures
        cell_rule(g, w, h, r, c, ticks, coin)[cell_index(w, r + 1, c - 1)] == g[cell_index(
            w,
            r + 1,
            c - 1,
        )],
        cell_rule(g, w, h, r, c, ticks, coin)[cell_index(w, r, c - 1)] == Element::Stone,
{
    lemma_cell_index(w, h, r, c);
    lemma_cell_index(w, h, r + 1, c);
    lemma_cell_index(w, h, r, c - 1);
    lemma_cell_index(w, h, r + 1, c - 1);
    if in_grid(w, h, r + 1, c + 1) {
        lemma_cell_index(w, h, r + 1, c + 1);
        lemma_cell_index(w, h, r, c + 1);
    }
}

/// Sand resting on water sinks into it exactly on the ticks that are a
/// multiple of `SAND_SINK_PERIOD`, and stays put on all others.
pub proof fn lemma_sand_sinks_on_period(
    g: Seq<Element>,
    w: int,
    h: int,
    r: int,
    c: int,
    ticks: u64,
    coin: bool,
)
    requires
        w > 0,
        g.len() == w * h,
        in_grid(w, h, r, c),
        r + 1 < h,
        g[cell_index(w, r, c)] == Element::Sand,
        g[cell_index(w, r + 1, c)] == Element::Water,
    ensures
        ticks % SAND_SINK_PERIOD != 0 ==> cell_rule(g, w, h, r, c, ticks, coin) == g,
        ticks % SAND_SINK_PERIOD == 0 ==> cell_rule(g, w, h, r, c, ticks, coin) == g.update(
            cell_index(w, r, c),
            Element::Water,
        ).update(cell_index(w, r + 1, c), Element::Sand),
{
    lemma_cell_index(w, h, r, c);
    lemma_cell_index(w, h, r + 1, c);
    if ticks % SAND_SINK_PERIOD == 0 {
        assert(swap_at(g, w, r, c, r + 1, c) =~= g.update(cell_index(w, r, c), Element::Water).update(
            cell_index(w, r + 1, c),
            Element::Sand,
        ));
    }
}

/// Water with lava on one of its four diagonal neighbours, when its turn in
/// the pass comes, leaves stone in its cell whether or not it moved.
pub proof fn lemma_water_by_lava_solidifies(
    g: Seq<Element>,
    w: int,
    h: int,
    r: int,
    c: int,
    ticks: u64,
    coin: bool,
)
    requires
        w > 0,
        g.len() == w * h,
        in_grid(w, h, r, c),
        g[cell_index(w, r, c)] == Element::Water,
        lava_on_diagonal(g, w, h, r, c),
    ensures
        cell_rule(g, w, h, r, c, ticks, coin)[cell_index(w, r, c)] == Element::Stone,
{
    lemma_cell_index(w, h, r, c);
    if in_grid(w, h, r + 1, c) {
        lemma_cell_index(w, h, r + 1, c);
    }
    if in_grid(w, h, r, c + 1) {
        lemma_cell_index(w, h, r, c + 1);
    }
    if in_grid(w, h, r, c - 1) {
        lemma_cell_index(w, h, r, c - 1);
    }
    if in_grid(w, h, r - 1, c - 1) {
        lemma_cell_index(w, h, r - 1, c - 1);
    }
    if in_grid(w, h, r - 1, c + 1) {
        lemma_cell_index(w, h, r - 1, c + 1);
    }
    if in_grid(w, h, r + 1, c - 1) {
        lemma_cell_index(w, h, r + 1, c - 1);
    }
    if in_grid(w, h, r + 1, c + 1) {
        lemma_cell_index(w, h, r + 1, c + 1);
    }
    let moved = liquid_move(g, w, h, r, c, coin);
    assert(lava_on_diagonal(moved, w, h, r, c));
}

/// Materials that only ever change places: nothing turns into them or out of them.
pub open spec fn is_conserved(m: Element) -> bool {
    m != Element::Air && m != Element::Water && m != Element::Stone
}

/// Whether the grid cannot turn water into stone: it holds no lava, or no water.
pub open spec fn cannot_solidify(g: Seq<Element>) -> bool {
    g.to_multiset().count(Element::Lava) == 0 || g.to_multiset().count(Element::Water) == 0
}

proof fn lemma_swap_keeps_multiset(g: Seq<Element>, i: int, j: int)
    requires
        0 <= i < g.len(),
        0 <= j < g.len(),
    ensures
        swap_cells(g, i, j).to_multiset() == g.to_multiset(),
        swap_cells(g, i, j).len() == g.len(),
{
    broadcast use vstd::multiset::group_multiset_axioms;

    let g1 = g.update(i, g[j]);
    to_multiset_update(g, i, g[j]);
    to_multiset_update(g1, j, g[i]);
    assert(g1[j] == g[j]);
    assert(g.contains(g[i]));
    to_multiset_contains(g, g[i]);
    let ms = g.to_multiset();
    let ms1 = ms.insert(g[j]).remove(g[i]);
    assert(ms.insert(g[j]).count(g[i]) > 0);
    assert(ms1.insert(g[i]).count(g[j]) > 0);
    assert forall|x: Element| #[trigger] swap_cells(g, i, j).to_multiset().count(x) == ms.count(x) by {
    }
    assert(swap_cells(g, i, j).to_multiset() =~= g.to_multiset());
}

/// Swapping `(r, c)` with a neighbour inside the grid keeps the multiset of materials.
proof fn lemma_swap_at_keeps_multiset(g: Seq<Element>, w: int, h: int, r: int, c: int, r2: int, c2: int)
    requires
        w > 0,
        g.len() == w * h,
        in_grid(w, h, r, c),
    ensures
        in_grid(w, h, r2, c2) ==> swap_at(g, w, r, c, r2, c2).to_multiset() == g.to_multiset()
            && swap_at(g, w, r, c, r2, c2).len() == g.len(),
{
    lemma_cell_index(w, h, r, c);
    if in_grid(w, h, r2, c2) {
        lemma_cell_index(w, h, r2, c2);
        lemma_swap_keeps_multiset(g, cell_index(w, r2, c2), cell_index(w, r, c));
    }
}

proof fn lemma_cell_rule_conserves(
    g: Seq<Element>,
    w: int,
    h: int,
    r: int,
    c: int,
    ticks: u64,
    coin: bool,
)
    requires
        w > 0,
        g.len() == w * h,
        in_grid(w, h, r, c),
    ensures
        cell_rule(g, w, h, r, c, ticks, coin).len() == g.len(),
        forall|m: Element|
            is_conserved(m) ==> #[trigger] cell_rule(g, w, h, r, c, ticks, coin).to_multiset().count(
                m,
            ) == g.to_multiset().count(m),
        cannot_solidify(g) ==> cell_rule(g, w, h, r, c, ticks, coin).to_multiset()
            == g.to_multiset(),
{
    broadcast use vstd::multiset::group_multiset_axioms;

    let i = cell_index(w, r, c);
    lemma_cell_index(w, h, r, c);
    lemma_swap_at_keeps_multiset(g, w, h, r, c, r + 1, c);
    lemma_swap_at_keeps_multiset(g, w, h, r, c, r + 1, c - 1);
    lemma_swap_at_keeps_multiset(g, w, h, r, c, r + 1, c + 1);
    lemma_swap_at_keeps_multiset(g, w, h, r, c, r, c - 1);
    lemma_swap_at_keeps_multiset(g, w, h, r, c, r, c + 1);
    if g[i] == Element::Water {
        let moved = liquid_move(g, w, h, r, c, coin);
        assert(moved.to_multiset() == g.to_multiset() && moved.len() == g.len());
        if lava_on_diagonal(moved, w, h, r, c) {
            if in_grid(w, h, r + 1, c) {
                lemma_cell_index(w, h, r + 1, c);
            }
            if in_grid(w, h, r, c + 1) {
                lemma_cell_index(w, h, r, c + 1);
            }
            if in_grid(w, h, r, c - 1) {
                lemma_cell_index(w, h, r, c - 1);
            }
            // The cell that turns to stone holds the water, or the air it left behind.
            assert(moved[i] == Element::Water || moved[i] == Element::Air);
            to_multiset_update(moved, i, Element::Stone);
            // Turning to stone needs both lava and water on the grid.
            let d = if holds(moved, w, h, r - 1, c - 1, Element::Lava) {
                cell_index(w, r - 1, c - 1)
            } else if holds(moved, w, h, r - 1, c + 1, Element::Lava) {
                cell_index(w, r - 1, c + 1)
            } else if holds(moved, w, h, r + 1, c - 1, Element::Lava) {
                cell_index(w, r + 1, c - 1)
            } else {
                cell_index(w, r + 1, c + 1)
            };
            if holds(moved, w, h, r - 1, c - 1, Element::Lava) {
                lemma_cell_index(w, h, r - 1, c - 1);
            } else if holds(moved, w, h, r - 1, c + 1, Element::Lava) {
                lemma_cell_index(w, h, r - 1, c + 1);
            } else if holds(moved, w, h, r + 1, c - 1, Element::Lava) {
                lemma_cell_index(w, h, r + 1, c - 1);
            } else {
                lemma_cell_index(w, h, r + 1, c + 1);
            }
            assert(moved[d] == Element::Lava);
            assert(moved.contains(Element::Lava));
            assert(g.contains(Element::Water));
            to_multiset_contains(moved, Element::Lava);
            to_multiset_contains(g, Element::Water);
        }
    }
}

proof fn lemma_row_pass_conserves(
    g: Seq<Element>,
    w: int,
    h: int,
    r: int,
    n: nat,
    ticks: u64,
    coins: Seq<bool>,
)
    requires
        w > 0,
        g.len() == w * h,
        0 <= r < h,
        n <= w,
    ensures
        row_pass(g, w, h, r, n, ticks, coins).len() == g.len(),
        forall|m: Element|
            is_conserved(m) ==> #[trigger] row_pass(g, w, h, r, n, ticks, coins).to_multiset().count(
                m,
            ) == g.to_multiset().count(m),
        cannot_solidify(g) ==> row_pass(g, w, h, r, n, ticks, coins).to_multiset()
            == g.to_multiset(),
    decreases n,
{
    if n > 0 {
        lemma_row_pass_conserves(g, w, h, r, (n - 1) as nat, ticks, coins);
        let before = row_pass(g, w, h, r, (n - 1) as nat, ticks, coins);
        lemma_cell_rule_conserves(
            before,
            w,
            h,
            r,
            n - 1,
            ticks,
            coins[cell_index(w, r, n - 1)],
        );
    }
}

proof fn lemma_rows_pass_conserves(
    g: Seq<Element>,
    w: int,
    h: int,
    k: nat,
    ticks: u64,
    coins: Seq<bool>,
)
    requires
        w > 0,
        g.len() == w * h,
        k <= h,
    ensures
        rows_pass(g, w, h, k, ticks, coins).len() == g.len(),
        forall|m: Element|
            is_conserved(m) ==> #[trigger] rows_pass(g, w, h, k, ticks, coins).to_multiset().count(m)
                == g.to_multiset().count(m),
        cannot_solidify(g) ==> rows_pass(g, w, h, k, ticks, coins).to_multiset()
            == g.to_multiset(),
    decreases k,
{
    if k > 0 {
        lemma_rows_pass_conserves(g, w, h, (k - 1) as nat, ticks, coins);
        let before = rows_pass(g, w, h, (k - 1) as nat, ticks, coins);
        lemma_row_pass_conserves(before, w, h, h - k, w as nat, ticks, coins);
    }
}

/// A pass never creates or destroys sand, lava, grass or win-area cells: it
/// only moves them. The only change of material it makes is to turn a cell
/// with lava on its diagonal into stone.
pub proof fn lemma_pass_conserves_moving_material(
    g: Seq<Element>,
    w: int,
    h: int,
    ticks: u64,
    coins: Seq<bool>,
    m: Element,
)
    requires
        w > 0,
        h > 0,
        g.len() == w * h,
        is_conserved(m),
    ensures
        pass(g, w, h, ticks, coins).to_multiset().count(m) == g.to_multiset().count(m),
{
    lemma_rows_pass_conserves(g, w, h, h as nat, ticks, coins);
}

/// When no cell can turn to stone (the grid holds no lava, or no water), a
/// pass only exchanges cells: the multiset of materials is exactly kept.
pub proof fn lemma_pass_conserves_material(g: Seq<Element>, w: int, h: int, ticks: u64, coins: Seq<bool>)
    requires
        w > 0,
        h > 0,
        g.len() == w * h,
        !g.contains(Element::Lava) || !g.contains(Element::Water),
    ensures
        pass(g, w, h, ticks, coins).to_multiset() == g.to_multiset(),
{
    to_multiset_contains(g, Element::Lava);
    to_multiset_contains(g, Element::Water);
    lemma_rows_pass_conserves(g, w, h, h as nat, ticks, coins);
}

/// Visiting `(r, c)` touches no row above `r`, never changes stone, and in row
/// `r` changes no cell but `(r, c)` and air.
proof fn lemma_cell_rule_frame(
    g: Seq<Element>,
    w: int,
    h: int,
    r: int,
    c: int,
    ticks: u64,
    coin: bool,
)
    requires
        w > 0,
        g.len() == w * h,
        in_grid(w, h, r, c),
    ensures
        cell_rule(g, w, h, r, c, ticks, coin).len() == g.len(),
        forall|j: int| 0 <= j < r * w ==> #[trigger] cell_rule(g, w, h, r, c, ticks, coin)[j] == g[j],
        forall|j: int|
            0 <= j < g.len() && g[j] == Element::Stone ==> #[trigger] cell_rule(
                g,
                w,
                h,
                r,
                c,
                ticks,
                coin,
            )[j] == Element::Stone,
        forall|j: int|
            r * w <= j < r * w + w && j != cell_index(w, r, c) && g[j] != Element::Air
                ==> #[trigger] cell_rule(g, w, h, r, c, ticks, coin)[j] == g[j],
{
    assert((r + 1) * w == r * w + w) by (nonlinear_arith);
    assert(r * w + w <= w * h) by (nonlinear_arith)
        requires
            0 <= r < h,
            w > 0,
    ;
    lemma_cell_index(w, h, r, c);
    if in_grid(w, h, r + 1, c) {
        lemma_cell_index(w, h, r + 1, c);
    }
    if in_grid(w, h, r + 1, c - 1) {
        lemma_cell_index(w, h, r + 1, c - 1);
    }
    if in_grid(w, h, r + 1, c + 1) {
        lemma_cell_index(w, h, r + 1, c + 1);
    }
    if in_grid(w, h, r, c - 1) {
        lemma_cell_index(w, h, r, c - 1);
    }
    if in_grid(w, h, r, c + 1) {
        lemma_cell_index(w, h, r, c + 1);
    }
}

/// Visiting cells `m..n` of row `r` keeps the rows above, keeps stone, and
/// keeps the cells of row `r` from column `n` on that do not hold air.
proof fn lemma_row_pass_frame(
    g: Seq<Element>,
    w: int,
    h: int,
    r: int,
    m: nat,
    n: nat,
    ticks: u64,
    coins: Seq<bool>,
)
    requires
        w > 0,
        g.len() == w * h,
        0 <= r < h,
        m <= n <= w,
    ensures
        row_pass(g, w, h, r, n, ticks, coins).len() == g.len(),
        forall|j: int|
            0 <= j < r * w ==> #[trigger] row_pass(g, w, h, r, n, ticks, coins)[j] == row_pass(
                g,
                w,
                h,
                r,
                m,
                ticks,
                coins,
            )[j],
        forall|j: int|
            0 <= j < g.len() && row_pass(g, w, h, r, m, ticks, coins)[j] == Element::Stone
                ==> #[trigger] row_pass(g, w, h, r, n, ticks, coins)[j] == Element::Stone,
        forall|c2: int|
            n <= c2 < w && row_pass(g, w, h, r, m, ticks, coins)[cell_index(w, r, c2)]
                != Element::Air ==> #[trigger] row_pass(g, w, h, r, n, ticks, coins)[cell_index(
                w,
                r,
                c2,
            )] == row_pass(g, w, h, r, m, ticks, coins)[cell_index(w, r, c2)],
    decreases n,
{
    lemma_row_pass_conserves(g, w, h, r, m, ticks, coins);
    if n > m {
        lemma_row_pass_frame(g, w, h, r, m, (n - 1) as nat, ticks, coins);
        let before = row_pass(g, w, h, r, (n - 1) as nat, ticks, coins);
        lemma_row_pass_conserves(g, w, h, r, (n - 1) as nat, ticks, coins);
        lemma_cell_rule_frame(before, w, h, r, n - 1, ticks, coins[cell_index(w, r, n - 1)]);
        assert forall|c2: int|
            n <= c2 < w && row_pass(g, w, h, r, m, ticks, coins)[cell_index(w, r, c2)]
                != Element::Air implies #[trigger] row_pass(g, w, h, r, n, ticks, coins)[cell_index(
            w,
            r,
            c2,
        )] == row_pass(g, w, h, r, m, ticks, coins)[cell_index(w, r, c2)] by {
            lemma_cell_index(w, h, r, c2);
            lemma_cell_index(w, h, r, n - 1);
        }
    }
}

/// Sweeping further rows, from the bottom `k0` to the bottom `k`, keeps the
/// rows above them and keeps stone.
proof fn lemma_rows_pass_frame(
    g: Seq<Element>,
    w: int,
    h: int,
    k0: nat,
    k: nat,
    ticks: u64,
    coins: Seq<bool>,
)
    requires
        w > 0,
        g.len() == w * h,
        k0 <= k <= h,
    ensures
        forall|j: int|
            0 <= j < (h - k) * w ==> #[trigger] rows_pass(g, w, h, k, ticks, coins)[j] == rows_pass(
                g,
                w,
                h,
                k0,
                ticks,
                coins,
            )[j],
        forall|j: int|
            0 <= j < g.len() && rows_pass(g, w, h, k0, ticks, coins)[j] == Element::Stone
                ==> #[trigger] rows_pass(g, w, h, k, ticks, coins)[j] == Element::Stone,
    decreases k,
{
    if k > k0 {
        lemma_rows_pass_frame(g, w, h, k0, (k - 1) as nat, ticks, coins);
        lemma_rows_pass_conserves(g, w, h, (k - 1) as nat, ticks, coins);
        let before = rows_pass(g, w, h, (k - 1) as nat, ticks, coins);
        lemma_row_pass_frame(before, w, h, h - k, 0, w as nat, ticks, coins);
        assert((h - k) * w <= (h - (k - 1)) * w) by (nonlinear_arith)
            requires
                w > 0,
        ;
    }
}

/// Water with lava on one of its two upper diagonal neighbours has turned to
/// stone after a full pass: rows are swept bottom-up, so that lava is still
/// in place when the water's turn comes, and nothing later moves stone.
pub proof fn lemma_pass_solidifies_water_below_lava(
    g: Seq<Element>,
    w: int,
    h: int,
    r: int,
    c: int,
    ticks: u64,
    coins: Seq<bool>,
)
    requires
        w > 0,
        g.len() == w * h,
        in_grid(w, h, r, c),
        g[cell_index(w, r, c)] == Element::Water,
        holds(g, w, h, r - 1, c - 1, Element::Lava) || holds(g, w, h, r - 1, c + 1, Element::Lava),
    ensures
        pass(g, w, h, ticks, coins)[cell_index(w, r, c)] == Element::Stone,
{
    let i = cell_index(w, r, c);
    lemma_cell_index(w, h, r, c);
    assert((r - 1) * w + w == r * w) by (nonlinear_arith);
    assert(r * w + w == (h - (h - r - 1)) * w) by (nonlinear_arith);
    if in_grid(w, h, r - 1, c - 1) {
        lemma_cell_index(w, h, r - 1, c - 1);
    }
    if in_grid(w, h, r - 1, c + 1) {
        lemma_cell_index(w, h, r - 1, c + 1);
    }
    // The rows below do not reach row `r` or above.
    lemma_rows_pass_frame(g, w, h, 0, (h - r - 1) as nat, ticks, coins);
    lemma_rows_pass_conserves(g, w, h, (h - r - 1) as nat, ticks, coins);
    let g1 = rows_pass(g, w, h, (h - r - 1) as nat, ticks, coins);
    assert(g1[i] == Element::Water);
    // The cells left of the water in its row leave it and the lava in place.
    lemma_row_pass_frame(g1, w, h, r, 0, c as nat, ticks, coins);
    lemma_row_pass_conserves(g1, w, h, r, c as nat, ticks, coins);
    let g2 = row_pass(g1, w, h, r, c as nat, ticks, coins);
    assert(g2[i] == Element::Water);
    assert(lava_on_diagonal(g2, w, h, r, c));
    // The water's own turn leaves stone.
    lemma_water_by_lava_solidifies(g2, w, h, r, c, ticks, coins[i]);
    assert(row_pass(g1, w, h, r, (c + 1) as nat, ticks, coins)[i] == Element::Stone);
    // Nothing after it changes stone.
    lemma_row_pass_frame(g1, w, h, r, (c + 1) as nat, w as nat, ticks, coins);
    lemma_rows_pass_frame(g, w, h, (h - r) as nat, h as nat, ticks, coins);
}

} // verus!
