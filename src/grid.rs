use vstd::prelude::*;
use vstd::arithmetic::div_mod::{
    lemma_fundamental_div_mod,
    lemma_fundamental_div_mod_converse,
    lemma_multiply_divide_lt,
};
use crate::element::Element;

verus! {

/// Whether `(r, c)` lies inside a grid of `w` columns and `h` rows.
pub open spec fn in_grid(w: int, h: int, r: int, c: int) -> bool {
    0 <= r < h && 0 <= c < w
}

/// Cells are stored row by row: `(r, c)` lives at `r * w + c`.
pub open spec fn cell_index(w: int, r: int, c: int) -> int {
    r * w + c
}

/// Whether `(r, c)` lies inside the grid and holds `m`.
pub open spec fn holds(g: Seq<Element>, w: int, h: int, r: int, c: int, m: Element) -> bool {
    in_grid(w, h, r, c) && g[cell_index(w, r, c)] == m
}

/// The cells `g` with the contents of positions `i` and `j` exchanged.
pub open spec fn swap_cells(g: Seq<Element>, i: int, j: int) -> Seq<Element> {
    g.update(i, g[j]).update(j, g[i])
}

/// A grid of `w * h` cells, every one of them `Air`.
pub open spec fn all_air(n: int) -> Seq<Element> {
    Seq::new(n as nat, |i: int| Element::Air)
}

pub proof fn lemma_cell_index(w: int, h: int, r: int, c: int)
    requires
        in_grid(w, h, r, c),
    ensures
        0 <= cell_index(w, r, c) < w * h,
        cell_index(w, r, c) / w == r,
        cell_index(w, r, c) % w == c,
{
    assert(0 <= r * w + c < w * h) by (nonlinear_arith)
        requires
            0 <= r < h,
            0 <= c < w,
    ;
    lemma_fundamental_div_mod_converse(r * w + c, w, r, c);
}

/// Every position of the flat storage is the index of exactly one cell.
pub proof fn lemma_index_cell(w: int, h: int, i: int)
    requires
        0 < w,
        0 <= i < w * h,
    ensures
        in_grid(w, h, i / w, i % w),
        cell_index(w, i / w, i % w) == i,
{
    lemma_fundamental_div_mod(i, w);
    lemma_multiply_divide_lt(i, w, h);
    assert(i / w >= 0) by (nonlinear_arith)
        requires
            0 < w,
            0 <= i,
    ;
    assert((i / w) * w == w * (i / w)) by (nonlinear_arith);
}

/// Why a grid operation could not be carried out.
#[derive(Copy, Clone, Debug, PartialEq, Eq, Structural)]
pub enum GridError {
    /// A grid was asked for with no rows, no columns, or more cells than fit in memory.
    InvalidConfiguration,
    /// A coordinate outside the grid was read.
    OutOfBounds,
}

/// A fixed-size lattice of materials, stored row by row, row 0 at the top.
pub struct Grid {
    pub width: usize,
    pub height: usize,
    pub cells: Vec<Element>,
}

impl View for Grid {
    type V = Seq<Element>;

    open spec fn view(&self) -> Seq<Element> {
        self.cells@
    }
}

impl Grid {
    /// Well-formed: at least one row and one column, and one cell per position.
    pub open spec fn wf(&self) -> bool {
        &&& self.width > 0
        &&& self.height > 0
        &&& self.width * self.height <= usize::MAX
        &&& self.cells@.len() == self.width * self.height
    }

    pub open spec fn w(&self) -> int {
        self.width as int
    }

    pub open spec fn h(&self) -> int {
        self.height as int
    }

    /// The material at `(r, c)`; meaningful for positions inside the grid.
    pub open spec fn at(&self, r: int, c: int) -> Element {
        self.cells@[cell_index(self.width as int, r, c)]
    }

    /// A grid of `width` columns and `height` rows, all `Air`.
    pub fn new(width: usize, height: usize) -> (r: Result<Grid, GridError>)
        ensures
            r is Ok <==> (width > 0 && height > 0 && width * height <= usize::MAX),
            r is Err ==> r == Err::<Grid, GridError>(GridError::InvalidConfiguration),
            r matches Ok(g) ==> {
                &&& g.wf()
                &&& g.width == width
                &&& g.height == height
                &&& g@ == all_air(width * height)
            },
    {
        if width == 0 || height == 0 {
            return Err(GridError::InvalidConfiguration);
        }
        let n = match width.checked_mul(height) {
            Some(n) => n,
            None => {
                return Err(GridError::InvalidConfiguration);
            },
        };
        let mut cells: Vec<Element> = Vec::new();
        let mut i: usize = 0;
        while i < n
            invariant
                i <= n,
                cells@ == all_air(i as int),
            decreases n - i,
        {
            cells.push(Element::Air);
            i = i + 1;
            assert(cells@ =~= all_air(i as int));
        }
        Ok(Grid { width, height, cells })
    }

    pub fn width(&self) -> (r: usize)
        ensures
            r == self.width,
    {
        self.width
    }

    pub fn height(&self) -> (r: usize)
        ensures
            r == self.height,
    {
        self.height
    }

    /// The material at `(row, col)`, or `OutOfBounds` outside the grid.
    pub fn get(&self, row: usize, col: usize) -> (r: Result<Element, GridError>)
        requires
            self.wf(),
        ensures
            in_grid(self.w(), self.h(), row as int, col as int) ==> r == Ok::<Element, GridError>(
                self.at(row as int, col as int),
            ),
            !in_grid(self.w(), self.h(), row as int, col as int) ==> r == Err::<Element, GridError>(
                GridError::OutOfBounds,
            ),
    {
        if row < self.height && col < self.width {
            proof {
                lemma_cell_index(self.w(), self.h(), row as int, col as int);
            }
            Ok(self.cells[row * self.width + col])
        } else {
            Err(GridError::OutOfBounds)
        }
    }

    /// Writes `m` at `(row, col)`; a position outside the grid is left alone.
    pub fn set(&mut self, row: usize, col: usize, m: Element)
        requires
            old(self).wf(),
        ensures
            final(self).wf(),
            final(self).width == old(self).width,
            final(self).height == old(self).height,
            in_grid(old(self).w(), old(self).h(), row as int, col as int) ==> final(self)@ == old(
                self,
            )@.update(cell_index(old(self).w(), row as int, col as int), m),
            !in_grid(old(self).w(), old(self).h(), row as int, col as int) ==> final(self)@ == old(
                self,
            )@,
    {
        if row < self.height && col < self.width {
            proof {
                lemma_cell_index(self.w(), self.h(), row as int, col as int);
            }
            let i = row * self.width + col;
            self.cells.set(i, m);
        }
    }

    /// Exchanges the materials of two cells.
    pub fn swap(&mut self, row_a: usize, col_a: usize, row_b: usize, col_b: usize)
        requires
            old(self).wf(),
            in_grid(old(self).w(), old(self).h(), row_a as int, col_a as int),
            in_grid(old(self).w(), old(self).h(), row_b as int, col_b as int),
        ensures
            final(self).wf(),
            final(self).width == old(self).width,
            final(self).height == old(self).height,
            final(self)@ == swap_cells(
                old(self)@,
                cell_index(old(self).w(), row_a as int, col_a as int),
                cell_index(old(self).w(), row_b as int, col_b as int),
            ),
    {
        proof {
            lemma_cell_index(self.w(), self.h(), row_a as int, col_a as int);
            lemma_cell_index(self.w(), self.h(), row_b as int, col_b as int);
        }
        let i = row_a * self.width + col_a;
        let j = row_b * self.width + col_b;
        let a = self.cells[i];
        let b = self.cells[j];
        self.cells.set(i, b);
        self.cells.set(j, a);
    }

    /// Sets every cell to `Air`.
    pub fn clear(&mut self)
        requires
            old(self).wf(),
        ensures
            final(self).wf(),
            final(self).width == old(self).width,
            final(self).height == old(self).height,
            final(self)@ == all_air(old(self).w() * old(self).h()),
    {
        let n = self.cells.len();
        let mut i: usize = 0;
        while i < n
            invariant
                self.wf(),
                self.width == old(self).width,
                self.height == old(self).height,
                n == self.cells@.len(),
                i <= n,
                forall|k: int| 0 <= k < i ==> self.cells@[k] == Element::Air,
            decreases n - i,
        {
            self.cells.set(i, Element::Air);
            i = i + 1;
        }
        assert(self@ =~= all_air(self.w() * self.h()));
    }
}

/// The coordinate `base + delta`.
pub open spec fn offset(base: usize, delta: i32) -> int {
    base as int + delta as int
}

/// Exchanges the cell at `(row, col)` with the one `move_y` rows and `move_x`
/// columns away.
pub fn move_cell(grid: &mut Grid, col: usize, row: usize, move_x: i32, move_y: i32)
    requires
        old(grid).wf(),
        in_grid(old(grid).w(), old(grid).h(), row as int, col as int),
        in_grid(old(grid).w(), old(grid).h(), offset(row, move_y), offset(col, move_x)),
    ensures
        final(grid).wf(),
        final(grid).width == old(grid).width,
        final(grid).height == old(grid).height,
        final(grid)@ == swap_cells(
            old(grid)@,
            cell_index(old(grid).w(), offset(row, move_y), offset(col, move_x)),
            cell_index(old(grid).w(), row as int, col as int),
        ),
{
    let move_row: usize = if move_y < 0 {
        row - ((0 - move_y as i64) as usize)
    } else {
        row + move_y as usize
    };
    let move_col: usize = if move_x < 0 {
        col - ((0 - move_x as i64) as usize)
    } else {
        col + move_x as usize
    };
    grid.swap(move_row, move_col, row, col);
}

/// Whether `(row, col)` lies in the grid and holds one of `elmnts`.
pub fn cell_matches(grid: &Grid, col: usize, row: usize, elmnts: &[Element]) -> (r: bool)
    requires
        grid.wf(),
    ensures
        r == (in_grid(grid.w(), grid.h(), row as int, col as int) && elmnts@.contains(
            grid.at(row as int, col as int),
        )),
{
    if row >= grid.height || col >= grid.width {
        return false;
    }
    proof {
        lemma_cell_index(grid.w(), grid.h(), row as int, col as int);
    }
    let here = grid.cells[row * grid.width + col];
    let mut i: usize = 0;
    while i < elmnts.len()
        invariant
            i <= elmnts@.len(),
            in_grid(grid.w(), grid.h(), row as int, col as int),
            here == grid.at(row as int, col as int),
            forall|k: int| 0 <= k < i ==> elmnts@[k] != here,
        decreases elmnts@.len() - i,
    {
        let e = elmnts[i];
        if e == here {
            assert(elmnts@[i as int] == here);
            return true;
        }
        i = i + 1;
    }
    false
}

/// Whether `(row, col)` lies in the grid and holds `Air`.
pub fn is_cell_empty(grid: &Grid, col: usize, row: usize) -> (r: bool)
    requires
        grid.wf(),
    ensures
        r == holds(grid@, grid.w(), grid.h(), row as int, col as int, Element::Air),
{
    let air = [Element::Air];
    let r = cell_matches(grid, col, row, air.as_slice());
    proof {
        if in_grid(grid.w(), grid.h(), row as int, col as int) && grid.at(row as int, col as int) == Element::Air {
            assert(air@[0] == Element::Air);
        }
    }
    r
}

} // verus!
