//! Flat indices and integer coordinates of a dense rectangular grid.

use vstd::prelude::*;

verus! {

/// A pair of signed integer components: a grid coordinate, or a position in
/// world space measured in whole units.
#[derive(Clone, Copy, Debug, PartialEq, Eq, Structural)]
pub struct Vec2 {
    pub x: i32,
    pub y: i32,
}

/// Greatest width or height of a grid: every coordinate must be an `i32`.
pub const MAX_SIDE: usize = 0x7fff_ffff;

/// The width and height of a grid; both are positive, neither exceeds
/// [`MAX_SIDE`], and the number of cells fits a `usize`.
#[derive(Clone, Copy, Debug)]
pub struct GridSize {
    width: usize,
    height: usize,
}

/// Whether `width` by `height` is an admissible grid.
pub open spec fn valid_dimensions(width: int, height: int) -> bool {
    &&& 0 < width <= MAX_SIDE
    &&& 0 < height <= MAX_SIDE
    &&& width * height <= usize::MAX
}

/// The flat index of the cell in column `x` of row `y`.
pub open spec fn flat_index(width: int, x: int, y: int) -> int {
    y * width + x
}

/// The column of the cell with flat index `idx`.
pub open spec fn column_of(width: int, idx: int) -> int {
    idx % width
}

/// The row of the cell with flat index `idx`.
pub open spec fn row_of(width: int, idx: int) -> int {
    idx / width
}

impl GridSize {
    #[verifier::type_invariant]
    spec fn well_formed(self) -> bool {
        valid_dimensions(self.width as int, self.height as int)
    }

    /// Number of columns.
    pub closed spec fn spec_width(self) -> int {
        self.width as int
    }

    /// Number of rows.
    pub closed spec fn spec_height(self) -> int {
        self.height as int
    }

    /// Number of cells.
    pub open spec fn spec_cells(self) -> int {
        self.spec_width() * self.spec_height()
    }

    /// Whether `(x, y)` names a cell of this grid.
    pub open spec fn contains(self, x: int, y: int) -> bool {
        0 <= x < self.spec_width() && 0 <= y < self.spec_height()
    }

    /// A grid of `width` columns and `height` rows, or `None` where the
    /// dimensions are not admissible.
    pub fn new(width: usize, height: usize) -> (size: Option<GridSize>)
        ensures
            size.is_some() == valid_dimensions(width as int, height as int),
            size matches Some(g) ==> g.spec_width() == width && g.spec_height() == height,
    {
        if width == 0 || height == 0 || width > MAX_SIDE || height > MAX_SIDE {
            return None;
        }
        match width.checked_mul(height) {
            Some(_) => Some(GridSize { width, height }),
            None => None,
        }
    }

    /// Number of columns.
    pub fn width(&self) -> (w: usize)
        ensures
            w == self.spec_width(),
            0 < w <= MAX_SIDE,
    {
        proof {
            use_type_invariant(self);
        }
        self.width
    }

    /// Number of rows.
    pub fn height(&self) -> (h: usize)
        ensures
            h == self.spec_height(),
            0 < h <= MAX_SIDE,
    {
        proof {
            use_type_invariant(self);
        }
        self.height
    }

    /// Number of cells.
    pub fn cells(&self) -> (n: usize)
        ensures
            n == self.spec_cells(),
            n > 0,
    {
        proof {
            use_type_invariant(self);
            assert(self.width * self.height >= 1) by (nonlinear_arith)
                requires
                    self.width >= 1,
                    self.height >= 1,
            ;
        }
        self.width * self.height
    }
}

/// The coordinate of the cell with flat index `idx`: its column is the
/// remainder of `idx` by the width and its row the quotient.
pub fn uniform_idx_as_vec2(size: &GridSize, idx: usize) -> (pos: Vec2)
    requires
        idx < size.spec_cells(),
    ensures
        pos.x == column_of(size.spec_width(), idx as int),
        pos.y == row_of(size.spec_width(), idx as int),
        size.contains(pos.x as int, pos.y as int),
        flat_index(size.spec_width(), pos.x as int, pos.y as int) == idx,
{
    let w = size.width();
    let h = size.height();
    proof {
        lemma_coordinate_in_grid(w as int, h as int, idx as int);
    }
    Vec2 { x: (idx % w) as i32, y: (idx / w) as i32 }
}

/// The flat index of the cell at `pos`: its row times the width, plus its
/// column.
pub fn vec2_as_uniform_idx(size: &GridSize, pos: Vec2) -> (idx: usize)
    requires
        size.contains(pos.x as int, pos.y as int),
    ensures
        idx == flat_index(size.spec_width(), pos.x as int, pos.y as int),
        idx < size.spec_cells(),
        column_of(size.spec_width(), idx as int) == pos.x,
        row_of(size.spec_width(), idx as int) == pos.y,
{
    let w = size.width();
    let h = size.height();
    let n = size.cells();
    proof {
        lemma_index_in_grid(w as int, h as int, pos.x as int, pos.y as int);
    }
    pos.y as usize * w + pos.x as usize
}

/// Whether every cell of `size`, scaled by `cell_size`, has a position whose
/// components are `i32`.
pub open spec fn world_fits(size: GridSize, cell_size: Vec2) -> bool {
    &&& i32::MIN <= (size.spec_width() - 1) * cell_size.x <= i32::MAX
    &&& i32::MIN <= (size.spec_height() - 1) * cell_size.y <= i32::MAX
}

/// The world position of the cell with flat index `idx`: its coordinate, each
/// component multiplied by that of `cell_size`.
pub open spec fn world_pos(size: GridSize, cell_size: Vec2, idx: int) -> (int, int) {
    (
        column_of(size.spec_width(), idx) * cell_size.x,
        row_of(size.spec_width(), idx) * cell_size.y,
    )
}

/// Decides [`world_fits`].
pub fn check_world_fits(size: &GridSize, cell_size: Vec2) -> (ok: bool)
    ensures
        ok == world_fits(*size, cell_size),
{
    let w: i64 = (size.width() - 1) as i64;
    let h: i64 = (size.height() - 1) as i64;
    assert(-0x4000_0000_0000_0000 <= w * cell_size.x <= 0x4000_0000_0000_0000) by (nonlinear_arith)
        requires
            0 <= w < 0x8000_0000,
            -0x8000_0000 <= cell_size.x < 0x8000_0000,
    ;
    assert(-0x4000_0000_0000_0000 <= h * cell_size.y <= 0x4000_0000_0000_0000) by (nonlinear_arith)
        requires
            0 <= h < 0x8000_0000,
            -0x8000_0000 <= cell_size.y < 0x8000_0000,
    ;
    let ex: i64 = w * (cell_size.x as i64);
    let ey: i64 = h * (cell_size.y as i64);
    -0x8000_0000 <= ex && ex <= 0x7fff_ffff && -0x8000_0000 <= ey && ey <= 0x7fff_ffff
}

/// The world position of the cell with flat index `idx`.
pub fn cell_world_pos(size: &GridSize, cell_size: Vec2, idx: usize) -> (pos: Vec2)
    requires
        idx < size.spec_cells(),
        world_fits(*size, cell_size),
    ensures
        (pos.x as int, pos.y as int) == world_pos(*size, cell_size, idx as int),
{
    let c = uniform_idx_as_vec2(size, idx);
    let w = size.width();
    let h = size.height();
    proof {
        lemma_scaled_between(c.x as int, w as int - 1, cell_size.x as int);
        lemma_scaled_between(c.y as int, h as int - 1, cell_size.y as int);
    }
    Vec2 { x: c.x * cell_size.x, y: c.y * cell_size.y }
}

/// A product `c * k` with `0 <= c <= m` lies between `0` and `m * k`.
proof fn lemma_scaled_between(c: int, m: int, k: int)
    by (nonlinear_arith)
    requires
        0 <= c <= m,
    ensures
        k >= 0 ==> 0 <= c * k <= m * k,
        k <= 0 ==> m * k <= c * k <= 0,
{
}

/// The column and row of a flat index below `width * height` name a cell of
/// the grid, and that cell's flat index is the one they came from.
pub proof fn lemma_coordinate_in_grid(width: int, height: int, idx: int)
    by (nonlinear_arith)
    requires
        0 < width,
        0 < height,
        0 <= idx < width * height,
    ensures
        0 <= column_of(width, idx) < width,
        0 <= row_of(width, idx) < height,
        flat_index(width, column_of(width, idx), row_of(width, idx)) == idx,
{
}

/// The flat index of a cell of the grid is below `width * height`, and its
/// column and row are those of the cell.
pub proof fn lemma_index_in_grid(width: int, height: int, x: int, y: int)
    requires
        0 <= x < width,
        0 <= y < height,
    ensures
        0 <= flat_index(width, x, y) < width * height,
        column_of(width, flat_index(width, x, y)) == x,
        row_of(width, flat_index(width, x, y)) == y,
{
    assert(0 <= y * width && y * width + width <= height * width) by (nonlinear_arith)
        requires
            0 <= y < height,
            0 < width,
    ;
    assert(height * width == width * height) by (nonlinear_arith);
    vstd::arithmetic::div_mod::lemma_fundamental_div_mod_converse(
        flat_index(width, x, y),
        width,
        y,
        x,
    );
}

/// Two cells of a grid with the same flat index are the same cell.
pub proof fn lemma_flat_index_injective(width: int, x1: int, y1: int, x2: int, y2: int)
    requires
        0 <= x1 < width,
        0 <= x2 < width,
        0 <= y1,
        0 <= y2,
        flat_index(width, x1, y1) == flat_index(width, x2, y2),
    ensures
        x1 == x2,
        y1 == y2,
{
    lemma_index_in_grid(width, y1 + 1, x1, y1);
    lemma_index_in_grid(width, y2 + 1, x2, y2);
}

} // verus!
