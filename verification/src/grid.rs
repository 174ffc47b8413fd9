//! The world: a rectangle of tiles, each holding one kind of entity.

use vstd::prelude::*;

verus! {

/// What a tile holds. Only `Wall` stops a ray.
#[derive(Debug, Copy, Clone, PartialEq, Eq)]
pub enum MapEntity {
    Wall,
    Floor,
    Enemy,
    Player,
}

/// Largest number of columns, and of rows, that a grid may have.
pub const MAX_DIM: usize = 1073741824;

/// A rectangular grid of tiles, stored column by column: the tile of column
/// `c` and row `r` covers the world points `(x, y)` with `c <= x < c + 1` and
/// `r <= y < r + 1`.
pub struct Grid {
    cells: Vec<Vec<MapEntity>>,
}

impl View for Grid {
    type V = Seq<Seq<MapEntity>>;

    closed spec fn view(&self) -> Seq<Seq<MapEntity>> {
        Seq::new(self.cells@.len(), |c: int| self.cells@[c]@)
    }
}

/// Every column of `cells` has the same number of rows, and neither count
/// exceeds `MAX_DIM`.
pub open spec fn rectangular(cells: Seq<Seq<MapEntity>>) -> bool {
    &&& cells.len() <= MAX_DIM
    &&& cells.len() > 0 ==> cells[0].len() <= MAX_DIM
    &&& forall|c: int| 0 <= c < cells.len() ==> (#[trigger] cells[c]).len() == cells[0].len()
}

/// The columns of a vector of columns, as sequences.
pub open spec fn columns_of(cells: Vec<Vec<MapEntity>>) -> Seq<Seq<MapEntity>> {
    Seq::new(cells@.len(), |c: int| cells@[c]@)
}

/// A way to obtain the grid that a program starts with.
pub trait MapT {
    fn default() -> (grid: Grid)
        ensures
            grid.wf(),
            grid@ == default_layout(),
    ;
}

/// One column of the default grid, from the pattern of its eight rows.
pub open spec fn column_of(
    r0: MapEntity,
    r1: MapEntity,
    r2: MapEntity,
    r3: MapEntity,
    r4: MapEntity,
    r5: MapEntity,
    r6: MapEntity,
    r7: MapEntity,
) -> Seq<MapEntity> {
    seq![r0, r1, r2, r3, r4, r5, r6, r7]
}

/// The default grid: nine columns of eight rows, walled all around, with a few
/// walls inside.
pub open spec fn default_layout() -> Seq<Seq<MapEntity>> {
    let w = MapEntity::Wall;
    let f = MapEntity::Floor;
    seq![
        column_of(w, w, w, w, w, w, w, w),
        column_of(w, w, f, f, f, f, w, w),
        column_of(w, f, w, f, w, f, f, w),
        column_of(w, f, w, f, w, f, f, w),
        column_of(w, f, w, f, w, f, f, w),
        column_of(w, f, w, w, w, f, f, w),
        column_of(w, f, f, f, f, f, f, w),
        column_of(w, w, f, f, f, f, w, w),
        column_of(w, w, w, w, w, w, w, w),
    ]
}

fn column(
    r0: MapEntity,
    r1: MapEntity,
    r2: MapEntity,
    r3: MapEntity,
    r4: MapEntity,
    r5: MapEntity,
    r6: MapEntity,
    r7: MapEntity,
) -> (col: Vec<MapEntity>)
    ensures
        col@ == column_of(r0, r1, r2, r3, r4, r5, r6, r7),
{
    let mut col: Vec<MapEntity> = Vec::new();
    col.push(r0);
    col.push(r1);
    col.push(r2);
    col.push(r3);
    col.push(r4);
    col.push(r5);
    col.push(r6);
    col.push(r7);
    assert(col@ =~= column_of(r0, r1, r2, r3, r4, r5, r6, r7));
    col
}

impl MapT for Grid {
    fn default() -> (grid: Grid) {
        let w = MapEntity::Wall;
        let f = MapEntity::Floor;
        let mut cells: Vec<Vec<MapEntity>> = Vec::new();
        cells.push(column(w, w, w, w, w, w, w, w));
        cells.push(column(w, w, f, f, f, f, w, w));
        cells.push(column(w, f, w, f, w, f, f, w));
        cells.push(column(w, f, w, f, w, f, f, w));
        cells.push(column(w, f, w, f, w, f, f, w));
        cells.push(column(w, f, w, w, w, f, f, w));
        cells.push(column(w, f, f, f, f, f, f, w));
        cells.push(column(w, w, f, f, f, f, w, w));
        cells.push(column(w, w, w, w, w, w, w, w));
        let grid = Grid { cells: cells };
        assert(grid@ =~= default_layout());
        grid
    }
}

impl Grid {
    /// The grid is a rectangle within the size limits.
    pub open spec fn wf(&self) -> bool {
        rectangular(self@)
    }

    /// Number of columns.
    pub open spec fn spec_width(&self) -> int {
        self@.len() as int
    }

    /// Number of rows.
    pub open spec fn spec_height(&self) -> int {
        if self@.len() == 0 {
            0
        } else {
            self@[0].len() as int
        }
    }

    /// The tile `(col, row)` lies in the grid.
    pub open spec fn contains(&self, col: int, row: int) -> bool {
        0 <= col < self.spec_width() && 0 <= row < self.spec_height()
    }

    /// A ray cannot pass the tile `(col, row)`: it is a wall, or it lies
    /// outside the grid.
    pub open spec fn blocking(&self, col: int, row: int) -> bool {
        !self.contains(col, row) || self@[col][row] == MapEntity::Wall
    }

    /// Every tile on the rim of the grid is a wall.
    pub open spec fn ringed(&self) -> bool {
        forall|col: int, row: int|
            self.contains(col, row) && (col == 0 || col == self.spec_width() - 1 || row == 0 || row
                == self.spec_height() - 1) ==> #[trigger] self.blocking(col, row)
    }

    /// A grid from its columns, each a vector of the tiles of one column from
    /// row 0 upward; `None` unless the columns form a rectangle within the
    /// size limits.
    pub fn new(cells: Vec<Vec<MapEntity>>) -> (out: Option<Grid>)
        ensures
            out is Some <==> rectangular(columns_of(cells)),
            out is Some ==> out->Some_0@ == columns_of(cells) && out->Some_0.wf(),
    {
        let ghost cols = columns_of(cells);
        let width: usize = cells.len();
        if width > MAX_DIM {
            return None;
        }
        if width > 0 {
            let height: usize = cells[0].len();
            assert(cols[0].len() == height);
            if height > MAX_DIM {
                return None;
            }
            let mut c: usize = 1;
            while c < width
                invariant
                    1 <= c <= width,
                    width == cells@.len(),
                    cols == columns_of(cells),
                    height == cols[0].len(),
                    forall|k: int| 0 <= k < c ==> (#[trigger] cols[k]).len() == height,
                decreases width - c,
            {
                if cells[c].len() != height {
                    assert(cols[c as int].len() != cols[0].len());
                    return None;
                }
                assert(cols[c as int].len() == height);
                c = c + 1;
            }
        }
        let grid = Grid { cells: cells };
        assert(grid@ =~= cols);
        Some(grid)
    }

    /// Number of columns.
    pub fn width(&self) -> (w: usize)
        ensures
            w == self.spec_width(),
    {
        self.cells.len()
    }

    /// Number of rows.
    pub fn height(&self) -> (h: usize)
        ensures
            h == self.spec_height(),
    {
        if self.cells.len() == 0 {
            0
        } else {
            self.cells[0].len()
        }
    }

    /// Whether a ray is stopped at the tile `(col, row)`.
    pub fn is_blocking(&self, col: i64, row: i64) -> (b: bool)
        requires
            self.wf(),
        ensures
            b == self.blocking(col as int, row as int),
    {
        if col < 0 || row < 0 {
            return true;
        }
        let width: usize = self.cells.len();
        if width == 0 {
            return true;
        }
        let height: usize = self.cells[0].len();
        if col as u64 >= width as u64 || row as u64 >= height as u64 {
            return true;
        }
        let c: usize = col as usize;
        let r: usize = row as usize;
        assert(self@[c as int].len() == height);
        assert(self@[c as int] == self.cells@[c as int]@);
        match self.cells[c][r] {
            MapEntity::Wall => true,
            _ => false,
        }
    }

    /// Whether every tile on the rim is a wall.
    pub fn has_wall_ring(&self) -> (b: bool)
        requires
            self.wf(),
        ensures
            b == self.ringed(),
    {
        let width: usize = self.width();
        let height: usize = self.height();
        let mut c: usize = 0;
        while c < width
            invariant
                self.wf(),
                c <= width,
                width == self.spec_width(),
                height == self.spec_height(),
                forall|col: int, row: int|
                    0 <= col < c && 0 <= row < height && (col == 0 || col == width - 1 || row == 0
                        || row == height - 1) ==> #[trigger] self.blocking(col, row),
            decreases width - c,
        {
            let mut r: usize = 0;
            while r < height
                invariant
                    self.wf(),
                    c < width,
                    r <= height,
                    width == self.spec_width(),
                    height == self.spec_height(),
                    width <= MAX_DIM,
                    height <= MAX_DIM,
                    forall|col: int, row: int|
                        0 <= col < c && 0 <= row < height && (col == 0 || col == width - 1 || row
                            == 0 || row == height - 1) ==> #[trigger] self.blocking(col, row),
                    forall|row: int|
                        0 <= row < r && (c == 0 || c == width - 1 || row == 0 || row == height - 1)
                            ==> #[trigger] self.blocking(c as int, row),
                decreases height - r,
            {
                let on_rim: bool = c == 0 || c == width - 1 || r == 0 || r == height - 1;
                if on_rim && !self.is_blocking(c as i64, r as i64) {
                    assert(self.contains(c as int, r as int));
                    return false;
                }
                r = r + 1;
            }
            c = c + 1;
        }
        true
    }
}

} // verus!
