//! A uniform grid of cells over the world that buckets individuals by position, so
//! that neighbourhood queries only look at nearby cells.
use vstd::prelude::*;

verus! {

pub const SPATIAL_CELL_SIZE: u32 = 8;

/// `value / divisor`, rounded up.
pub open spec fn ceil_div(value: u32, divisor: u32) -> int {
    (value + divisor - 1) / divisor as int
}

/// Buckets of snapshot indices, one per cell, row-major.
#[derive(Clone, Debug)]
pub struct SpatialGrid {
    pub cells_wide: u32,
    pub cells_high: u32,
    pub cells: Vec<Vec<usize>>,
}

/// Index of the cell `(cell_x, cell_y)` in a grid `cells_wide` cells wide.
pub open spec fn cell_slot(cells_wide: u32, cell_x: int, cell_y: int) -> int {
    cell_y * cells_wide + cell_x
}

/// The indices held in cells `x0..x_end` of row `cell_y`, in cell order.
pub open spec fn spec_row(cells: Seq<Seq<usize>>, cells_wide: u32, cell_y: int, x0: int, x_end: int) -> Seq<usize>
    decreases x_end - x0,
{
    if x_end <= x0 {
        Seq::empty()
    } else {
        spec_row(cells, cells_wide, cell_y, x0, x_end - 1) + cells[cell_slot(cells_wide, x_end - 1, cell_y)]
    }
}

/// The indices held in the cell block `x0..x_end` by `y0..y_end`, row by row.
pub open spec fn spec_block(
    cells: Seq<Seq<usize>>,
    cells_wide: u32,
    x0: int,
    x_end: int,
    y0: int,
    y_end: int,
) -> Seq<usize>
    decreases y_end - y0,
{
    if y_end <= y0 {
        Seq::empty()
    } else {
        spec_block(cells, cells_wide, x0, x_end, y0, y_end - 1) + spec_row(cells, cells_wide, y_end - 1, x0, x_end)
    }
}

pub open spec fn sat_sub_u32(a: u32, b: u32) -> int {
    if a >= b { a - b } else { 0 }
}

pub open spec fn sat_add_u32(a: u32, b: u32) -> int {
    if a + b > u32::MAX { u32::MAX as int } else { a + b }
}

pub open spec fn min_int(a: int, b: int) -> int {
    if a <= b { a } else { b }
}

/// The indices filed in every cell that the square of `radius` tiles around `(x, y)`
/// touches, row by row and cell by cell; none when the grid is empty.
pub open spec fn spatial_candidates(grid: SpatialGrid, x: u32, y: u32, radius: u32) -> Seq<usize> {
    if grid.cells_wide == 0 || grid.cells_high == 0 {
        Seq::empty()
    } else {
        spec_block(
            grid.view_cells(),
            grid.cells_wide,
            sat_sub_u32(x, radius) / 8,
            min_int(sat_add_u32(x, radius) / 8, grid.cells_wide - 1) + 1,
            sat_sub_u32(y, radius) / 8,
            min_int(sat_add_u32(y, radius) / 8, grid.cells_high - 1) + 1,
        )
    }
}

impl SpatialGrid {
    /// The cell list covers exactly `cells_wide * cells_high` cells.
    pub open spec fn wf(&self) -> bool {
        &&& self.cells@.len() == self.cells_wide * self.cells_high
        &&& self.cells_wide * self.cells_high <= u32::MAX
    }

    /// The indices held, cell by cell.
    pub open spec fn view_cells(&self) -> Seq<Seq<usize>> {
        Seq::new(self.cells@.len(), |i: int| self.cells@[i]@)
    }

    pub fn new() -> (r: Self)
        ensures
            r.wf(),
            r.cells_wide == 0,
            r.cells_high == 0,
    {
        SpatialGrid { cells_wide: 0, cells_high: 0, cells: Vec::new() }
    }

    /// Sizes the grid for a world of `world_width` by `world_height` tiles and empties
    /// every cell.
    pub fn prepare(&mut self, world_width: u32, world_height: u32)
        requires
            old(self).wf(),
            ceil_div(world_width, SPATIAL_CELL_SIZE) * ceil_div(world_height, SPATIAL_CELL_SIZE)
                <= u32::MAX,
        ensures
            final(self).wf(),
            final(self).cells_wide == ceil_div(world_width, SPATIAL_CELL_SIZE),
            final(self).cells_high == ceil_div(world_height, SPATIAL_CELL_SIZE),
            forall|i: int| 0 <= i < final(self).cells@.len() ==> (#[trigger] final(self).cells@[i])@.len() == 0,
    {
        proof {
            assert(0 <= ceil_div(world_width, SPATIAL_CELL_SIZE) * ceil_div(world_height, SPATIAL_CELL_SIZE)) by (nonlinear_arith)
                requires
                    0 <= ceil_div(world_width, SPATIAL_CELL_SIZE),
                    0 <= ceil_div(world_height, SPATIAL_CELL_SIZE),
            ;
        }
        let cells_wide = world_width / SPATIAL_CELL_SIZE + if world_width % SPATIAL_CELL_SIZE == 0 {
            0
        } else {
            1
        };
        let cells_high = world_height / SPATIAL_CELL_SIZE + if world_height % SPATIAL_CELL_SIZE == 0 {
            0
        } else {
            1
        };
        assert(cells_wide == ceil_div(world_width, SPATIAL_CELL_SIZE));
        assert(cells_high == ceil_div(world_height, SPATIAL_CELL_SIZE));
        if self.cells_wide != cells_wide || self.cells_high != cells_high {
            self.cells_wide = cells_wide;
            self.cells_high = cells_high;
            let count = cells_wide * cells_high;
            let mut cells: Vec<Vec<usize>> = Vec::new();
            let mut i: u32 = 0;
            while i < count
                invariant
                    0 <= i <= count,
                    cells@.len() == i,
                    forall|j: int| 0 <= j < i ==> (#[trigger] cells@[j])@.len() == 0,
                decreases count - i,
            {
                cells.push(Vec::new());
                i += 1;
            }
            self.cells = cells;
        } else {
            let mut i: usize = 0;
            while i < self.cells.len()
                invariant
                    0 <= i <= self.cells@.len(),
                    self.cells@.len() == self.cells_wide * self.cells_high,
                    self.cells_wide == cells_wide,
                    self.cells_high == cells_high,
                    forall|j: int| 0 <= j < i ==> (#[trigger] self.cells@[j])@.len() == 0,
                decreases self.cells@.len() - i,
            {
                self.cells.set(i, Vec::new());
                i += 1;
            }
        }
    }

    /// Files `snapshot_index` under the cell that holds `(x, y)`; positions outside the
    /// grid are ignored.
    pub fn insert(&mut self, snapshot_index: usize, x: u32, y: u32)
        requires
            old(self).wf(),
        ensures
            final(self).wf(),
            final(self).cells_wide == old(self).cells_wide,
            final(self).cells_high == old(self).cells_high,
            ({
                let cx = x / SPATIAL_CELL_SIZE;
                let cy = y / SPATIAL_CELL_SIZE;
                if cx < old(self).cells_wide && cy < old(self).cells_high {
                    let slot = cell_slot(old(self).cells_wide, cx as int, cy as int);
                    final(self).view_cells() == old(self).view_cells().update(
                        slot,
                        old(self).view_cells()[slot].push(snapshot_index),
                    )
                } else {
                    final(self).view_cells() == old(self).view_cells()
                }
            }),
    {
        if self.cells_wide == 0 || self.cells_high == 0 {
            return;
        }
        let cell_x = x / SPATIAL_CELL_SIZE;
        let cell_y = y / SPATIAL_CELL_SIZE;
        if cell_x >= self.cells_wide || cell_y >= self.cells_high {
            return;
        }
        proof {
            lemma_slot_in_grid(self.cells_wide, self.cells_high, cell_x, cell_y);
        }
        let index = (cell_y * self.cells_wide + cell_x) as usize;
        let ghost before = self.view_cells();
        let mut cell: Vec<usize> = Vec::new();
        std::mem::swap(&mut cell, &mut self.cells[index]);
        cell.push(snapshot_index);
        self.cells.set(index, cell);
        assert(self.view_cells() =~= before.update(index as int, before[index as int].push(snapshot_index)));
    }

    /// The indices filed in every cell that the square of `radius` tiles around
    /// `(x, y)` touches, row by row and cell by cell; none when the grid is empty.
    pub fn candidates(&self, x: u32, y: u32, radius: u32) -> (r: Vec<usize>)
        requires
            self.wf(),
        ensures
            r@ == spatial_candidates(*self, x, y, radius),
    {
        let mut out: Vec<usize> = Vec::new();
        if self.cells_wide == 0 || self.cells_high == 0 {
            return out;
        }
        let min_x = x.saturating_sub(radius) / SPATIAL_CELL_SIZE;
        let min_y = y.saturating_sub(radius) / SPATIAL_CELL_SIZE;
        let max_x = min_u32(x.saturating_add(radius) / SPATIAL_CELL_SIZE, self.cells_wide - 1);
        let max_y = min_u32(y.saturating_add(radius) / SPATIAL_CELL_SIZE, self.cells_high - 1);
        let end_x = max_x + 1;
        let end_y = max_y + 1;
        let ghost cells = self.view_cells();
        let mut cell_y = min_y;
        while cell_y < end_y
            invariant
                self.wf(),
                cells == self.view_cells(),
                end_x <= self.cells_wide,
                end_y <= self.cells_high,
                cell_y >= min_y,
                min_y < end_y ==> cell_y <= end_y,
                min_y >= end_y ==> cell_y == min_y,
                out@ == spec_block(cells, self.cells_wide, min_x as int, end_x as int, min_y as int, cell_y as int),
            decreases end_y - cell_y,
        {
            let mut cell_x = min_x;
            let ghost row_start = out@;
            while cell_x < end_x
                invariant
                    self.wf(),
                    cells == self.view_cells(),
                    end_x <= self.cells_wide,
                    cell_y < end_y,
                    end_y <= self.cells_high,
                    cell_x >= min_x,
                    min_x < end_x ==> cell_x <= end_x,
                    min_x >= end_x ==> cell_x == min_x,
                    out@ == row_start + spec_row(cells, self.cells_wide, cell_y as int, min_x as int, cell_x as int),
                decreases end_x - cell_x,
            {
                proof {
                    lemma_slot_in_grid(self.cells_wide, self.cells_high, cell_x, cell_y);
                }
                let index = (cell_y * self.cells_wide + cell_x) as usize;
                let cell = &self.cells[index];
                let mut k: usize = 0;
                let ghost before = out@;
                while k < cell.len()
                    invariant
                        0 <= k <= cell@.len(),
                        out@ == before + cell@.subrange(0, k as int),
                    decreases cell@.len() - k,
                {
                    out.push(cell[k]);
                    k += 1;
                }
                proof {
                    assert(cell@.subrange(0, cell@.len() as int) =~= cell@);
                    assert(cells[index as int] == cell@);
                    assert(out@ =~= row_start + spec_row(cells, self.cells_wide, cell_y as int, min_x as int, cell_x + 1));
                }
                cell_x += 1;
            }
            proof {
                if min_x >= end_x {
                    assert(spec_row(cells, self.cells_wide, cell_y as int, min_x as int, cell_x as int) =~= Seq::empty());
                    assert(spec_row(cells, self.cells_wide, cell_y as int, min_x as int, end_x as int) =~= Seq::empty());
                }
                assert(out@ =~= spec_block(cells, self.cells_wide, min_x as int, end_x as int, min_y as int, cell_y + 1));
            }
            cell_y += 1;
        }
        proof {
            if min_y >= end_y {
                assert(spec_block(cells, self.cells_wide, min_x as int, end_x as int, min_y as int, end_y as int) =~= Seq::empty());
            }
        }
        out
    }
}

impl Default for SpatialGrid {
    fn default() -> (r: Self)
        ensures
            r.wf(),
            r.cells_wide == 0,
            r.cells_high == 0,
    {
        SpatialGrid::new()
    }
}

fn min_u32(a: u32, b: u32) -> (r: u32)
    ensures
        r == min_int(a as int, b as int),
{
    if a <= b { a } else { b }
}

proof fn lemma_slot_in_grid(cells_wide: u32, cells_high: u32, cell_x: u32, cell_y: u32)
    requires
        cell_x < cells_wide,
        cell_y < cells_high,
        cells_wide * cells_high <= u32::MAX,
    ensures
        0 <= cell_y * cells_wide + cell_x < cells_wide * cells_high,
{
    assert(cell_y * cells_wide + cell_x < cells_wide * cells_high) by (nonlinear_arith)
        requires
            cell_x < cells_wide,
            cell_y < cells_high,
    ;
    assert(0 <= cell_y * cells_wide) by (nonlinear_arith);
}

} // verus!
