//! The uniform grid.

use vstd::prelude::*;
use crate::math::vector::{fits_i64, Vector3};
use crate::scene::{blocking, boxes_of, Bounds, Scene};
use crate::path::VoxelStrategy;

verus! {

/// The place of a cell in a grid: its layer, and its row and column within
/// the layer. Within a layer the row changes fastest: it runs below
/// `num_cols`, and the column below `num_rows`.
pub open spec fn cell_place(i: int, num_cols: int, num_rows: int) -> (int, int, int) {
    let within = i % (num_cols * num_rows);
    (i / (num_cols * num_rows), within % num_cols, within / num_cols)
}

/// The index of the cell at a place: layers follow each other, and within a
/// layer the columns, each `num_cols` cells long.
pub open spec fn cell_index(layer: int, row: int, col: int, num_cols: int, num_rows: int) -> int {
    layer * (num_cols * num_rows) + col * num_cols + row
}

/// The layer, row and column of the cell with index `i`.
pub fn cell_xyz(i: usize, num_cols: usize, num_rows: usize) -> (place: (usize, usize, usize))
    requires
        0 < num_cols * num_rows <= usize::MAX,
    ensures
        place.0 == cell_place(i as int, num_cols as int, num_rows as int).0,
        place.1 == cell_place(i as int, num_cols as int, num_rows as int).1,
        place.2 == cell_place(i as int, num_cols as int, num_rows as int).2,
        place.1 < num_cols,
        place.2 < num_rows,
        cell_index(
            place.0 as int,
            place.1 as int,
            place.2 as int,
            num_cols as int,
            num_rows as int,
        ) == i,
{
    proof {
        lemma_place_round_trip(i as int, num_cols as int, num_rows as int);
    }
    let layer = i / (num_cols * num_rows);
    let i = i % (num_cols * num_rows);
    let row = i % num_cols;
    let col = i / num_cols;
    (layer, row, col)
}

/// Taking the place of a cell and then the index of that place gives the
/// index back, and the place lies within the layer.
pub proof fn lemma_place_round_trip(i: int, num_cols: int, num_rows: int)
    requires
        0 <= i,
        0 < num_cols,
        0 < num_rows,
    ensures
        ({
            let (layer, row, col) = cell_place(i, num_cols, num_rows);
            &&& 0 <= layer
            &&& 0 <= row < num_cols
            &&& 0 <= col < num_rows
            &&& cell_index(layer, row, col, num_cols, num_rows) == i
        }),
{
    let area = num_cols * num_rows;
    assert(area > 0) by (nonlinear_arith)
        requires
            area == num_cols * num_rows,
            0 < num_cols,
            0 < num_rows,
    ;
    let within = i % area;
    vstd::arithmetic::div_mod::lemma_fundamental_div_mod(i, area);
    vstd::arithmetic::div_mod::lemma_fundamental_div_mod(within, num_cols);
    assert(0 <= i / area) by (nonlinear_arith)
        requires
            0 <= i,
            0 < area,
    ;
    assert(within / num_cols < num_rows) by (nonlinear_arith)
        requires
            0 <= within < num_cols * num_rows,
            0 < num_cols,
    ;
    assert(0 <= within / num_cols) by (nonlinear_arith)
        requires
            0 <= within,
            0 < num_cols,
    ;
    assert((i / area) * area == area * (i / area)) by (nonlinear_arith);
    assert((within / num_cols) * num_cols == num_cols * (within / num_cols)) by (nonlinear_arith);
}

/// The number of cells of length `cell_size` laid along an extent: one more
/// than fit into it whole, so that the far end is always covered.
pub open spec fn cells_along(extent: int, cell_size: int) -> int {
    (extent + cell_size) / cell_size
}

/// The coordinates of the least corner of the cell at a place of the grid over
/// `bounds`. The column counts cells along `x`, the row along `y` and the
/// layer along `z`.
pub open spec fn cell_origin(row: int, col: int, layer: int, cell_size: int, bounds: Bounds) -> (
    int,
    int,
    int,
) {
    (
        bounds.min.x + col * cell_size,
        bounds.min.y + row * cell_size,
        bounds.min.z + layer * cell_size,
    )
}

/// Whether both corners of the cell at a place are on the lattice.
pub open spec fn cell_fits(row: int, col: int, layer: int, cell_size: int, bounds: Bounds) -> bool {
    let origin = cell_origin(row, col, layer, cell_size, bounds);
    &&& Vector3::representable(origin)
    &&& Vector3::representable((origin.0 + cell_size, origin.1 + cell_size, origin.2 + cell_size))
}

/// The box of the cell at a place: a cube of side `cell_size` at the cell's
/// least corner.
pub open spec fn cell_box(row: int, col: int, layer: int, cell_size: int, bounds: Bounds) -> Bounds {
    let origin = cell_origin(row, col, layer, cell_size, bounds);
    Bounds {
        min: Vector3::from_triple(origin),
        max: Vector3::from_triple(
            (origin.0 + cell_size, origin.1 + cell_size, origin.2 + cell_size),
        ),
    }
}

/// The box of the cell with index `i`.
pub open spec fn cell_box_at(
    i: int,
    num_cols: int,
    num_rows: int,
    cell_size: int,
    bounds: Bounds,
) -> Bounds {
    let (layer, row, col) = cell_place(i, num_cols, num_rows);
    cell_box(row, col, layer, cell_size, bounds)
}

/// The box of the cell at a place of the grid over `bounds`.
pub fn get_cell_bounds(row: usize, col: usize, layer: usize, cell_size: i64, bounds: Bounds) -> (cell:
    Bounds)
    requires
        cell_fits(row as int, col as int, layer as int, cell_size as int, bounds),
    ensures
        cell == cell_box(row as int, col as int, layer as int, cell_size as int, bounds),
{
    let x: i128 = bounds.min.x as i128 + col as i128 * cell_size as i128;
    let y: i128 = bounds.min.y as i128 + row as i128 * cell_size as i128;
    let z: i128 = bounds.min.z as i128 + layer as i128 * cell_size as i128;
    let min = Vector3::new(x as i64, y as i64, z as i64);
    let max = min + Vector3::new(cell_size, cell_size, cell_size);
    Bounds::new(min, max)
}

/// The box of the cell with index `i`.
pub fn cell_bounds_from_index(
    i: usize,
    num_cols: usize,
    num_rows: usize,
    cell_size: i64,
    bounds: Bounds,
) -> (cell: Bounds)
    requires
        0 < num_cols * num_rows <= usize::MAX,
        ({
            let (layer, row, col) = cell_place(i as int, num_cols as int, num_rows as int);
            cell_fits(row, col, layer, cell_size as int, bounds)
        }),
    ensures
        cell == cell_box_at(i as int, num_cols as int, num_rows as int, cell_size as int, bounds),
{
    let (layer, row, col) = cell_xyz(i, num_cols, num_rows);
    let cell_bounds = get_cell_bounds(row, col, layer, cell_size, bounds);
    cell_bounds
}

/// What a grid holds: its numbers of rows, columns and layers, for each cell
/// whether it is free, the side of a cell, and the box the grid is laid over.
pub struct GridView {
    pub num_rows: nat,
    pub num_cols: nat,
    pub num_layers: nat,
    pub cells: Seq<bool>,
    pub cell_size: int,
    pub bounds: Bounds,
}

/// Whether a grid of cells of side `cell_size` can be laid over `bounds`: the
/// side is positive, the box is well formed, a cell beyond its greatest corner
/// is still on the lattice, and the cells can be counted in a `usize`.
pub open spec fn can_lay_grid(bounds: Bounds, cell_size: int) -> bool {
    &&& 0 < cell_size
    &&& bounds.well_formed()
    &&& fits_i64(bounds.max.x + cell_size)
    &&& fits_i64(bounds.max.y + cell_size)
    &&& fits_i64(bounds.max.z + cell_size)
    &&& cells_along(bounds.max.x - bounds.min.x, cell_size) * cells_along(
        bounds.max.y - bounds.min.y,
        cell_size,
    ) * cells_along(bounds.max.z - bounds.min.z, cell_size) <= usize::MAX
}

/// Whether one of the obstacles blocks the cell under the policy `S`.
pub open spec fn is_blocked<S: VoxelStrategy>(cell: Bounds, obstacles: Seq<Bounds>) -> bool {
    exists|j: int| 0 <= j < obstacles.len() && S::blocks(#[trigger] obstacles[j], cell)
}

impl GridView {
    /// The number of cells.
    pub open spec fn len(self) -> nat {
        self.num_rows * self.num_cols * self.num_layers
    }

    /// The box of the cell with index `i`.
    pub open spec fn box_at(self, i: int) -> Bounds {
        cell_box_at(i, self.num_cols as int, self.num_rows as int, self.cell_size, self.bounds)
    }

    /// The indexes of the free cells, in rising order.
    pub open spec fn free_cells(self) -> Seq<int> {
        Seq::new(self.cells.len(), |i: int| i).filter(|i: int| self.cells[i])
    }

    /// The boxes of the free cells, in the order of their indexes.
    pub open spec fn free_boxes(self) -> Seq<Bounds> {
        self.free_cells().map_values(|i: int| self.box_at(i))
    }

    /// The grid laid over `bounds` with cells of side `cell_size`, in which a
    /// cell is free unless one of the obstacles blocks it under the policy `S`.
    pub open spec fn laid<S: VoxelStrategy>(
        bounds: Bounds,
        obstacles: Seq<Bounds>,
        cell_size: int,
    ) -> GridView {
        let num_rows = cells_along(bounds.max.x - bounds.min.x, cell_size) as nat;
        let num_cols = cells_along(bounds.max.y - bounds.min.y, cell_size) as nat;
        let num_layers = cells_along(bounds.max.z - bounds.min.z, cell_size) as nat;
        GridView {
            num_rows,
            num_cols,
            num_layers,
            cells: Seq::new(
                num_rows * num_cols * num_layers,
                |i: int|
                    !is_blocked::<S>(
                        cell_box_at(i, num_cols as int, num_rows as int, cell_size, bounds),
                        obstacles,
                    ),
            ),
            cell_size,
            bounds,
        }
    }
}

/// Every cell of a grid that can be laid begins within `bounds` and ends at
/// most one cell beyond it, so its box is on the lattice.
pub proof fn lemma_cell_within_margin(i: int, bounds: Bounds, cell_size: int)
    requires
        can_lay_grid(bounds, cell_size),
        0 <= i,
        i < cells_along(bounds.max.x - bounds.min.x, cell_size) * cells_along(
            bounds.max.y - bounds.min.y,
            cell_size,
        ) * cells_along(bounds.max.z - bounds.min.z, cell_size),
    ensures
        ({
            let num_rows = cells_along(bounds.max.x - bounds.min.x, cell_size);
            let num_cols = cells_along(bounds.max.y - bounds.min.y, cell_size);
            let (layer, row, col) = cell_place(i, num_cols, num_rows);
            let cell = cell_box_at(i, num_cols, num_rows, cell_size, bounds);
            &&& cell_fits(row, col, layer, cell_size, bounds)
            &&& bounds.min.x <= cell.min.x <= bounds.max.x
            &&& bounds.min.y <= cell.min.y <= bounds.max.y
            &&& bounds.min.z <= cell.min.z <= bounds.max.z
            &&& cell.max.x == cell.min.x + cell_size
            &&& cell.max.y == cell.min.y + cell_size
            &&& cell.max.z == cell.min.z + cell_size
            &&& bounds.min.x - cell_size <= cell.min.x && cell.max.x <= bounds.max.x + cell_size
            &&& bounds.min.y - cell_size <= cell.min.y && cell.max.y <= bounds.max.y + cell_size
            &&& bounds.min.z - cell_size <= cell.min.z && cell.max.z <= bounds.max.z + cell_size
        }),
{
    let num_rows = cells_along(bounds.max.x - bounds.min.x, cell_size);
    let num_cols = cells_along(bounds.max.y - bounds.min.y, cell_size);
    let num_layers = cells_along(bounds.max.z - bounds.min.z, cell_size);
    lemma_cells_along(bounds.max.x - bounds.min.x, cell_size);
    lemma_cells_along(bounds.max.y - bounds.min.y, cell_size);
    lemma_cells_along(bounds.max.z - bounds.min.z, cell_size);
    lemma_place_round_trip(i, num_cols, num_rows);
    let (layer, row, col) = cell_place(i, num_cols, num_rows);
    let area = num_cols * num_rows;
    assert(num_rows * num_cols * num_layers == area * num_layers) by (nonlinear_arith)
        requires
            area == num_cols * num_rows,
    ;
    assert(0 <= col * num_cols) by (nonlinear_arith)
        requires
            0 <= col,
            0 < num_cols,
    ;
    assert(layer < num_layers) by (nonlinear_arith)
        requires
            layer * area <= i,
            i < area * num_layers,
            0 < area,
    ;
    lemma_offset_within(col, num_rows, bounds.max.x - bounds.min.x, cell_size);
    lemma_offset_within(row, num_cols, bounds.max.y - bounds.min.y, cell_size);
    lemma_offset_within(layer, num_layers, bounds.max.z - bounds.min.z, cell_size);
}

/// Along an extent there is at least one cell, and all but the last cell
/// begin within the extent.
proof fn lemma_cells_along(extent: int, cell_size: int)
    requires
        0 <= extent,
        0 < cell_size,
    ensures
        1 <= cells_along(extent, cell_size),
        (cells_along(extent, cell_size) - 1) * cell_size <= extent,
{
    vstd::arithmetic::div_mod::lemma_fundamental_div_mod(extent + cell_size, cell_size);
    let n = cells_along(extent, cell_size);
    assert(n >= 1) by (nonlinear_arith)
        requires
            n == (extent + cell_size) / cell_size,
            0 <= extent,
            0 < cell_size,
    ;
    assert((n - 1) * cell_size == cell_size * n - cell_size) by (nonlinear_arith);
}

/// The cells along an extent begin within it.
proof fn lemma_offset_within(k: int, n: int, extent: int, cell_size: int)
    requires
        0 <= k < n,
        0 < cell_size,
        (n - 1) * cell_size <= extent,
    ensures
        0 <= k * cell_size <= extent,
{
    assert(0 <= k * cell_size <= (n - 1) * cell_size) by (nonlinear_arith)
        requires
            0 <= k < n,
            0 < cell_size,
    ;
}

/// A uniform grid of cubic cells over a box, each cell free or blocked.
pub struct Grid {
    num_rows: usize,
    num_cols: usize,
    num_layers: usize,
    cells: Vec<bool>,
    cell_size: i64,
    bounds: Bounds,
}

impl View for Grid {
    type V = GridView;

    closed spec fn view(&self) -> GridView {
        GridView {
            num_rows: self.num_rows as nat,
            num_cols: self.num_cols as nat,
            num_layers: self.num_layers as nat,
            cells: self.cells@,
            cell_size: self.cell_size as int,
            bounds: self.bounds,
        }
    }
}

impl Grid {
    /// The grid has the dimensions that its box and its cell size give, and a
    /// flag for each cell.
    #[verifier::type_invariant]
    closed spec fn well_formed(self) -> bool {
        &&& can_lay_grid(self.bounds, self.cell_size as int)
        &&& self.num_rows == cells_along(self.bounds.max.x - self.bounds.min.x, self.cell_size as int)
        &&& self.num_cols == cells_along(self.bounds.max.y - self.bounds.min.y, self.cell_size as int)
        &&& self.num_layers == cells_along(
            self.bounds.max.z - self.bounds.min.z,
            self.cell_size as int,
        )
        &&& self.cells@.len() == self.num_rows * self.num_cols * self.num_layers
    }

    /// Whether a grid of cells of side `cell_size` can be laid over `bounds`.
    pub fn fits(bounds: &Bounds, cell_size: i64) -> (can: bool)
        ensures
            can == can_lay_grid(*bounds, cell_size as int),
    {
        if cell_size <= 0 || bounds.min.x > bounds.max.x || bounds.min.y > bounds.max.y
            || bounds.min.z > bounds.max.z {
            return false;
        }
        if bounds.max.x > i64::MAX - cell_size || bounds.max.y > i64::MAX - cell_size
            || bounds.max.z > i64::MAX - cell_size {
            return false;
        }
        let num_rows = wide_count_along(bounds.min.x, bounds.max.x, cell_size);
        let num_cols = wide_count_along(bounds.min.y, bounds.max.y, cell_size);
        let num_layers = wide_count_along(bounds.min.z, bounds.max.z, cell_size);
        proof {
            lemma_product_bounds(num_rows as int, num_cols as int, num_layers as int);
        }
        let limit: u128 = usize::MAX as u128;
        if num_rows > limit || num_cols > limit || num_layers > limit {
            return false;
        }
        assert(limit * limit <= u128::MAX) by (nonlinear_arith)
            requires
                limit <= 0xffff_ffff_ffff_ffff,
        ;
        assert(num_rows * num_cols <= limit * limit) by (nonlinear_arith)
            requires
                num_rows <= limit,
                num_cols <= limit,
        ;
        let area: u128 = num_rows * num_cols;
        if area > limit {
            return false;
        }
        assert(area * num_layers <= limit * limit) by (nonlinear_arith)
            requires
                area <= limit,
                num_layers <= limit,
        ;
        area * num_layers <= limit
    }

    /// The number of rows, of columns and of layers of the grid.
    pub fn dims(&self) -> (dims: (usize, usize, usize))
        ensures
            dims.0 == self@.num_rows,
            dims.1 == self@.num_cols,
            dims.2 == self@.num_layers,
            self@.cells.len() == dims.0 * dims.1 * dims.2,
    {
        proof {
            use_type_invariant(self);
        }
        (self.num_rows, self.num_cols, self.num_layers)
    }

    /// For each cell, in the order of the indexes, whether it is free.
    pub fn cells(&self) -> (cells: &Vec<bool>)
        ensures
            cells@ == self@.cells,
    {
        &self.cells
    }

    /// The side of a cell.
    pub fn cell_size(&self) -> (cell_size: i64)
        ensures
            cell_size == self@.cell_size,
    {
        self.cell_size
    }

    /// The box that the grid is laid over.
    pub fn bounds(&self) -> (bounds: Bounds)
        ensures
            bounds == self@.bounds,
    {
        self.bounds
    }

    /// The grid over the bounds of the scene with cells of side `cell_size`.
    /// A cell is free unless an obstacle of the scene that stands in the way
    /// blocks it under the policy `S`.
    pub fn build<S: VoxelStrategy>(scene: &Scene, cell_size: i64) -> (grid: Self)
        requires
            can_lay_grid(scene.bounds, cell_size as int),
        ensures
            grid@ == GridView::laid::<S>(
                scene.bounds,
                boxes_of(blocking(scene.obstacles@)),
                cell_size as int,
            ),
            grid@.cells.len() == grid@.len(),
    {
        let bounds = scene.bounds;
        proof {
            lemma_cells_along(bounds.max.x - bounds.min.x, cell_size as int);
            lemma_cells_along(bounds.max.y - bounds.min.y, cell_size as int);
            lemma_cells_along(bounds.max.z - bounds.min.z, cell_size as int);
            lemma_product_bounds(
                cells_along(bounds.max.x - bounds.min.x, cell_size as int),
                cells_along(bounds.max.y - bounds.min.y, cell_size as int),
                cells_along(bounds.max.z - bounds.min.z, cell_size as int),
            );
        }
        let num_rows = count_along(bounds.min.x, bounds.max.x, cell_size);
        let num_cols = count_along(bounds.min.y, bounds.max.y, cell_size);
        let num_layers = count_along(bounds.min.z, bounds.max.z, cell_size);
        let area = num_rows * num_cols;
        let total = area * num_layers;
        let obstacles = scene.get_obstacles();
        let ghost boxes = boxes_of(blocking(scene.obstacles@));
        let ghost model = GridView::laid::<S>(bounds, boxes, cell_size as int);
        let mut cells: Vec<bool> = Vec::new();
        let mut i: usize = 0;
        while i < total
            invariant
                can_lay_grid(bounds, cell_size as int),
                num_rows == cells_along(bounds.max.x - bounds.min.x, cell_size as int),
                num_cols == cells_along(bounds.max.y - bounds.min.y, cell_size as int),
                num_layers == cells_along(bounds.max.z - bounds.min.z, cell_size as int),
                total == num_rows * num_cols * num_layers,
                0 < num_cols * num_rows <= usize::MAX,
                obstacles@ == blocking(scene.obstacles@),
                boxes == boxes_of(obstacles@),
                model == GridView::laid::<S>(bounds, boxes, cell_size as int),
                i <= total,
                cells@.len() == i,
                forall|k: int| 0 <= k < i ==> cells@[k] == model.cells[k],
            decreases total - i,
        {
            proof {
                lemma_cell_within_margin(i as int, bounds, cell_size as int);
            }
            let cell_bounds = cell_bounds_from_index(i, num_cols, num_rows, cell_size, bounds);
            let mut free = true;
            let mut j: usize = 0;
            while j < obstacles.len()
                invariant_except_break
                    free,
                    forall|k: int| 0 <= k < j ==> !S::blocks(#[trigger] boxes[k], cell_bounds),
                invariant
                    j <= obstacles.len(),
                    boxes == boxes_of(obstacles@),
                ensures
                    free == !is_blocked::<S>(cell_bounds, boxes),
                decreases obstacles.len() - j,
            {
                if S::is_valid(&obstacles[j].bounds, &cell_bounds) {
                    assert(S::blocks(boxes[j as int], cell_bounds));
                    free = false;
                    break;
                }
                j += 1;
            }
            cells.push(free);
            i += 1;
        }
        assert(cells@ =~= model.cells);
        Self { num_rows, num_cols, num_layers, cells, cell_size, bounds }
    }

    /// The boxes of the free cells, in the order of their indexes, and after
    /// them the box that the grid is laid over.
    pub fn get_bounds_instances(&self) -> (instances: Vec<Bounds>)
        ensures
            instances@ == self@.free_boxes().push(self@.bounds),
    {
        proof {
            use_type_invariant(self);
        }
        let ghost model = self@;
        let ghost indexes = Seq::new(self.cells@.len(), |i: int| i);
        let ghost is_free = |i: int| model.cells[i];
        let ghost box_of = |i: int| model.box_at(i);
        let mut instances: Vec<Bounds> = Vec::new();
        let mut i: usize = 0;
        while i < self.cells.len()
            invariant
                self.well_formed(),
                model == self@,
                indexes == Seq::new(self.cells@.len(), |i: int| i),
                is_free == |i: int| model.cells[i],
                box_of == |i: int| model.box_at(i),
                i <= self.cells.len(),
                instances@ == indexes.take(i as int).filter(is_free).map_values(box_of),
            decreases self.cells.len() - i,
        {
            proof {
                assert(indexes.take(i + 1) =~= indexes.take(i as int).push(i as int));
                indexes.take(i as int).lemma_filter_push(i as int, is_free);
            }
            if self.cells[i] {
                instances.push(self.cell_bounds(i));
                assert(instances@ =~= indexes.take(i + 1).filter(is_free).map_values(box_of));
            }
            i += 1;
        }
        assert(indexes.take(i as int) =~= indexes);
        instances.push(self.bounds);
        instances
    }

    /// The box of the cell with index `i`.
    fn cell_bounds(&self, i: usize) -> (cell: Bounds)
        requires
            self.well_formed(),
            i < self@.cells.len(),
        ensures
            cell == self@.box_at(i as int),
    {
        proof {
            let size = self.cell_size as int;
            lemma_cell_within_margin(i as int, self.bounds, size);
            lemma_cells_along(self.bounds.max.x - self.bounds.min.x, size);
            lemma_cells_along(self.bounds.max.y - self.bounds.min.y, size);
            lemma_cells_along(self.bounds.max.z - self.bounds.min.z, size);
            lemma_product_bounds(self.num_rows as int, self.num_cols as int, self.num_layers as int);
        }
        cell_bounds_from_index(i, self.num_cols, self.num_rows, self.cell_size, self.bounds)
    }
}

/// The number of cells along one axis, where it can be held in a `usize`.
fn count_along(lo: i64, hi: i64, cell_size: i64) -> (count: usize)
    requires
        lo <= hi,
        0 < cell_size,
        cells_along(hi - lo, cell_size as int) <= usize::MAX,
    ensures
        count == cells_along(hi - lo, cell_size as int),
        1 <= count,
{
    proof {
        lemma_cells_along(hi - lo, cell_size as int);
    }
    ((hi as i128 - lo as i128 + cell_size as i128) / cell_size as i128) as usize
}

/// The number of cells along one axis.
fn wide_count_along(lo: i64, hi: i64, cell_size: i64) -> (count: u128)
    requires
        lo <= hi,
        0 < cell_size,
    ensures
        count == cells_along(hi - lo, cell_size as int),
        1 <= count,
{
    proof {
        lemma_cells_along(hi - lo, cell_size as int);
    }
    ((hi as i128 - lo as i128 + cell_size as i128) / cell_size as i128) as u128
}

/// A product of three positive numbers is at least each of them.
proof fn lemma_product_bounds(a: int, b: int, c: int)
    requires
        1 <= a,
        1 <= b,
        1 <= c,
    ensures
        a <= a * b * c,
        b <= a * b * c,
        c <= a * b * c,
        0 < a * b <= a * b * c,
        a * b == b * a,
{
    assert(a <= a * b && b <= a * b && 0 < a * b && a * b == b * a) by (nonlinear_arith)
        requires
            1 <= a,
            1 <= b,
    ;
    let ab = a * b;
    assert(ab <= ab * c && c <= ab * c) by (nonlinear_arith)
        requires
            1 <= ab,
            1 <= c,
    ;
}

/// Two grids laid over the bounds of one scene with one cell size under one
/// policy are the same, cell for cell, and give the same boxes in the same
/// order.
pub proof fn lemma_grid_is_determined<S: VoxelStrategy>(
    scene: Scene,
    cell_size: int,
    first: Grid,
    second: Grid,
)
    requires
        first@ == GridView::laid::<S>(
            scene.bounds,
            boxes_of(blocking(scene.obstacles@)),
            cell_size,
        ),
        second@ == GridView::laid::<S>(
            scene.bounds,
            boxes_of(blocking(scene.obstacles@)),
            cell_size,
        ),
    ensures
        first@.cells == second@.cells,
        first@.free_boxes().push(first@.bounds) == second@.free_boxes().push(second@.bounds),
{
}

} // verus!
