//! The voxel grid of a cloud and what downsampling on it yields, as
//! mathematics.
//!
//! The grid is anchored at the lower corner of the cloud's bounding box. Its
//! cells are half-open cubes of one edge length, and along each axis there
//! are as many as it takes to cover the box, its upper face included: the
//! extent divided by the edge, rounded down, and one more. An axis without
//! extent has one cell. Every point of the cloud lies in exactly one cell.

use vstd::prelude::*;
use vstd::arithmetic::div_mod::{
    lemma_div_is_ordered, lemma_fundamental_div_mod, lemma_fundamental_div_mod_converse,
};
use crate::point3d::{Point3D, COORD_LIMIT};
use crate::spatial_index::distance2;
use crate::vector3d::Vec3;

verus! {

/// The x coordinates of a sequence of points.
pub open spec fn xs(points: Seq<Point3D>) -> Seq<int> {
    Seq::new(points.len(), |i: int| points[i].x as int)
}

/// The y coordinates of a sequence of points.
pub open spec fn ys(points: Seq<Point3D>) -> Seq<int> {
    Seq::new(points.len(), |i: int| points[i].y as int)
}

/// The z coordinates of a sequence of points.
pub open spec fn zs(points: Seq<Point3D>) -> Seq<int> {
    Seq::new(points.len(), |i: int| points[i].z as int)
}

/// The corner of the bounding box with the least coordinates.
pub open spec fn lower_corner(points: Seq<Point3D>) -> Vec3 {
    Vec3 { x: xs(points).min(), y: ys(points).min(), z: zs(points).min() }
}

/// The corner of the bounding box with the greatest coordinates.
pub open spec fn upper_corner(points: Seq<Point3D>) -> Vec3 {
    Vec3 { x: xs(points).max(), y: ys(points).max(), z: zs(points).max() }
}

/// Every point has its coordinates within `COORD_LIMIT`.
pub open spec fn all_in_range(points: Seq<Point3D>) -> bool {
    forall|i: int| 0 <= i < points.len() ==> (#[trigger] points[i]).in_range()
}

/// The sum of the positions of a sequence of points.
pub open spec fn position_sum(points: Seq<Point3D>) -> Vec3
    decreases points.len(),
{
    if points.len() == 0 {
        Vec3::zero()
    } else {
        position_sum(points.drop_last()).plus(points.last().position())
    }
}

/// The point that stands for a group of points: at the mean of their
/// positions, each coordinate rounded down, with every attribute zero.
pub open spec fn centroid(members: Seq<Point3D>) -> Point3D {
    Point3D::bare(
        Vec3 {
            x: position_sum(members).x / (members.len() as int),
            y: position_sum(members).y / (members.len() as int),
            z: position_sum(members).z / (members.len() as int),
        },
    )
}

/// A cell of a grid, by its index along each axis.
pub struct Cell {
    pub i: int,
    pub j: int,
    pub k: int,
}

impl Cell {
    /// The order in which the grid is walked: x first, then y, then z.
    pub open spec fn before(self, other: Cell) -> bool {
        self.i < other.i || (self.i == other.i && (self.j < other.j || (self.j == other.j && self.k
            < other.k)))
    }
}

/// A regular grid of cubic cells.
pub struct Grid {
    pub origin: Vec3,
    pub edge: int,
    pub nx: int,
    pub ny: int,
    pub nz: int,
}

/// How many cells of edge `edge` it takes to cover `extent`, its far end
/// included.
pub open spec fn cells_along(extent: int, edge: int) -> int {
    extent / edge + 1
}

impl Grid {
    /// The grid of edge `edge` over the bounding box of `points`.
    pub open spec fn over(points: Seq<Point3D>, edge: int) -> Grid {
        let low = lower_corner(points);
        let high = upper_corner(points);
        Grid {
            origin: low,
            edge: edge,
            nx: cells_along(high.x - low.x, edge),
            ny: cells_along(high.y - low.y, edge),
            nz: cells_along(high.z - low.z, edge),
        }
    }

    /// The cell is one of the grid's.
    pub open spec fn has(self, cell: Cell) -> bool {
        &&& 0 <= cell.i < self.nx
        &&& 0 <= cell.j < self.ny
        &&& 0 <= cell.k < self.nz
    }

    /// The position lies in the cell: at or above its lower face and below
    /// its upper face, along each axis.
    pub open spec fn cell_holds(self, cell: Cell, p: Vec3) -> bool {
        &&& self.origin.x + cell.i * self.edge <= p.x < self.origin.x + (cell.i + 1) * self.edge
        &&& self.origin.y + cell.j * self.edge <= p.y < self.origin.y + (cell.j + 1) * self.edge
        &&& self.origin.z + cell.k * self.edge <= p.z < self.origin.z + (cell.k + 1) * self.edge
    }

    /// The test of a point for lying in the cell.
    pub open spec fn in_cell(self, cell: Cell) -> spec_fn(Point3D) -> bool {
        |q: Point3D| self.cell_holds(cell, q.position())
    }

    /// The points that lie in the cell, in the order of the cloud.
    pub open spec fn members(self, points: Seq<Point3D>, cell: Cell) -> Seq<Point3D> {
        points.filter(self.in_cell(cell))
    }

    /// The middle of the cell, each coordinate rounded down.
    pub open spec fn cell_center(self, cell: Cell) -> Vec3 {
        Vec3 {
            x: self.origin.x + cell.i * self.edge + self.edge / 2,
            y: self.origin.y + cell.j * self.edge + self.edge / 2,
            z: self.origin.z + cell.k * self.edge + self.edge / 2,
        }
    }

    /// The cell holds at least one point.
    pub open spec fn occupied(self, points: Seq<Point3D>, cell: Cell) -> bool {
        self.members(points, cell).len() > 0
    }

    /// The point that downsampling emits for an occupied cell.
    pub open spec fn representative(self, points: Seq<Point3D>, cell: Cell) -> Point3D {
        centroid(self.members(points, cell))
    }

    /// The occupied cells among the first `upto` of the row `(i, j)`.
    pub open spec fn occupied_in_row(self, points: Seq<Point3D>, i: int, j: int, upto: int) -> Seq<
        Cell,
    >
        decreases upto,
    {
        if upto <= 0 {
            Seq::empty()
        } else {
            let cell = Cell { i: i, j: j, k: upto - 1 };
            let earlier = self.occupied_in_row(points, i, j, upto - 1);
            if self.occupied(points, cell) {
                earlier.push(cell)
            } else {
                earlier
            }
        }
    }

    /// The occupied cells of the first `upto` rows of the slab `i`.
    pub open spec fn occupied_in_slab(self, points: Seq<Point3D>, i: int, upto: int) -> Seq<Cell>
        decreases upto,
    {
        if upto <= 0 {
            Seq::empty()
        } else {
            self.occupied_in_slab(points, i, upto - 1) + self.occupied_in_row(
                points,
                i,
                upto - 1,
                self.nz,
            )
        }
    }

    /// The occupied cells of the first `upto` slabs.
    pub open spec fn occupied_in_slabs(self, points: Seq<Point3D>, upto: int) -> Seq<Cell>
        decreases upto,
    {
        if upto <= 0 {
            Seq::empty()
        } else {
            self.occupied_in_slabs(points, upto - 1) + self.occupied_in_slab(
                points,
                upto - 1,
                self.ny,
            )
        }
    }

    /// The occupied cells of the grid, in the order in which it is walked.
    pub open spec fn occupied_cells(self, points: Seq<Point3D>) -> Seq<Cell> {
        self.occupied_in_slabs(points, self.nx)
    }

    /// The representatives of a sequence of cells.
    pub open spec fn representatives(self, points: Seq<Point3D>, cells: Seq<Cell>) -> Seq<Point3D> {
        cells.map_values(|cell: Cell| self.representative(points, cell))
    }
}

/// What downsampling a cloud at a voxel edge yields: one point for each
/// occupied cell of the grid over the cloud, in the order of the cells.
pub open spec fn downsampled(points: Seq<Point3D>, edge: int) -> Seq<Point3D> {
    let grid = Grid::over(points, edge);
    grid.representatives(points, grid.occupied_cells(points))
}

/// One more point adds its position to the sum.
pub proof fn lemma_position_sum_push(points: Seq<Point3D>, p: Point3D)
    ensures
        position_sum(points.push(p)) == position_sum(points).plus(p.position()),
{
    assert(points.push(p).drop_last() == points);
}

/// The sum of positions that all lie between two corners lies between the
/// corners multiplied by the number of positions.
pub proof fn lemma_position_sum_between(points: Seq<Point3D>, low: Vec3, high: Vec3)
    requires
        forall|i: int|
            0 <= i < points.len() ==> {
                &&& low.x <= (#[trigger] points[i]).x <= high.x
                &&& low.y <= points[i].y <= high.y
                &&& low.z <= points[i].z <= high.z
            },
    ensures
        points.len() * low.x <= position_sum(points).x <= points.len() * high.x,
        points.len() * low.y <= position_sum(points).y <= points.len() * high.y,
        points.len() * low.z <= position_sum(points).z <= points.len() * high.z,
    decreases points.len(),
{
    if points.len() == 0 {
        assert(0 * low.x == 0 && 0 * high.x == 0 && 0 * low.y == 0 && 0 * high.y == 0 && 0 * low.z
            == 0 && 0 * high.z == 0) by (nonlinear_arith);
    } else {
        let shorter = points.drop_last();
        assert forall|i: int| 0 <= i < shorter.len() implies {
            &&& low.x <= (#[trigger] shorter[i]).x <= high.x
            &&& low.y <= shorter[i].y <= high.y
            &&& low.z <= shorter[i].z <= high.z
        } by {
            assert(shorter[i] == points[i]);
        }
        lemma_position_sum_between(shorter, low, high);
        let last = points.last();
        assert(low.x <= last.x <= high.x);
        let n = shorter.len() as int;
        assert((n + 1) * low.x == n * low.x + low.x && (n + 1) * high.x == n * high.x + high.x && (n
            + 1) * low.y == n * low.y + low.y && (n + 1) * high.y == n * high.y + high.y && (n + 1)
            * low.z == n * low.z + low.z && (n + 1) * high.z == n * high.z + high.z)
            by (nonlinear_arith);
    }
}

/// A total that lies between two multiples of a count has its quotient by
/// the count between the two factors.
pub proof fn lemma_mean_between(total: int, count: int, low: int, high: int)
    requires
        count > 0,
        count * low <= total <= count * high,
    ensures
        low <= total / count <= high,
{
    lemma_fundamental_div_mod(total, count);
    let q = total / count;
    let r = total % count;
    assert(low <= q) by (nonlinear_arith)
        requires
            count > 0,
            count * low <= count * q + r,
            0 <= r < count,
    ;
    assert(q <= high) by (nonlinear_arith)
        requires
            count > 0,
            count * q + r <= count * high,
            0 <= r < count,
    ;
}

/// Where no point with an index from `from` up to `to` lies in a cell, the
/// first `to` points have the same members in it as the first `from`.
pub proof fn lemma_members_skip(grid: Grid, points: Seq<Point3D>, cell: Cell, from: int, to: int)
    requires
        0 <= from <= to <= points.len(),
        forall|i: int| from <= i < to ==> !grid.cell_holds(cell, (#[trigger] points[i]).position()),
    ensures
        grid.members(points.take(to), cell) == grid.members(points.take(from), cell),
    decreases to - from,
{
    if from < to {
        lemma_members_skip(grid, points, cell, from, to - 1);
        lemma_members_step(grid, points, cell, to - 1);
    }
}

/// The members among the first `at + 1` points are those among the first
/// `at`, and the point at `at` where it lies in the cell.
pub proof fn lemma_members_step(grid: Grid, points: Seq<Point3D>, cell: Cell, at: int)
    requires
        0 <= at < points.len(),
    ensures
        grid.members(points.take(at + 1), cell) == if grid.cell_holds(cell, points[at].position()) {
            grid.members(points.take(at), cell).push(points[at])
        } else {
            grid.members(points.take(at), cell)
        },
{
    assert(points.take(at + 1) == points.take(at).push(points[at]));
    points.take(at).lemma_filter_push(points[at], grid.in_cell(cell));
}

/// The members of a cell are points of the cloud that lie in the cell.
pub proof fn lemma_members_lie_in_cell(grid: Grid, points: Seq<Point3D>, cell: Cell)
    ensures
        forall|m: int|
            0 <= m < grid.members(points, cell).len() ==> {
                &&& grid.cell_holds(cell, (#[trigger] grid.members(points, cell)[m]).position())
                &&& points.contains(grid.members(points, cell)[m])
            },
        forall|i: int|
            0 <= i < points.len() && grid.cell_holds(cell, (#[trigger] points[i]).position())
                ==> grid.members(points, cell).contains(points[i]),
        grid.members(points, cell).len() <= points.len(),
    decreases points.len(),
{
    let members = grid.members(points, cell);
    if points.len() == 0 {
        assert(points.take(0) == points);
        reveal(Seq::filter);
    } else {
        let last = points.len() - 1;
        let shorter = points.take(last);
        lemma_members_lie_in_cell(grid, shorter, cell);
        lemma_members_step(grid, points, cell, last);
        assert(points.take(last + 1) == points);
        let earlier = grid.members(shorter, cell);
        assert forall|m: int| 0 <= m < members.len() implies {
            &&& grid.cell_holds(cell, (#[trigger] members[m]).position())
            &&& points.contains(members[m])
        } by {
            if m < earlier.len() {
                assert(members[m] == earlier[m]);
                let i = choose|i: int| 0 <= i < shorter.len() && shorter[i] == earlier[m];
                assert(points[i] == members[m]);
            } else {
                assert(members[m] == points[last]);
            }
        }
        assert forall|i: int|
            0 <= i < points.len() && grid.cell_holds(
                cell,
                (#[trigger] points[i]).position(),
            ) implies members.contains(points[i]) by {
            if i < last {
                assert(shorter[i] == points[i]);
                assert(earlier.contains(shorter[i]));
                let m = choose|m: int| 0 <= m < earlier.len() && earlier[m] == shorter[i];
                assert(members[m] == points[i]);
            } else {
                assert(members[members.len() - 1] == points[i]);
            }
        }
    }
}

/// A point in a cell lies within one edge length of the cell's middle.
pub proof fn lemma_cell_within_radius(grid: Grid, cell: Cell, p: Vec3)
    requires
        grid.edge > 0,
        grid.cell_holds(cell, p),
    ensures
        distance2(p, grid.cell_center(cell)) <= grid.edge * grid.edge,
{
    let edge = grid.edge;
    let half = edge / 2;
    let center = grid.cell_center(cell);
    let dx = p.x - center.x;
    let dy = p.y - center.y;
    let dz = p.z - center.z;
    assert((cell.i + 1) * edge == cell.i * edge + edge) by (nonlinear_arith);
    assert((cell.j + 1) * edge == cell.j * edge + edge) by (nonlinear_arith);
    assert((cell.k + 1) * edge == cell.k * edge + edge) by (nonlinear_arith);
    assert(-half <= dx <= half && -half <= dy <= half && -half <= dz <= half);
    assert(dx * dx <= half * half) by (nonlinear_arith)
        requires
            -half <= dx <= half,
    ;
    assert(dy * dy <= half * half) by (nonlinear_arith)
        requires
            -half <= dy <= half,
    ;
    assert(dz * dz <= half * half) by (nonlinear_arith)
        requires
            -half <= dz <= half,
    ;
    assert(3 * (half * half) <= edge * edge) by (nonlinear_arith)
        requires
            0 <= 2 * half <= edge,
    ;
}

/// The least and greatest coordinates of a cloud bound every point of it.
pub proof fn lemma_corners_bound(points: Seq<Point3D>, i: int)
    requires
        0 <= i < points.len(),
    ensures
        lower_corner(points).x <= points[i].x <= upper_corner(points).x,
        lower_corner(points).y <= points[i].y <= upper_corner(points).y,
        lower_corner(points).z <= points[i].z <= upper_corner(points).z,
{
    xs(points).min_ensures();
    xs(points).max_ensures();
    ys(points).min_ensures();
    ys(points).max_ensures();
    zs(points).min_ensures();
    zs(points).max_ensures();
    assert(xs(points)[i] == points[i].x);
    assert(ys(points)[i] == points[i].y);
    assert(zs(points)[i] == points[i].z);
}

/// Both corners of the bounding box of a cloud in range are in range.
pub proof fn lemma_corners_in_range(points: Seq<Point3D>)
    requires
        points.len() > 0,
        all_in_range(points),
    ensures
        lower_corner(points).within(COORD_LIMIT as int),
        upper_corner(points).within(COORD_LIMIT as int),
        lower_corner(points).x <= upper_corner(points).x,
        lower_corner(points).y <= upper_corner(points).y,
        lower_corner(points).z <= upper_corner(points).z,
{
    xs(points).min_ensures();
    xs(points).max_ensures();
    ys(points).min_ensures();
    ys(points).max_ensures();
    zs(points).min_ensures();
    zs(points).max_ensures();
    let a = choose|a: int| 0 <= a < points.len() && xs(points)[a] == xs(points).min();
    let b = choose|b: int| 0 <= b < points.len() && xs(points)[b] == xs(points).max();
    let c = choose|c: int| 0 <= c < points.len() && ys(points)[c] == ys(points).min();
    let d = choose|d: int| 0 <= d < points.len() && ys(points)[d] == ys(points).max();
    let e = choose|e: int| 0 <= e < points.len() && zs(points)[e] == zs(points).min();
    let f = choose|f: int| 0 <= f < points.len() && zs(points)[f] == zs(points).max();
    assert(points[a].in_range() && points[b].in_range() && points[c].in_range()
        && points[d].in_range() && points[e].in_range() && points[f].in_range());
    lemma_corners_bound(points, 0);
}

/// The index of the cell that holds a coordinate at `offset` from the
/// grid's origin is the offset divided by the edge.
pub proof fn lemma_cell_of_offset(offset: int, extent: int, edge: int)
    requires
        edge > 0,
        0 <= offset <= extent,
    ensures
        0 <= offset / edge < cells_along(extent, edge),
        (offset / edge) * edge <= offset < (offset / edge + 1) * edge,
{
    lemma_fundamental_div_mod(offset, edge);
    lemma_div_is_ordered(offset, extent, edge);
    lemma_div_is_ordered(0, offset, edge);
    let q = offset / edge;
    assert((q + 1) * edge == edge * q + edge && q * edge == edge * q) by (nonlinear_arith);
}

/// No position lies in two cells.
pub proof fn lemma_cell_is_unique(grid: Grid, first: Cell, second: Cell, p: Vec3)
    requires
        grid.edge > 0,
        grid.cell_holds(first, p),
        grid.cell_holds(second, p),
    ensures
        first == second,
{
    lemma_index_is_unique(first.i, second.i, p.x - grid.origin.x, grid.edge);
    lemma_index_is_unique(first.j, second.j, p.y - grid.origin.y, grid.edge);
    lemma_index_is_unique(first.k, second.k, p.z - grid.origin.z, grid.edge);
}

/// An offset lies between two successive multiples of the edge for one
/// index only.
proof fn lemma_index_is_unique(first: int, second: int, offset: int, edge: int)
    requires
        edge > 0,
        first * edge <= offset < (first + 1) * edge,
        second * edge <= offset < (second + 1) * edge,
    ensures
        first == second,
{
    if first < second {
        assert((first + 1) * edge <= second * edge) by (nonlinear_arith)
            requires
                first + 1 <= second,
                edge > 0,
        ;
    } else if second < first {
        assert((second + 1) * edge <= first * edge) by (nonlinear_arith)
            requires
                second + 1 <= first,
                edge > 0,
        ;
    }
}

/// Every point of a cloud lies in a cell of the grid over the cloud.
pub proof fn lemma_grid_covers(points: Seq<Point3D>, edge: int, i: int) -> (cell: Cell)
    requires
        edge > 0,
        0 <= i < points.len(),
    ensures
        Grid::over(points, edge).has(cell),
        Grid::over(points, edge).cell_holds(cell, points[i].position()),
        Grid::over(points, edge).occupied(points, cell),
{
    let grid = Grid::over(points, edge);
    let low = lower_corner(points);
    let high = upper_corner(points);
    let p = points[i].position();
    lemma_corners_bound(points, i);
    lemma_cell_of_offset(p.x - low.x, high.x - low.x, edge);
    lemma_cell_of_offset(p.y - low.y, high.y - low.y, edge);
    lemma_cell_of_offset(p.z - low.z, high.z - low.z, edge);
    let cell = Cell { i: (p.x - low.x) / edge, j: (p.y - low.y) / edge, k: (p.z - low.z) / edge };
    lemma_members_lie_in_cell(grid, points, cell);
    assert(grid.members(points, cell).contains(points[i]));
    cell
}

/// The point that stands for an occupied cell lies in the cell, and within
/// the bounding box of the cloud.
pub proof fn lemma_centroid_in_cell(grid: Grid, points: Seq<Point3D>, cell: Cell)
    requires
        grid.edge > 0,
        grid.occupied(points, cell),
    ensures
        grid.cell_holds(cell, grid.representative(points, cell).position()),
        lower_corner(points).x <= grid.representative(points, cell).x <= upper_corner(points).x,
        lower_corner(points).y <= grid.representative(points, cell).y <= upper_corner(points).y,
        lower_corner(points).z <= grid.representative(points, cell).z <= upper_corner(points).z,
        grid.representative(points, cell) == (Point3D {
            x: grid.representative(points, cell).x,
            y: grid.representative(points, cell).y,
            z: grid.representative(points, cell).z,
            intensity: 0,
            normal_x: 0,
            normal_y: 0,
            normal_z: 0,
            curvature: 0,
        }),
        grid.representative(points, cell).x == position_sum(grid.members(points, cell)).x / (
        grid.members(points, cell).len() as int),
        grid.representative(points, cell).y == position_sum(grid.members(points, cell)).y / (
        grid.members(points, cell).len() as int),
        grid.representative(points, cell).z == position_sum(grid.members(points, cell)).z / (
        grid.members(points, cell).len() as int),
{
    let members = grid.members(points, cell);
    let n = members.len() as int;
    let edge = grid.edge;
    lemma_members_lie_in_cell(grid, points, cell);
    let cell_low = Vec3 {
        x: grid.origin.x + cell.i * edge,
        y: grid.origin.y + cell.j * edge,
        z: grid.origin.z + cell.k * edge,
    };
    let cell_high = Vec3 {
        x: grid.origin.x + (cell.i + 1) * edge - 1,
        y: grid.origin.y + (cell.j + 1) * edge - 1,
        z: grid.origin.z + (cell.k + 1) * edge - 1,
    };
    assert forall|m: int| 0 <= m < members.len() implies {
        &&& cell_low.x <= (#[trigger] members[m]).x <= cell_high.x
        &&& cell_low.y <= members[m].y <= cell_high.y
        &&& cell_low.z <= members[m].z <= cell_high.z
    } by {
        assert(grid.cell_holds(cell, members[m].position()));
    }
    lemma_position_sum_between(members, cell_low, cell_high);
    let sum = position_sum(members);
    lemma_mean_between(sum.x, n, cell_low.x, cell_high.x);
    lemma_mean_between(sum.y, n, cell_low.y, cell_high.y);
    lemma_mean_between(sum.z, n, cell_low.z, cell_high.z);
    let box_low = lower_corner(points);
    let box_high = upper_corner(points);
    assert forall|m: int| 0 <= m < members.len() implies {
        &&& box_low.x <= (#[trigger] members[m]).x <= box_high.x
        &&& box_low.y <= members[m].y <= box_high.y
        &&& box_low.z <= members[m].z <= box_high.z
    } by {
        assert(points.contains(members[m]));
        let i = choose|i: int| 0 <= i < points.len() && points[i] == members[m];
        lemma_corners_bound(points, i);
    }
    lemma_position_sum_between(members, box_low, box_high);
    lemma_mean_between(sum.x, n, box_low.x, box_high.x);
    lemma_mean_between(sum.y, n, box_low.y, box_high.y);
    lemma_mean_between(sum.z, n, box_low.z, box_high.z);
    let first = members[0];
    assert(points.contains(first));
    let i0 = choose|i: int| 0 <= i < points.len() && points[i] == first;
    lemma_corners_bound(points, i0);
    lemma_corners_are_coordinates(points);
}

/// The corners of the bounding box of a cloud that is not empty have
/// coordinates of points, which an `i32` holds.
pub proof fn lemma_corners_are_coordinates(points: Seq<Point3D>)
    requires
        points.len() > 0,
    ensures
        i32::MIN <= lower_corner(points).x <= upper_corner(points).x <= i32::MAX,
        i32::MIN <= lower_corner(points).y <= upper_corner(points).y <= i32::MAX,
        i32::MIN <= lower_corner(points).z <= upper_corner(points).z <= i32::MAX,
{
    xs(points).min_ensures();
    xs(points).max_ensures();
    ys(points).min_ensures();
    ys(points).max_ensures();
    zs(points).min_ensures();
    zs(points).max_ensures();
    let a = choose|a: int| 0 <= a < points.len() && xs(points)[a] == xs(points).min();
    let b = choose|b: int| 0 <= b < points.len() && xs(points)[b] == xs(points).max();
    let c = choose|c: int| 0 <= c < points.len() && ys(points)[c] == ys(points).min();
    let d = choose|d: int| 0 <= d < points.len() && ys(points)[d] == ys(points).max();
    let e = choose|e: int| 0 <= e < points.len() && zs(points)[e] == zs(points).min();
    let f = choose|f: int| 0 <= f < points.len() && zs(points)[f] == zs(points).max();
    lemma_corners_bound(points, 0);
}

/// The sum of the positions of the members of a cell of a cloud in range
/// is bounded by their number times the limit.
pub proof fn lemma_member_sum_in_range(grid: Grid, points: Seq<Point3D>, cell: Cell)
    requires
        all_in_range(points),
    ensures
        position_sum(grid.members(points, cell)).within(
            grid.members(points, cell).len() * COORD_LIMIT,
        ),
        grid.members(points, cell).len() <= points.len(),
{
    let members = grid.members(points, cell);
    lemma_members_lie_in_cell(grid, points, cell);
    let low = Vec3 { x: -COORD_LIMIT, y: -COORD_LIMIT, z: -COORD_LIMIT };
    let high = Vec3 { x: COORD_LIMIT as int, y: COORD_LIMIT as int, z: COORD_LIMIT as int };
    assert forall|m: int| 0 <= m < members.len() implies {
        &&& low.x <= (#[trigger] members[m]).x <= high.x
        &&& low.y <= members[m].y <= high.y
        &&& low.z <= members[m].z <= high.z
    } by {
        assert(points.contains(members[m]));
        let i = choose|i: int| 0 <= i < points.len() && points[i] == members[m];
        assert(points[i].in_range());
    }
    lemma_position_sum_between(members, low, high);
    let n = members.len() as int;
    assert(n * (-COORD_LIMIT) == -(n * COORD_LIMIT)) by (nonlinear_arith);
}

/// What the list of a row's occupied cells holds: cells of the row, each
/// occupied, by ascending index, and every occupied one among them.
pub proof fn lemma_occupied_in_row(grid: Grid, points: Seq<Point3D>, i: int, j: int, upto: int)
    ensures
        forall|m: int|
            0 <= m < grid.occupied_in_row(points, i, j, upto).len() ==> {
                let cell = #[trigger] grid.occupied_in_row(points, i, j, upto)[m];
                &&& cell.i == i
                &&& cell.j == j
                &&& 0 <= cell.k < upto
                &&& grid.occupied(points, cell)
            },
        forall|m: int, n: int|
            0 <= m < n < grid.occupied_in_row(points, i, j, upto).len() ==> (
            #[trigger] grid.occupied_in_row(points, i, j, upto)[m]).k < (
            #[trigger] grid.occupied_in_row(points, i, j, upto)[n]).k,
        forall|cell: Cell|
            cell.i == i && cell.j == j && 0 <= cell.k < upto && #[trigger] grid.occupied(
                points,
                cell,
            ) ==> grid.occupied_in_row(points, i, j, upto).contains(cell),
    decreases upto,
{
    let row = grid.occupied_in_row(points, i, j, upto);
    if upto > 0 {
        lemma_occupied_in_row(grid, points, i, j, upto - 1);
        let earlier = grid.occupied_in_row(points, i, j, upto - 1);
        let last = Cell { i: i, j: j, k: upto - 1 };
        assert forall|cell: Cell|
            cell.i == i && cell.j == j && 0 <= cell.k < upto && #[trigger] grid.occupied(
                points,
                cell,
            ) implies row.contains(cell) by {
            if cell.k < upto - 1 {
                assert(earlier.contains(cell));
                let m = choose|m: int| 0 <= m < earlier.len() && earlier[m] == cell;
                assert(row[m] == cell);
            } else {
                assert(cell == last);
                assert(row[row.len() - 1] == cell);
            }
        }
    }
}

/// What the list of a slab's occupied cells holds: cells of the slab's
/// first `upto` rows, each occupied, in the order of the walk, and every
/// occupied one among them.
pub proof fn lemma_occupied_in_slab(grid: Grid, points: Seq<Point3D>, i: int, upto: int)
    ensures
        forall|m: int|
            0 <= m < grid.occupied_in_slab(points, i, upto).len() ==> {
                let cell = #[trigger] grid.occupied_in_slab(points, i, upto)[m];
                &&& cell.i == i
                &&& 0 <= cell.j < upto
                &&& 0 <= cell.k < grid.nz
                &&& grid.occupied(points, cell)
            },
        forall|m: int, n: int|
            0 <= m < n < grid.occupied_in_slab(points, i, upto).len() ==> (
            #[trigger] grid.occupied_in_slab(points, i, upto)[m]).before(
                #[trigger] grid.occupied_in_slab(points, i, upto)[n],
            ),
        forall|cell: Cell|
            cell.i == i && 0 <= cell.j < upto && 0 <= cell.k < grid.nz && #[trigger] grid.occupied(
                points,
                cell,
            ) ==> grid.occupied_in_slab(points, i, upto).contains(cell),
    decreases upto,
{
    let slab = grid.occupied_in_slab(points, i, upto);
    if upto > 0 {
        lemma_occupied_in_slab(grid, points, i, upto - 1);
        lemma_occupied_in_row(grid, points, i, upto - 1, grid.nz);
        let earlier = grid.occupied_in_slab(points, i, upto - 1);
        let row = grid.occupied_in_row(points, i, upto - 1, grid.nz);
        assert forall|m: int| 0 <= m < slab.len() implies {
            let cell = #[trigger] slab[m];
            &&& cell.i == i
            &&& 0 <= cell.j < upto
            &&& 0 <= cell.k < grid.nz
            &&& grid.occupied(points, cell)
        } by {
            if m < earlier.len() {
                assert(slab[m] == earlier[m]);
            } else {
                assert(slab[m] == row[m - earlier.len()]);
            }
        }
        assert forall|m: int, n: int| 0 <= m < n < slab.len() implies (#[trigger] slab[m]).before(
            #[trigger] slab[n],
        ) by {
            if n < earlier.len() {
                assert(slab[m] == earlier[m] && slab[n] == earlier[n]);
            } else if m < earlier.len() {
                assert(slab[m] == earlier[m] && slab[n] == row[n - earlier.len()]);
            } else {
                assert(slab[m] == row[m - earlier.len()] && slab[n] == row[n - earlier.len()]);
            }
        }
        assert forall|cell: Cell|
            cell.i == i && 0 <= cell.j < upto && 0 <= cell.k < grid.nz && #[trigger] grid.occupied(
                points,
                cell,
            ) implies slab.contains(cell) by {
            if cell.j < upto - 1 {
                assert(earlier.contains(cell));
                let m = choose|m: int| 0 <= m < earlier.len() && earlier[m] == cell;
                assert(slab[m] == cell);
            } else {
                assert(row.contains(cell));
                let m = choose|m: int| 0 <= m < row.len() && row[m] == cell;
                assert(slab[earlier.len() + m] == cell);
            }
        }
    }
}

/// What the list of the occupied cells of the first `upto` slabs holds:
/// cells of those slabs, each occupied, in the order of the walk, and every
/// occupied one among them.
pub proof fn lemma_occupied_in_slabs(grid: Grid, points: Seq<Point3D>, upto: int)
    ensures
        forall|m: int|
            0 <= m < grid.occupied_in_slabs(points, upto).len() ==> {
                let cell = #[trigger] grid.occupied_in_slabs(points, upto)[m];
                &&& 0 <= cell.i < upto
                &&& 0 <= cell.j < grid.ny
                &&& 0 <= cell.k < grid.nz
                &&& grid.occupied(points, cell)
            },
        forall|m: int, n: int|
            0 <= m < n < grid.occupied_in_slabs(points, upto).len() ==> (
            #[trigger] grid.occupied_in_slabs(points, upto)[m]).before(
                #[trigger] grid.occupied_in_slabs(points, upto)[n],
            ),
        forall|cell: Cell|
            0 <= cell.i < upto && 0 <= cell.j < grid.ny && 0 <= cell.k < grid.nz
                && #[trigger] grid.occupied(points, cell) ==> grid.occupied_in_slabs(
                points,
                upto,
            ).contains(cell),
    decreases upto,
{
    let slabs = grid.occupied_in_slabs(points, upto);
    if upto > 0 {
        lemma_occupied_in_slabs(grid, points, upto - 1);
        lemma_occupied_in_slab(grid, points, upto - 1, grid.ny);
        let earlier = grid.occupied_in_slabs(points, upto - 1);
        let slab = grid.occupied_in_slab(points, upto - 1, grid.ny);
        assert forall|m: int| 0 <= m < slabs.len() implies {
            let cell = #[trigger] slabs[m];
            &&& 0 <= cell.i < upto
            &&& 0 <= cell.j < grid.ny
            &&& 0 <= cell.k < grid.nz
            &&& grid.occupied(points, cell)
        } by {
            if m < earlier.len() {
                assert(slabs[m] == earlier[m]);
            } else {
                assert(slabs[m] == slab[m - earlier.len()]);
            }
        }
        assert forall|m: int, n: int| 0 <= m < n < slabs.len() implies (
        #[trigger] slabs[m]).before(#[trigger] slabs[n]) by {
            if n < earlier.len() {
                assert(slabs[m] == earlier[m] && slabs[n] == earlier[n]);
            } else if m < earlier.len() {
                assert(slabs[m] == earlier[m] && slabs[n] == slab[n - earlier.len()]);
            } else {
                assert(slabs[m] == slab[m - earlier.len()] && slabs[n] == slab[n - earlier.len()]);
            }
        }
        assert forall|cell: Cell|
            0 <= cell.i < upto && 0 <= cell.j < grid.ny && 0 <= cell.k < grid.nz
                && #[trigger] grid.occupied(points, cell) implies slabs.contains(cell) by {
            if cell.i < upto - 1 {
                assert(earlier.contains(cell));
                let m = choose|m: int| 0 <= m < earlier.len() && earlier[m] == cell;
                assert(slabs[m] == cell);
            } else {
                assert(slab.contains(cell));
                let m = choose|m: int| 0 <= m < slab.len() && slab[m] == cell;
                assert(slabs[earlier.len() + m] == cell);
            }
        }
    }
}

/// Downsampling yields exactly one point for each occupied cell of the
/// grid, and so never more points than there are occupied cells: the cells
/// listed are cells of the grid, each occupied, no two the same, none that
/// is occupied left out; and the point that stands for a cell lies within
/// the cell's half-open bounds.
pub proof fn lemma_downsampled_one_per_occupied_cell(points: Seq<Point3D>, edge: int)
    requires
        points.len() > 0,
        edge > 0,
    ensures
        downsampled(points, edge).len() == Grid::over(points, edge).occupied_cells(points).len(),
        1 <= downsampled(points, edge).len(),
        forall|m: int|
            0 <= m < downsampled(points, edge).len() ==> {
                let cell = #[trigger] Grid::over(points, edge).occupied_cells(points)[m];
                &&& Grid::over(points, edge).has(cell)
                &&& Grid::over(points, edge).occupied(points, cell)
                &&& downsampled(points, edge)[m] == Grid::over(points, edge).representative(
                    points,
                    cell,
                )
                &&& Grid::over(points, edge).cell_holds(
                    cell,
                    downsampled(points, edge)[m].position(),
                )
            },
        Grid::over(points, edge).occupied_cells(points).no_duplicates(),
        forall|cell: Cell|
            Grid::over(points, edge).has(cell) && #[trigger] Grid::over(points, edge).occupied(
                points,
                cell,
            ) ==> Grid::over(points, edge).occupied_cells(points).contains(cell),
{
    let grid = Grid::over(points, edge);
    let cells = grid.occupied_cells(points);
    lemma_occupied_in_slabs(grid, points, grid.nx);
    assert forall|m: int| 0 <= m < downsampled(points, edge).len() implies {
        let cell = #[trigger] cells[m];
        &&& grid.has(cell)
        &&& grid.occupied(points, cell)
        &&& downsampled(points, edge)[m] == grid.representative(points, cell)
        &&& grid.cell_holds(cell, downsampled(points, edge)[m].position())
    } by {
        lemma_centroid_in_cell(grid, points, cells[m]);
    }
    assert forall|m: int, n: int| 0 <= m < cells.len() && 0 <= n < cells.len() && m != n implies cells[m]
        != cells[n] by {
        if m < n {
            assert(cells[m].before(cells[n]));
        } else {
            assert(cells[n].before(cells[m]));
        }
    }
    let first = lemma_grid_covers(points, edge, 0);
    assert(cells.contains(first));
}

/// A cloud of a single point downsamples, at any voxel edge, to the one
/// point at that point's position.
pub proof fn lemma_downsampled_single_point(p: Point3D, edge: int)
    requires
        edge > 0,
    ensures
        downsampled(seq![p], edge) == seq![Point3D::bare(p.position())],
{
    let points = seq![p];
    let grid = Grid::over(points, edge);
    let cell = Cell { i: 0, j: 0, k: 0 };
    assert(xs(points).len() == 1 && ys(points).len() == 1 && zs(points).len() == 1);
    assert(lower_corner(points) == p.position());
    assert(upper_corner(points) == p.position());
    vstd::arithmetic::div_mod::lemma_div_basics(edge);
    assert(grid.nx == 1 && grid.ny == 1 && grid.nz == 1);
    assert((0 + 1) * edge == edge && 0 * edge == 0) by (nonlinear_arith);
    assert(grid.cell_holds(cell, p.position()));
    assert(points.take(1) == points);
    assert(points.take(0).len() == 0);
    lemma_members_lie_in_cell(grid, points.take(0), cell);
    lemma_members_step(grid, points, cell, 0);
    let members = grid.members(points, cell);
    assert(members == seq![p]);
    assert(members.drop_last().len() == 0);
    assert(position_sum(members.drop_last()) == Vec3::zero());
    assert(position_sum(members) == p.position());
    assert(grid.representative(points, cell) == Point3D::bare(p.position()));
    assert(grid.occupied_in_row(points, 0, 0, 0) == Seq::<Cell>::empty());
    assert(grid.occupied_in_row(points, 0, 0, 1) == seq![cell]);
    assert(grid.occupied_in_slab(points, 0, 0) == Seq::<Cell>::empty());
    assert(grid.occupied_in_slab(points, 0, 1) == seq![cell]);
    assert(grid.occupied_in_slabs(points, 0) == Seq::<Cell>::empty());
    assert(grid.occupied_in_slabs(points, 1) == seq![cell]);
    assert(downsampled(points, edge) == seq![Point3D::bare(p.position())]);
}

} // verus!
