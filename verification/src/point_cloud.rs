//! A cloud: a fixed sequence of points with its bounding box and its spatial
//! index.

use vstd::prelude::*;
use vstd::arithmetic::div_mod::{lemma_fundamental_div_mod, lemma_fundamental_div_mod_converse};
use crate::error::CloudError;
use crate::point3d::{Point3D, COORD_LIMIT};
use crate::spatial_index::{positions, SpatialIndex};
use crate::vector3d::{Vec3, Vector3D};
use crate::voxel::{
    all_in_range, cells_along, downsampled, lemma_cell_of_offset, lemma_cell_within_radius,
    lemma_centroid_in_cell, lemma_corners_in_range, lemma_downsampled_one_per_occupied_cell,
    lemma_member_sum_in_range, lemma_members_lie_in_cell, lemma_members_skip, lemma_members_step,
    lemma_position_sum_push, lower_corner, position_sum, upper_corner, xs, ys, zs, Cell, Grid,
};

verus! {

/// A sequence of points that is not empty, every point within `COORD_LIMIT`,
/// together with what is derived from it once, when the cloud is built: the
/// bounding box and the spatial index. A cloud never changes.
pub struct PointCloud {
    points: Vec<Point3D>,
    points_index: SpatialIndex,
    xmin: i32,
    xmax: i32,
    ymin: i32,
    ymax: i32,
    zmin: i32,
    zmax: i32,
}

impl View for PointCloud {
    type V = Seq<Point3D>;

    /// The points, in the order in which they were given.
    closed spec fn view(&self) -> Seq<Point3D> {
        self.points@
    }
}

/// `low` and `high` are the least and the greatest of `values`.
spec fn is_extent(values: Seq<int>, low: int, high: int) -> bool {
    &&& forall|i: int| 0 <= i < values.len() ==> low <= #[trigger] values[i] <= high
    &&& exists|i: int| 0 <= i < values.len() && values[i] == low
    &&& exists|i: int| 0 <= i < values.len() && values[i] == high
}

proof fn lemma_extent_is_min_max(values: Seq<int>, low: int, high: int)
    requires
        is_extent(values, low, high),
    ensures
        low == values.min(),
        high == values.max(),
{
    values.min_ensures();
    values.max_ensures();
    let i = choose|i: int| 0 <= i < values.len() && values[i] == low;
    let j = choose|j: int| 0 <= j < values.len() && values[j] == high;
    assert(values.contains(values[i]));
    assert(values.contains(values[j]));
    let m = choose|m: int| 0 <= m < values.len() && values[m] == values.min();
    let n = choose|n: int| 0 <= n < values.len() && values[n] == values.max();
    assert(low <= values[m]);
    assert(values[n] <= high);
}

impl PointCloud {
    #[verifier::type_invariant]
    spec fn well_formed(self) -> bool {
        &&& self.points@.len() > 0
        &&& all_in_range(self.points@)
        &&& self.points_index.keys() == positions(self.points@)
        &&& self.xmin == lower_corner(self.points@).x
        &&& self.ymin == lower_corner(self.points@).y
        &&& self.zmin == lower_corner(self.points@).z
        &&& self.xmax == upper_corner(self.points@).x
        &&& self.ymax == upper_corner(self.points@).y
        &&& self.zmax == upper_corner(self.points@).z
    }

    /// The cloud of the given points. Fails on no points, and on a point
    /// beyond `COORD_LIMIT`.
    pub fn new(points: Vec<Point3D>) -> (result: Result<PointCloud, CloudError>)
        ensures
            points@.len() == 0 ==> result == Err::<PointCloud, CloudError>(CloudError::EmptyInput),
            points@.len() > 0 && !all_in_range(points@) ==> result == Err::<PointCloud, CloudError>(
                CloudError::CoordinateOutOfRange,
            ),
            points@.len() > 0 && all_in_range(points@) ==> result is Ok && result->Ok_0@
                == points@,
    {
        if points.len() == 0 {
            return Err(CloudError::EmptyInput);
        }
        let mut i: usize = 0;
        while i < points.len()
            invariant
                i <= points.len(),
                forall|m: int| 0 <= m < i ==> (#[trigger] points@[m]).in_range(),
            decreases points.len() - i,
        {
            if !points[i].is_in_range() {
                return Err(CloudError::CoordinateOutOfRange);
            }
            i += 1;
        }
        Ok(PointCloud::from_valid(points))
    }

    /// The cloud of points that are known to be some, and in range.
    pub(crate) fn from_valid(points: Vec<Point3D>) -> (cloud: PointCloud)
        requires
            points@.len() > 0,
            all_in_range(points@),
        ensures
            cloud@ == points@,
    {
        let points_index = SpatialIndex::build(&points);
        let mut xmin: i32 = points[0].x;
        let mut xmax: i32 = points[0].x;
        let mut ymin: i32 = points[0].y;
        let mut ymax: i32 = points[0].y;
        let mut zmin: i32 = points[0].z;
        let mut zmax: i32 = points[0].z;
        let mut i: usize = 1;
        proof {
            lemma_extent_of_first(xs(points@));
            lemma_extent_of_first(ys(points@));
            lemma_extent_of_first(zs(points@));
        }
        while i < points.len()
            invariant
                1 <= i <= points.len(),
                is_extent(xs(points@).take(i as int), xmin as int, xmax as int),
                is_extent(ys(points@).take(i as int), ymin as int, ymax as int),
                is_extent(zs(points@).take(i as int), zmin as int, zmax as int),
            decreases points.len() - i,
        {
            let ghost before = i as int;
            proof {
                lemma_extent_grows(xs(points@), before, xmin as int, xmax as int);
                lemma_extent_grows(ys(points@), before, ymin as int, ymax as int);
                lemma_extent_grows(zs(points@), before, zmin as int, zmax as int);
            }
            if points[i].x < xmin {
                xmin = points[i].x;
            }
            if points[i].x > xmax {
                xmax = points[i].x;
            }
            if points[i].y < ymin {
                ymin = points[i].y;
            }
            if points[i].y > ymax {
                ymax = points[i].y;
            }
            if points[i].z < zmin {
                zmin = points[i].z;
            }
            if points[i].z > zmax {
                zmax = points[i].z;
            }
            i += 1;
        }
        proof {
            assert(xs(points@).take(i as int) == xs(points@));
            assert(ys(points@).take(i as int) == ys(points@));
            assert(zs(points@).take(i as int) == zs(points@));
            lemma_extent_is_min_max(xs(points@), xmin as int, xmax as int);
            lemma_extent_is_min_max(ys(points@), ymin as int, ymax as int);
            lemma_extent_is_min_max(zs(points@), zmin as int, zmax as int);
        }
        PointCloud { points, points_index, xmin, xmax, ymin, ymax, zmin, zmax }
    }

    /// How many points of the cloud lie in a cell of the grid of edge
    /// `edge`, and the sum of their positions. `low` is the cell's lower
    /// corner. The spatial index proposes the points within one edge length
    /// of the cell's middle; the bounds of the cell decide.
    #[verifier::loop_isolation(false)]
    fn cell_statistics(&self, low: &Vector3D, edge: u32, Ghost(cell): Ghost<Cell>) -> (stats: (
        usize,
        i128,
        i128,
        i128,
    ))
        requires
            edge > 0,
            low@.within(COORD_LIMIT as int),
            low@ == (Vec3 {
                x: Grid::over(self@, edge as int).origin.x + cell.i * edge,
                y: Grid::over(self@, edge as int).origin.y + cell.j * edge,
                z: Grid::over(self@, edge as int).origin.z + cell.k * edge,
            }),
        ensures
            stats.0 == Grid::over(self@, edge as int).members(self@, cell).len(),
            stats.1 == position_sum(Grid::over(self@, edge as int).members(self@, cell)).x,
            stats.2 == position_sum(Grid::over(self@, edge as int).members(self@, cell)).y,
            stats.3 == position_sum(Grid::over(self@, edge as int).members(self@, cell)).z,
    {
        proof {
            use_type_invariant(self);
        }
        let ghost points = self.points@;
        let ghost grid = Grid::over(points, edge as int);
        let size: i64 = edge as i64;
        let center = Vector3D::new(low.x + size / 2, low.y + size / 2, low.z + size / 2);
        assert(center@ == grid.cell_center(cell));
        let found = self.points_index.range_query(&center, edge as u64);
        let mut count: usize = 0;
        let mut sum_x: i128 = 0;
        let mut sum_y: i128 = 0;
        let mut sum_z: i128 = 0;
        let mut j: usize = 0;
        let ghost mut bound: int = 0;
        proof {
            assert(points.take(0).len() == 0);
            lemma_members_lie_in_cell(grid, points.take(0), cell);
        }
        assert((cell.i + 1) * edge == cell.i * edge + edge) by (nonlinear_arith);
        assert((cell.j + 1) * edge == cell.j * edge + edge) by (nonlinear_arith);
        assert((cell.k + 1) * edge == cell.k * edge + edge) by (nonlinear_arith);
        while j < found.len()
            invariant
                j <= found.len(),
                0 <= bound <= points.len(),
                forall|k: int| 0 <= k < j ==> (#[trigger] found[k]).1 < bound,
                forall|k: int| j <= k < found.len() ==> bound <= (#[trigger] found[k]).1,
                count == grid.members(points.take(bound), cell).len(),
                count <= bound,
                sum_x == position_sum(grid.members(points.take(bound), cell)).x,
                sum_y == position_sum(grid.members(points.take(bound), cell)).y,
                sum_z == position_sum(grid.members(points.take(bound), cell)).z,
                position_sum(grid.members(points.take(bound), cell)).within(count * COORD_LIMIT),
            decreases found.len() - j,
        {
            let idx: usize = found[j].1;
            let point: Point3D = self.points[idx];
            proof {
                assert(bound <= found[j as int].1);
                assert forall|i: int| bound <= i < idx implies !grid.cell_holds(
                    cell,
                    (#[trigger] points[i]).position(),
                ) by {
                    if grid.cell_holds(cell, points[i].position()) {
                        lemma_cell_within_radius(grid, cell, points[i].position());
                        assert(self.points_index.keys()[i] == points[i].position());
                        let k = choose|k: int| 0 <= k < found.len() && found[k].1 == i;
                        if k < j {
                            assert(found[k].1 < bound);
                        } else if k > j {
                            assert(found[j as int].1 < found[k].1);
                        }
                    }
                }
                lemma_members_skip(grid, points, cell, bound, idx as int);
                lemma_members_step(grid, points, cell, idx as int);
                lemma_position_sum_push(grid.members(points.take(idx as int), cell), point);
                assert(point.in_range());
                assert((count + 1) * COORD_LIMIT == count * COORD_LIMIT + COORD_LIMIT)
                    by (nonlinear_arith);
                assert(count * COORD_LIMIT <= 0x1_0000_0000_0000_0000 * 0x8_0000) by (nonlinear_arith)
                    requires
                        count <= 0x1_0000_0000_0000_0000,
                        COORD_LIMIT == 0x8_0000,
                ;
            }
            if point.x as i64 >= low.x && (point.x as i64) < low.x + size && point.y as i64
                >= low.y && (point.y as i64) < low.y + size && point.z as i64 >= low.z && (
            point.z as i64) < low.z + size {
                assert(count <= bound <= idx < self.points.len());
                count += 1;
                sum_x += point.x as i128;
                sum_y += point.y as i128;
                sum_z += point.z as i128;
            }
            proof {
                bound = idx as int + 1;
                assert forall|k: int| 0 <= k < j + 1 implies (#[trigger] found[k]).1 < bound by {
                    if k < j {
                        assert(found[k].1 < found[j as int].1);
                    }
                }
                assert forall|k: int| j + 1 <= k < found.len() implies bound <= (
                #[trigger] found[k]).1 by {
                    assert(found[j as int].1 < found[k].1);
                }
            }
            j += 1;
        }
        proof {
            assert forall|i: int| bound <= i < points.len() implies !grid.cell_holds(
                cell,
                (#[trigger] points[i]).position(),
            ) by {
                if grid.cell_holds(cell, points[i].position()) {
                    lemma_cell_within_radius(grid, cell, points[i].position());
                    assert(self.points_index.keys()[i] == points[i].position());
                    let k = choose|k: int| 0 <= k < found.len() && found[k].1 == i;
                    assert(found[k].1 < bound);
                }
            }
            lemma_members_skip(grid, points, cell, bound, points.len() as int);
            assert(points.take(points.len() as int) == points);
        }
        (count, sum_x, sum_y, sum_z)
    }

    /// The cloud downsampled on the voxel grid of edge `boxel_size`: a new
    /// cloud with one point for each occupied cell, at the mean of the
    /// positions of the cell's points (each coordinate rounded down) and with
    /// every attribute zero. The grid is anchored at the lower corner of the
    /// bounding box and covers the box; its cells are walked x first, then
    /// y, then z, the empty ones too, and the points come in that order.
    #[verifier::loop_isolation(false)]
    pub fn boxel_downsampling(&self, boxel_size: u32) -> (out: PointCloud)
        requires
            boxel_size > 0,
        ensures
            out@ == downsampled(self@, boxel_size as int),
    {
        proof {
            use_type_invariant(self);
            lemma_corners_in_range(self.points@);
        }
        let ghost points = self.points@;
        let ghost grid = Grid::over(points, boxel_size as int);
        let size: i64 = boxel_size as i64;
        let xrange: i64 = cell_count(self.xmax as i64 - self.xmin as i64, boxel_size);
        let yrange: i64 = cell_count(self.ymax as i64 - self.ymin as i64, boxel_size);
        let zrange: i64 = cell_count(self.zmax as i64 - self.zmin as i64, boxel_size);
        let mut res: Vec<Point3D> = Vec::new();
        let ghost mut cells: Seq<Cell> = Seq::empty();
        let mut x: i64 = 0;
        while x < xrange
            invariant
                0 <= x <= xrange,
                cells == grid.occupied_in_slabs(points, x as int),
                res@ == grid.representatives(points, cells),
                all_in_range(res@),
            decreases xrange - x,
        {
            let ghost slabs = cells;
            let mut y: i64 = 0;
            while y < yrange
                invariant
                    0 <= y <= yrange,
                    cells == slabs + grid.occupied_in_slab(points, x as int, y as int),
                    res@ == grid.representatives(points, cells),
                    all_in_range(res@),
                decreases yrange - y,
            {
                let ghost rows = cells;
                let mut z: i64 = 0;
                while z < zrange
                    invariant
                        0 <= z <= zrange,
                        cells == rows + grid.occupied_in_row(points, x as int, y as int, z as int),
                        res@ == grid.representatives(points, cells),
                        all_in_range(res@),
                    decreases zrange - z,
                {
                    let ghost cell = Cell { i: x as int, j: y as int, k: z as int };
                    proof {
                        lemma_offset_of_cell(x as int, self.xmax - self.xmin, size as int);
                        lemma_offset_of_cell(y as int, self.ymax - self.ymin, size as int);
                        lemma_offset_of_cell(z as int, self.zmax - self.zmin, size as int);
                    }
                    let low = Vector3D::new(
                        self.xmin as i64 + x * size,
                        self.ymin as i64 + y * size,
                        self.zmin as i64 + z * size,
                    );
                    let stats = self.cell_statistics(&low, boxel_size, Ghost(cell));
                    if stats.0 > 0 {
                        proof {
                            lemma_member_sum_in_range(grid, points, cell);
                            lemma_centroid_in_cell(grid, points, cell);
                            assert(stats.0 * COORD_LIMIT <= 0x1_0000_0000_0000_0000 * 0x8_0000)
                                by (nonlinear_arith)
                                requires
                                    stats.0 <= 0x1_0000_0000_0000_0000,
                                    COORD_LIMIT == 0x8_0000,
                            ;
                        }
                        let mean_x: i128 = floor_quotient(stats.1, stats.0);
                        let mean_y: i128 = floor_quotient(stats.2, stats.0);
                        let mean_z: i128 = floor_quotient(stats.3, stats.0);
                        // The attributes of the points that were averaged mean
                        // nothing for their mean: it gets none.
                        let new_point = Point3D::new(
                            mean_x as i32,
                            mean_y as i32,
                            mean_z as i32,
                            0,
                            0,
                            0,
                            0,
                            0,
                        );
                        assert(new_point == grid.representative(points, cell));
                        res.push(new_point);
                        proof {
                            cells = cells.push(cell);
                        }
                    }
                    z += 1;
                }
                y += 1;
            }
            x += 1;
        }
        proof {
            lemma_downsampled_one_per_occupied_cell(points, boxel_size as int);
        }
        PointCloud::from_valid(res)
    }

    /// The number of points.
    pub fn size(&self) -> (n: usize)
        ensures
            n == self@.len(),
            n > 0,
    {
        proof {
            use_type_invariant(self);
        }
        return self.points.len();
    }

    /// The point at `index`, or `IndexOutOfRange` where the cloud has none
    /// there.
    pub fn index(&self, index: usize) -> (result: Result<Point3D, CloudError>)
        ensures
            index < self@.len() ==> result == Ok::<Point3D, CloudError>(self@[index as int]),
            index >= self@.len() ==> result == Err::<Point3D, CloudError>(
                CloudError::IndexOutOfRange,
            ),
    {
        if index < self.points.len() {
            Ok(self.points[index])
        } else {
            Err(CloudError::IndexOutOfRange)
        }
    }

    /// The points, which are some, and all in range.
    pub fn points(&self) -> (points: &Vec<Point3D>)
        ensures
            points@ == self@,
            points@.len() > 0,
            all_in_range(points@),
    {
        proof {
            use_type_invariant(self);
        }
        &self.points
    }

    /// The spatial index of the points.
    pub fn points_index(&self) -> (index: &SpatialIndex)
        ensures
            index.keys() == positions(self@),
    {
        proof {
            use_type_invariant(self);
        }
        &self.points_index
    }

    /// The least x coordinate.
    pub fn xmin(&self) -> (v: i32)
        ensures
            v == lower_corner(self@).x,
    {
        proof {
            use_type_invariant(self);
        }
        self.xmin
    }

    /// The greatest x coordinate.
    pub fn xmax(&self) -> (v: i32)
        ensures
            v == upper_corner(self@).x,
    {
        proof {
            use_type_invariant(self);
        }
        self.xmax
    }

    /// The least y coordinate.
    pub fn ymin(&self) -> (v: i32)
        ensures
            v == lower_corner(self@).y,
    {
        proof {
            use_type_invariant(self);
        }
        self.ymin
    }

    /// The greatest y coordinate.
    pub fn ymax(&self) -> (v: i32)
        ensures
            v == upper_corner(self@).y,
    {
        proof {
            use_type_invariant(self);
        }
        self.ymax
    }

    /// The least z coordinate.
    pub fn zmin(&self) -> (v: i32)
        ensures
            v == lower_corner(self@).z,
    {
        proof {
            use_type_invariant(self);
        }
        self.zmin
    }

    /// The greatest z coordinate.
    pub fn zmax(&self) -> (v: i32)
        ensures
            v == upper_corner(self@).z,
    {
        proof {
            use_type_invariant(self);
        }
        self.zmax
    }
}

/// The quotient of a total by a count, rounded down.
fn floor_quotient(total: i128, count: usize) -> (q: i128)
    requires
        count > 0,
        -0x4000_0000_0000_0000_0000_0000_0000_0000 <= total
            <= 0x4000_0000_0000_0000_0000_0000_0000_0000,
    ensures
        q == total as int / count as int,
{
    let n: u128 = count as u128;
    if total >= 0 {
        let q: u128 = (total as u128) / n;
        proof {
            lemma_fundamental_div_mod(total as int, n as int);
            assert(q <= total) by (nonlinear_arith)
                requires
                    total as int == n * q + (total as int % n as int),
                    0 <= total as int % n as int,
                    n > 0,
                    q >= 0,
            ;
        }
        q as i128
    } else {
        let m: u128 = (-total) as u128;
        let up: u128 = (m + (n - 1)) / n;
        proof {
            let t = (m + (n - 1)) as int % n as int;
            lemma_fundamental_div_mod((m + (n - 1)) as int, n as int);
            assert(up <= m + n) by (nonlinear_arith)
                requires
                    m + (n - 1) == n * up + t,
                    0 <= t,
                    n > 0,
                    up >= 0,
            ;
            assert(total as int == (-(up as int)) * (n as int) + (n - 1 - t)) by (nonlinear_arith)
                requires
                    m + (n - 1) == n * up + t,
                    total as int == -(m as int),
            ;
            lemma_fundamental_div_mod_converse(total as int, n as int, -(up as int), n - 1 - t);
        }
        -(up as i128)
    }
}

/// How many cells of edge `edge` it takes to cover `extent`.
fn cell_count(extent: i64, edge: u32) -> (n: i64)
    requires
        edge > 0,
        0 <= extent <= 2 * COORD_LIMIT,
    ensures
        n == cells_along(extent as int, edge as int),
        1 <= n <= extent + 1,
{
    let whole: u64 = (extent as u64) / (edge as u64);
    proof {
        lemma_cell_of_offset(extent as int, extent as int, edge as int);
        lemma_offset_of_cell(whole as int, extent as int, edge as int);
        assert(whole <= whole * edge) by (nonlinear_arith)
            requires
                edge >= 1,
                whole >= 0,
        ;
    }
    whole as i64 + 1
}

/// The lower face of a cell of the grid is no further from the grid's
/// origin than the extent that the grid covers.
proof fn lemma_offset_of_cell(index: int, extent: int, edge: int)
    requires
        edge > 0,
        0 <= extent,
        0 <= index < cells_along(extent, edge),
    ensures
        0 <= index * edge <= extent,
{
    lemma_fundamental_div_mod(extent, edge);
    let q = extent / edge;
    assert(0 <= index * edge <= edge * q) by (nonlinear_arith)
        requires
            0 <= index <= q,
            edge > 0,
    ;
}

/// The first value alone is its own least and greatest.
proof fn lemma_extent_of_first(values: Seq<int>)
    requires
        values.len() >= 1,
    ensures
        is_extent(values.take(1), values[0], values[0]),
{
    assert(values.take(1)[0] == values[0]);
}

/// Taking one more value into account moves an extent to it where it lies
/// outside, and leaves the extent as it is where it does not.
proof fn lemma_extent_grows(values: Seq<int>, i: int, low: int, high: int)
    requires
        1 <= i < values.len(),
        is_extent(values.take(i), low, high),
    ensures
        is_extent(
            values.take(i + 1),
            if values[i] < low {
                values[i]
            } else {
                low
            },
            if values[i] > high {
                values[i]
            } else {
                high
            },
        ),
{
    let shorter = values.take(i);
    let longer = values.take(i + 1);
    let a = choose|a: int| 0 <= a < shorter.len() && shorter[a] == low;
    let b = choose|b: int| 0 <= b < shorter.len() && shorter[b] == high;
    assert(longer[a] == low);
    assert(longer[b] == high);
    assert(longer[i] == values[i]);
    assert forall|m: int| 0 <= m < longer.len() implies (if values[i] < low {
        values[i]
    } else {
        low
    }) <= #[trigger] longer[m] <= (if values[i] > high {
        values[i]
    } else {
        high
    }) by {
        if m < i {
            assert(shorter[m] == longer[m]);
        }
    }
}

} // verus!
