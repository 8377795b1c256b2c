use plane_ransac::error::CloudError;
use plane_ransac::point3d::{Point3D, COORD_LIMIT};
use plane_ransac::point_cloud::PointCloud;
use plane_ransac::project::Project;
use plane_ransac::spatial_index::SpatialIndex;
use plane_ransac::vector3d::Vector3D;

fn at(x: i32, y: i32, z: i32) -> Point3D {
    Point3D::new(x, y, z, 0, 0, 0, 0, 0)
}

fn indices(found: &Vec<(u128, usize)>) -> Vec<usize> {
    let mut indices: Vec<usize> = found.iter().map(|pair| pair.1).collect();
    indices.sort();
    indices
}

fn indices_as_found(found: &Vec<(u128, usize)>) -> Vec<usize> {
    found.iter().map(|pair| pair.1).collect()
}

#[test]
fn cloud_of_no_points_is_refused() {
    assert!(matches!(PointCloud::new(vec![]), Err(CloudError::EmptyInput)));
}

#[test]
fn cloud_with_a_point_out_of_range_is_refused() {
    let points = vec![at(0, 0, 0), at(0, COORD_LIMIT + 1, 0), at(1, 1, 1)];
    assert!(matches!(PointCloud::new(points), Err(CloudError::CoordinateOutOfRange)));
    let points = vec![at(i32::MIN, 0, 0)];
    assert!(matches!(PointCloud::new(points), Err(CloudError::CoordinateOutOfRange)));
}

#[test]
fn cloud_keeps_points_in_order() {
    let points = vec![
        Point3D::new(3, 1, 4, 1, 5, 9, 2, 6),
        Point3D::new(-2, 7, 1, 8, 2, 8, 1, 8),
        Point3D::new(3, 1, 4, 1, 5, 9, 2, 6),
    ];
    let cloud = PointCloud::new(points.clone()).unwrap();
    assert_eq!(cloud.size(), 3);
    assert_eq!(cloud.points(), &points);
    for i in 0..3 {
        assert_eq!(cloud.index(i), Ok(points[i]));
    }
}

#[test]
fn cloud_index_out_of_range_is_an_error() {
    let cloud = PointCloud::new(vec![at(1, 2, 3), at(4, 5, 6)]).unwrap();
    assert_eq!(cloud.index(1), Ok(at(4, 5, 6)));
    assert_eq!(cloud.index(2), Err(CloudError::IndexOutOfRange));
    assert_eq!(cloud.index(usize::MAX), Err(CloudError::IndexOutOfRange));
}

#[test]
fn cloud_bounding_box() {
    let cloud = PointCloud::new(vec![
        at(3, -1, 40),
        at(-2, 7, 10),
        at(5, 0, 20),
        at(0, -9, 30),
    ])
    .unwrap();
    assert_eq!((cloud.xmin(), cloud.xmax()), (-2, 5));
    assert_eq!((cloud.ymin(), cloud.ymax()), (-9, 7));
    assert_eq!((cloud.zmin(), cloud.zmax()), (10, 40));
}

#[test]
fn cloud_bounding_box_of_one_point() {
    let cloud = PointCloud::new(vec![at(3, -1, 40)]).unwrap();
    assert_eq!((cloud.xmin(), cloud.xmax()), (3, 3));
    assert_eq!((cloud.ymin(), cloud.ymax()), (-1, -1));
    assert_eq!((cloud.zmin(), cloud.zmax()), (40, 40));
}

#[test]
fn cloud_at_the_limit_is_accepted() {
    let cloud =
        PointCloud::new(vec![at(COORD_LIMIT, -COORD_LIMIT, 0), at(-COORD_LIMIT, COORD_LIMIT, 1)])
            .unwrap();
    assert_eq!((cloud.xmin(), cloud.xmax()), (-COORD_LIMIT, COORD_LIMIT));
    assert_eq!(cloud.points_index().size(), 2);
}

#[test]
fn index_reports_squared_distance_and_place() {
    let points = vec![at(0, 0, 0), at(3, 4, 0), at(0, 0, 10), at(1, 2, 2)];
    let index = SpatialIndex::build(&points);
    assert_eq!(index.size(), 4);
    let mut found = index.range_query(&Vector3D::new(0, 0, 0), 5);
    found.sort();
    assert_eq!(found, vec![(0, 0), (9, 3), (25, 1)]);
}

#[test]
fn index_includes_the_boundary_of_the_range() {
    let points = vec![at(5, 0, 0), at(6, 0, 0), at(0, -5, 0), at(3, 4, 1)];
    let index = SpatialIndex::build(&points);
    let found = index.range_query(&Vector3D::new(0, 0, 0), 5);
    assert_eq!(indices(&found), vec![0, 2]);
}

#[test]
fn index_with_radius_zero_finds_coincident_points() {
    let points = vec![at(1, 2, 3), at(1, 2, 4), at(1, 2, 3), at(0, 0, 0)];
    let index = SpatialIndex::build(&points);
    let found = index.range_query(&Vector3D::new(1, 2, 3), 0);
    assert_eq!(indices(&found), vec![0, 2]);
    assert!(found.iter().all(|pair| pair.0 == 0));
    let found = index.range_query(&Vector3D::new(9, 9, 9), 0);
    assert!(found.is_empty());
}

#[test]
fn index_with_nothing_in_range_finds_nothing() {
    let points = vec![at(100, 0, 0), at(0, 100, 0), at(0, 0, 100)];
    let index = SpatialIndex::build(&points);
    assert!(index.range_query(&Vector3D::new(0, 0, 0), 99).is_empty());
    assert_eq!(index.range_query(&Vector3D::new(0, 0, 0), 100).len(), 3);
}

#[test]
fn index_agrees_with_a_scan() {
    let mut points = Vec::new();
    let mut state: u64 = 12345;
    for _ in 0..400 {
        let mut coordinates = [0i32; 3];
        for c in coordinates.iter_mut() {
            state = state.wrapping_mul(6364136223846793005).wrapping_add(1442695040888963407);
            *c = ((state >> 33) % 201) as i32 - 100;
        }
        points.push(at(coordinates[0], coordinates[1], coordinates[2]));
    }
    let index = SpatialIndex::build(&points);
    for (center, radius) in [((0i64, 0i64, 0i64), 50u64), ((100, -100, 30), 70), ((-20, 5, 5), 1), ((500, 500, 500), 10), ((0, 0, 0), 1000)] {
        let found = index.range_query(&Vector3D::new(center.0, center.1, center.2), radius);
        let mut expected = Vec::new();
        for (i, p) in points.iter().enumerate() {
            let dx = p.x as i64 - center.0;
            let dy = p.y as i64 - center.1;
            let dz = p.z as i64 - center.2;
            let squared = (dx * dx + dy * dy + dz * dz) as u128;
            if squared <= (radius as u128) * (radius as u128) {
                expected.push((squared, i));
            }
        }
        let mut found = found;
        found.sort_by_key(|pair| pair.1);
        assert_eq!(found, expected);
    }
}

#[test]
fn index_of_sorted_points_answers_queries() {
    // each point goes to the right of the one before: the tree is a chain
    let points: Vec<Point3D> = (0..3000).map(|i| at(i, i, i)).collect();
    let index = SpatialIndex::build(&points);
    let found = index.range_query(&Vector3D::new(1500, 1500, 1500), 2);
    assert_eq!(found, vec![(3, 1499), (0, 1500), (3, 1501)]);
    let found = index.range_query(&Vector3D::new(-10, -10, -10), 18);
    assert_eq!(found, vec![(300, 0)]);
    assert_eq!(index.range_query(&Vector3D::new(0, 0, 0), 10_000).len(), 3000);
}

#[test]
fn index_of_many_sorted_points_answers_queries() {
    let points: Vec<Point3D> = (0..100_000).map(|i| at(i, 2 * i, -i)).collect();
    let index = SpatialIndex::build(&points);
    assert_eq!(index.size(), 100_000);
    for middle in [0i64, 1, 777, 50_000, 99_999] {
        let found = index.range_query(&Vector3D::new(middle, 2 * middle, -middle), 3);
        let expected: Vec<(u128, usize)> = [middle - 1, middle, middle + 1]
            .iter()
            .filter(|i| 0 <= **i && **i < 100_000)
            .map(|i| ((6 * (i - middle) * (i - middle)) as u128, *i as usize))
            .collect();
        assert_eq!(found, expected);
    }
}

#[test]
fn index_of_a_grid_answers_queries() {
    // the order in which downsampling emits points: x first, then y, then z
    let mut points = Vec::new();
    for x in 0..30 {
        for y in 0..30 {
            for z in 0..30 {
                points.push(at(10 * x, 10 * y, 10 * z));
            }
        }
    }
    let index = SpatialIndex::build(&points);
    let found = index.range_query(&Vector3D::new(150, 150, 150), 10);
    let place = |x: usize, y: usize, z: usize| (x * 30 + y) * 30 + z;
    assert_eq!(
        found,
        vec![
            (100, place(14, 15, 15)),
            (100, place(15, 14, 15)),
            (100, place(15, 15, 14)),
            (0, place(15, 15, 15)),
            (100, place(15, 15, 16)),
            (100, place(15, 16, 15)),
            (100, place(16, 15, 15)),
        ]
    );
    assert_eq!(index.range_query(&Vector3D::new(145, 145, 145), 8).len(), 0);
    assert_eq!(index.range_query(&Vector3D::new(145, 145, 145), 9).len(), 8);
}

#[test]
fn index_of_coincident_points_finds_each() {
    let points = vec![at(1, 1, 1), at(1, 1, 1), at(0, 1, 1), at(1, 1, 1), at(1, 0, 1), at(1, 1, 0)];
    let index = SpatialIndex::build(&points);
    let found = index.range_query(&Vector3D::new(1, 1, 1), 0);
    assert_eq!(found, vec![(0, 0), (0, 1), (0, 3)]);
    let found = index.range_query(&Vector3D::new(1, 1, 1), 1);
    assert_eq!(found, vec![(0, 0), (0, 1), (1, 2), (0, 3), (1, 4), (1, 5)]);
}

#[test]
fn index_comes_by_ascending_place() {
    let points = vec![at(5, 0, 0), at(-5, 0, 0), at(0, 5, 0), at(0, -5, 0), at(0, 0, 5), at(0, 0, -5)];
    let index = SpatialIndex::build(&points);
    let found = index.range_query(&Vector3D::new(0, 0, 0), 5);
    assert_eq!(indices_as_found(&found), vec![0, 1, 2, 3, 4, 5]);
}

#[test]
fn index_of_no_points_finds_nothing() {
    let index = SpatialIndex::build(&vec![]);
    assert_eq!(index.size(), 0);
    assert!(index.range_query(&Vector3D::new(0, 0, 0), u64::MAX).is_empty());
}

#[test]
fn index_takes_a_radius_beyond_all_points() {
    let points = vec![at(i32::MIN, i32::MIN, i32::MIN), at(i32::MAX, i32::MAX, i32::MAX), at(0, 0, 0)];
    let index = SpatialIndex::build(&points);
    let found = index.range_query(&Vector3D::new(4_294_967_296, -4_294_967_296, 0), u64::MAX);
    assert_eq!(indices_as_found(&found), vec![0, 1, 2]);
}

#[test]
fn project_holds_name_and_cloud() {
    let cloud = PointCloud::new(vec![at(1, 2, 3)]).unwrap();
    let project = Project::new(String::from("survey"), cloud);
    assert_eq!(project.project_name(), "survey");
    assert_eq!(project.point_cloud().size(), 1);
    assert_eq!(project.point_cloud().index(0), Ok(at(1, 2, 3)));
}
