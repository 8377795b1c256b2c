use plane_ransac::error::CloudError;
use plane_ransac::plane3d::Plane;
use plane_ransac::point3d::Point3D;
use plane_ransac::point_cloud::PointCloud;
use plane_ransac::ransac::{
    evaluate_sample, keep_better, ransac, ransac_from, ransac_seeded, ransac_with_samples, Sample,
    SampleSource, STRIDE,
};
use plane_ransac::vector3d::Vector3D;
use rand::rngs::StdRng;
use rand::{Rng, SeedableRng};

fn at(x: i32, y: i32, z: i32) -> Point3D {
    Point3D::new(x, y, z, 0, 0, 0, 0, 0)
}

fn sample(first: usize, second: usize, third: usize) -> Sample {
    Sample { first, second, third }
}

fn coefficients(plane: &Plane) -> (i64, i64, i64, i64) {
    (plane.a, plane.b, plane.c, plane.d)
}

/// Three points that span the plane z = 0, then points at several heights.
fn column() -> PointCloud {
    PointCloud::new(vec![
        at(0, 0, 0),
        at(10, 0, 0),
        at(0, 10, 0),
        at(5, 5, 0),
        at(5, 5, 1),
        at(5, 5, 2),
        at(5, 5, -1),
        at(5, 5, 3),
    ])
    .unwrap()
}

/// `on_plane` points of the plane x + 2y + 2z = 90 and `off_plane` points far
/// above it.
fn synthetic(on_plane: usize, off_plane: usize) -> PointCloud {
    let mut points = Vec::new();
    let mut i: i32 = 0;
    while points.len() < on_plane {
        let y = (i * 7) % 31;
        let z = (i * 13) % 29;
        points.push(Point3D::new(90 - 2 * y - 2 * z, y, z, i, 0, 0, 0, 0));
        i += 1;
    }
    for j in 0..off_plane as i32 {
        let y = (j * 5) % 31;
        let z = (j * 11) % 29;
        points.push(Point3D::new(90 - 2 * y - 2 * z + 3000 + 100 * j, y, z, j, 1, 1, 1, 1));
    }
    PointCloud::new(points).unwrap()
}

fn seeded_samples(seed: u64, size: usize, count: usize) -> Vec<Sample> {
    let mut rng = StdRng::seed_from_u64(seed);
    (0..count)
        .map(|_| sample(rng.gen_range(0..size), rng.gen_range(0..size), rng.gen_range(0..size)))
        .collect()
}

#[test]
fn fewer_than_three_points_are_insufficient() {
    for points in [vec![at(0, 0, 0)], vec![at(0, 0, 0), at(1, 0, 0)]] {
        let cloud = PointCloud::new(points.clone()).unwrap();
        assert!(matches!(ransac(cloud, 1, 100), Err(CloudError::InsufficientPoints)));
        let cloud = PointCloud::new(points.clone()).unwrap();
        assert!(matches!(ransac_seeded(cloud, 1, 100, 5), Err(CloudError::InsufficientPoints)));
        let cloud = PointCloud::new(points).unwrap();
        assert!(matches!(
            ransac_from(&cloud, 1, 100, &mut SampleSource::seeded(5)),
            Err(CloudError::InsufficientPoints)
        ));
        assert!(matches!(
            ransac_with_samples(&cloud, 1, &vec![sample(0, 0, 0)]),
            Err(CloudError::InsufficientPoints)
        ));
        assert!(matches!(
            ransac_with_samples(&cloud, 1, &vec![sample(7, 8, 9)]),
            Err(CloudError::InsufficientPoints)
        ));
    }
}

#[test]
fn sample_plane_and_inliers() {
    let cloud = column();
    let (plane, inliers) = evaluate_sample(&cloud, sample(0, 1, 2), 2).unwrap();
    assert_eq!(coefficients(&plane), (0, 0, 100, 0));
    assert_eq!(inliers, vec![at(5, 5, 0), at(5, 5, 1), at(5, 5, -1)]);
}

#[test]
fn inliers_are_strictly_closer_than_the_threshold() {
    let cloud = column();
    let (_, inliers) = evaluate_sample(&cloud, sample(0, 1, 2), 1).unwrap();
    assert_eq!(inliers, vec![at(5, 5, 0)]);
    let (_, inliers) = evaluate_sample(&cloud, sample(0, 1, 2), 3).unwrap();
    assert_eq!(inliers, vec![at(5, 5, 0), at(5, 5, 1), at(5, 5, 2), at(5, 5, -1)]);
    let (_, inliers) = evaluate_sample(&cloud, sample(0, 1, 2), 4).unwrap();
    assert_eq!(inliers, vec![at(5, 5, 0), at(5, 5, 1), at(5, 5, 2), at(5, 5, -1), at(5, 5, 3)]);
}

#[test]
fn threshold_zero_admits_no_inlier() {
    let cloud = column();
    let (plane, inliers) = evaluate_sample(&cloud, sample(0, 1, 2), 0).unwrap();
    assert_eq!(coefficients(&plane), (0, 0, 100, 0));
    assert!(inliers.is_empty());
}

#[test]
fn sampled_points_are_no_inliers() {
    let cloud = column();
    let (_, inliers) = evaluate_sample(&cloud, sample(3, 1, 0), 1).unwrap();
    assert_eq!(inliers, vec![at(0, 10, 0)]);
}

#[test]
fn points_equal_to_a_sampled_point_are_no_inliers() {
    let cloud = PointCloud::new(vec![
        at(0, 0, 0),
        at(10, 0, 0),
        at(0, 10, 0),
        at(0, 0, 0),
        Point3D::new(0, 0, 0, 1, 0, 0, 0, 0),
        at(3, 3, 0),
    ])
    .unwrap();
    let (_, inliers) = evaluate_sample(&cloud, sample(0, 1, 2), 1).unwrap();
    // the copy of the first sampled point is left out; the point that
    // differs from it in an attribute is not
    assert_eq!(inliers, vec![Point3D::new(0, 0, 0, 1, 0, 0, 0, 0), at(3, 3, 0)]);
}

#[test]
fn inliers_keep_their_attributes() {
    let cloud = PointCloud::new(vec![
        at(0, 0, 0),
        at(10, 0, 0),
        at(0, 10, 0),
        Point3D::new(4, 4, 0, 5, 6, 7, 8, 9),
    ])
    .unwrap();
    let (_, inliers) = evaluate_sample(&cloud, sample(0, 1, 2), 1).unwrap();
    assert_eq!(inliers, vec![Point3D::new(4, 4, 0, 5, 6, 7, 8, 9)]);
}

#[test]
fn degenerate_samples_are_refused() {
    let cloud = PointCloud::new(vec![at(0, 0, 0), at(1, 1, 1), at(2, 2, 2), at(0, 1, 0)]).unwrap();
    for s in [sample(0, 1, 2), sample(0, 0, 3), sample(3, 1, 3), sample(2, 2, 2)] {
        assert!(matches!(evaluate_sample(&cloud, s, 5), Err(CloudError::DegenerateSample)));
    }
    assert!(evaluate_sample(&cloud, sample(0, 1, 3), 5).is_ok());
}

#[test]
fn samples_beyond_the_cloud_are_refused() {
    let cloud = column();
    for s in [sample(8, 0, 1), sample(0, 8, 1), sample(0, 1, 8), sample(usize::MAX, 0, 0)] {
        assert!(matches!(evaluate_sample(&cloud, s, 5), Err(CloudError::IndexOutOfRange)));
        assert!(matches!(
            ransac_with_samples(&cloud, 5, &vec![sample(0, 1, 2), s]),
            Err(CloudError::IndexOutOfRange)
        ));
    }
}

#[test]
fn better_candidate_replaces_the_best() {
    let few = (Plane::new_without_color(1, 0, 0, 0), vec![at(0, 0, 0)]);
    let many = (Plane::new_without_color(0, 1, 0, 0), vec![at(0, 0, 0), at(1, 0, 0)]);
    let kept = keep_better(Some(few.clone()), many.clone()).unwrap();
    assert_eq!(coefficients(&kept.0), (0, 1, 0, 0));
    assert_eq!(kept.1, many.1);
    let kept = keep_better(Some(many.clone()), few.clone()).unwrap();
    assert_eq!(coefficients(&kept.0), (0, 1, 0, 0));
    assert_eq!(kept.1, many.1);
}

#[test]
fn equal_candidate_leaves_the_best() {
    let first = (Plane::new_without_color(1, 0, 0, 0), vec![at(0, 0, 0)]);
    let second = (Plane::new_without_color(0, 1, 0, 0), vec![at(9, 9, 9)]);
    let kept = keep_better(Some(first.clone()), second).unwrap();
    assert_eq!(coefficients(&kept.0), (1, 0, 0, 0));
    assert_eq!(kept.1, first.1);
}

#[test]
fn first_candidate_is_kept_even_without_inliers() {
    let candidate = (Plane::new_without_color(1, 0, 0, 0), vec![]);
    let kept = keep_better(None, candidate).unwrap();
    assert_eq!(coefficients(&kept.0), (1, 0, 0, 0));
    assert!(kept.1.is_empty());
}

#[test]
fn no_sample_or_only_degenerate_ones_find_no_plane() {
    let cloud = PointCloud::new(vec![at(0, 0, 0), at(1, 1, 1), at(2, 2, 2), at(0, 1, 0)]).unwrap();
    assert!(matches!(ransac_with_samples(&cloud, 5, &vec![]), Err(CloudError::NoValidPlaneFound)));
    assert!(matches!(
        ransac_with_samples(&cloud, 5, &vec![sample(0, 1, 2), sample(1, 1, 3)]),
        Err(CloudError::NoValidPlaneFound)
    ));
    let cloud = PointCloud::new(vec![at(0, 0, 0), at(1, 1, 1), at(2, 2, 2)]).unwrap();
    assert!(matches!(ransac(cloud, 5, 50), Err(CloudError::NoValidPlaneFound)));
    let cloud = PointCloud::new(vec![at(0, 0, 0), at(1, 0, 0), at(0, 1, 0)]).unwrap();
    assert!(matches!(ransac(cloud, 5, 0), Err(CloudError::NoValidPlaneFound)));
}

#[test]
fn degenerate_samples_are_passed_over() {
    let cloud = column();
    let (plane, inliers) =
        ransac_with_samples(&cloud, 2, &vec![sample(0, 0, 1), sample(0, 1, 2), sample(3, 4, 5)])
            .unwrap();
    assert_eq!(coefficients(&plane), (0, 0, 100, 0));
    assert_eq!(inliers, vec![at(5, 5, 0), at(5, 5, 1), at(5, 5, -1)]);
}

#[test]
fn fit_without_inliers_returns_the_first_plane() {
    let cloud = PointCloud::new(vec![at(0, 0, 0), at(10, 0, 0), at(0, 10, 0), at(0, 0, 10)]).unwrap();
    let (plane, inliers) =
        ransac_with_samples(&cloud, 1, &vec![sample(0, 1, 2), sample(0, 1, 3)]).unwrap();
    assert_eq!(coefficients(&plane), (0, 0, 100, 0));
    assert!(inliers.is_empty());
}

#[test]
fn ties_keep_the_plane_found_first() {
    // z = 0 and y = 0 have two inliers each
    let cloud = PointCloud::new(vec![
        at(0, 0, 0),
        at(10, 0, 0),
        at(0, 10, 0),
        at(0, 0, 10),
        at(5, 5, 0),
        at(7, 2, 0),
        at(5, 0, 5),
        at(7, 0, 2),
    ])
    .unwrap();
    let floor = sample(0, 1, 2);
    let wall = sample(0, 1, 3);
    let (plane, inliers) = ransac_with_samples(&cloud, 1, &vec![floor, wall]).unwrap();
    assert_eq!(coefficients(&plane), (0, 0, 100, 0));
    assert_eq!(inliers, vec![at(5, 5, 0), at(7, 2, 0)]);
    let (plane, inliers) = ransac_with_samples(&cloud, 1, &vec![wall, floor]).unwrap();
    assert_eq!(coefficients(&plane), (0, -100, 0, 0));
    assert_eq!(inliers, vec![at(5, 0, 5), at(7, 0, 2)]);
}

#[test]
fn more_inliers_win_whatever_the_order() {
    let cloud = column();
    // through (0,0,0), (10,0,0), (5,5,3): only (0,10,0) is far from 3y = 5z
    let tilted = sample(0, 1, 7);
    let level = sample(0, 1, 2);
    let (_, tilted_inliers) = evaluate_sample(&cloud, tilted, 2).unwrap();
    let (_, level_inliers) = evaluate_sample(&cloud, level, 2).unwrap();
    assert!(tilted_inliers.len() != level_inliers.len());
    let most = tilted_inliers.len().max(level_inliers.len());
    for samples in [vec![tilted, level], vec![level, tilted]] {
        let (_, inliers) = ransac_with_samples(&cloud, 2, &samples).unwrap();
        assert_eq!(inliers.len(), most);
    }
}

#[test]
fn best_count_never_falls_with_more_samples() {
    let cloud = synthetic(60, 15);
    let samples = seeded_samples(2024, cloud.size(), 120);
    let mut last: Option<usize> = None;
    for count in 0..=samples.len() {
        let prefix: Vec<Sample> = samples[..count].to_vec();
        match ransac_with_samples(&cloud, 2, &prefix) {
            Ok((_, inliers)) => {
                assert!(last.map_or(true, |previous| previous <= inliers.len()));
                last = Some(inliers.len());
            }
            Err(error) => {
                assert_eq!(error, CloudError::NoValidPlaneFound);
                assert!(last.is_none());
            }
        }
    }
    assert!(last.is_some());
}

#[test]
fn fit_from_the_same_samples_is_the_same() {
    let cloud = synthetic(40, 10);
    let samples = seeded_samples(7, cloud.size(), 60);
    let (first_plane, first_inliers) = ransac_with_samples(&cloud, 2, &samples).unwrap();
    let (second_plane, second_inliers) = ransac_with_samples(&cloud, 2, &samples).unwrap();
    assert_eq!(coefficients(&first_plane), coefficients(&second_plane));
    assert_eq!(first_inliers, second_inliers);
}

#[test]
fn synthetic_plane_is_recovered_from_seeded_samples() {
    let on_plane = 80;
    let cloud = synthetic(on_plane, 20);
    let samples = seeded_samples(42, cloud.size(), 200);
    let (plane, inliers) = ransac_with_samples(&cloud, 2, &samples).unwrap();
    assert!(!plane.is_degenerate());
    // every point of the plane but the three sampled ones
    assert_eq!(inliers.len(), on_plane - 3);
    assert!(inliers.iter().all(|p| p.x + 2 * p.y + 2 * p.z == 90));
    let normal = plane.get_normal_vector();
    assert!(normal == Vector3D::new(1, 2, 2) || normal == Vector3D::new(-1, -2, -2));
    for p in cloud.points().iter().filter(|p| p.x + 2 * p.y + 2 * p.z == 90) {
        assert_eq!(p.distance_to_plane(&plane), 0);
    }
}

#[test]
fn synthetic_plane_is_recovered_from_random_samples() {
    let on_plane = 80;
    let (plane, inliers) = ransac(synthetic(on_plane, 20), 2, 400).unwrap();
    assert!(!plane.is_degenerate());
    assert_eq!(inliers.len(), on_plane - 3);
    let normal = plane.get_normal_vector();
    assert!(normal == Vector3D::new(1, 2, 2) || normal == Vector3D::new(-1, -2, -2));
}

#[test]
fn random_fit_returns_points_of_the_cloud_close_to_its_plane() {
    let cloud = synthetic(30, 30);
    let points = cloud.points().clone();
    let (plane, inliers) = ransac(cloud, 50, 30).unwrap();
    assert!(!plane.is_degenerate());
    for p in inliers.iter() {
        assert!(points.contains(p));
        assert!(p.distance_to_plane(&plane) < 50);
    }
    // there is a sample of three points of the cloud with this plane
    assert!(inliers.len() <= points.len() - 3);
}

#[test]
fn sources_draw_within_the_sequence() {
    for mut source in [SampleSource::entropy(), SampleSource::seeded(1), SampleSource::seeded(2)] {
        for n in [1usize, 2, 3, 10, 1000] {
            for _ in 0..200 {
                assert!(source.draw(n) < n);
                let s = source.draw_sample(n);
                assert!(s.first < n && s.second < n && s.third < n);
            }
        }
    }
}

#[test]
fn sources_draw_every_place() {
    for mut source in [SampleSource::entropy(), SampleSource::seeded(3)] {
        let mut seen = [false; 5];
        for _ in 0..2000 {
            seen[source.draw(5)] = true;
        }
        assert_eq!(seen, [true; 5]);
    }
}

#[test]
fn seeded_source_repeats_its_draws() {
    let mut first = SampleSource::seeded(77);
    let mut second = SampleSource::seeded(77);
    for _ in 0..100 {
        assert_eq!(first.draw_sample(1000), second.draw_sample(1000));
    }
}

#[test]
fn seeded_fit_repeats_itself() {
    for seed in [0u64, 1, 42, u64::MAX] {
        let (first_plane, first_inliers) = ransac_seeded(synthetic(40, 40), 2, 25, seed).unwrap();
        let (second_plane, second_inliers) = ransac_seeded(synthetic(40, 40), 2, 25, seed).unwrap();
        assert_eq!(coefficients(&first_plane), coefficients(&second_plane));
        assert_eq!(first_inliers, second_inliers);
    }
}

#[test]
fn synthetic_plane_is_recovered_with_a_fixed_seed() {
    let on_plane = 80;
    let (plane, inliers) = ransac_seeded(synthetic(on_plane, 20), 2, 300, 42).unwrap();
    assert!(!plane.is_degenerate());
    assert_eq!(inliers.len(), on_plane - 3);
    assert!(inliers.iter().all(|p| p.x + 2 * p.y + 2 * p.z == 90));
    let normal = plane.get_normal_vector();
    assert!(normal == Vector3D::new(1, 2, 2) || normal == Vector3D::new(-1, -2, -2));
}

#[test]
fn seeded_fit_is_the_fit_of_the_samples_drawn() {
    let cloud = synthetic(30, 30);
    let iterations = 40;
    let mut source = SampleSource::seeded(9);
    let samples: Vec<Sample> = (0..iterations).map(|_| source.draw_sample(cloud.size())).collect();
    let (expected_plane, expected_inliers) = ransac_with_samples(&cloud, 3, &samples).unwrap();
    let (plane, inliers) =
        ransac_from(&cloud, 3, iterations, &mut SampleSource::seeded(9)).unwrap();
    assert_eq!(coefficients(&plane), coefficients(&expected_plane));
    assert_eq!(inliers, expected_inliers);
}

#[test]
fn best_count_never_falls_with_more_iterations_of_one_seed() {
    let mut last = 0usize;
    for iterations in 1..60 {
        match ransac_seeded(synthetic(50, 25), 2, iterations, 11) {
            Ok((_, inliers)) => {
                assert!(last <= inliers.len());
                last = inliers.len();
            }
            Err(error) => {
                assert_eq!(error, CloudError::NoValidPlaneFound);
                assert_eq!(last, 0);
            }
        }
    }
}

#[test]
fn seeded_source_starts_in_the_state_of_its_seed() {
    assert_eq!(SampleSource::seeded(0), SampleSource::Seeded { state: 0 });
    assert_eq!(SampleSource::seeded(12345), SampleSource::Seeded { state: 12345 });
    assert_eq!(SampleSource::seeded(u64::MAX), SampleSource::Seeded { state: u64::MAX });
    assert_eq!(SampleSource::entropy(), SampleSource::Entropy);
}

#[test]
fn seeded_source_moves_on_by_one_stride_a_draw() {
    let mut source = SampleSource::seeded(10);
    source.draw(5);
    assert_eq!(source, SampleSource::Seeded { state: 10 + STRIDE });
    source.draw(5);
    // twice the stride is beyond the range: the state goes around its end
    assert_eq!(source, SampleSource::Seeded { state: 10u64.wrapping_add(STRIDE).wrapping_add(STRIDE) });
    assert_eq!(source, SampleSource::Seeded { state: 4_354_685_564_936_845_364 });
    source.draw_sample(5);
    assert_eq!(source, SampleSource::Seeded { state: 10u64.wrapping_add(STRIDE.wrapping_mul(5)) });
    let mut last = SampleSource::seeded(u64::MAX);
    last.draw(5);
    assert_eq!(last, SampleSource::Seeded { state: STRIDE - 1 });
    let mut edge = SampleSource::seeded(u64::MAX - STRIDE);
    edge.draw(5);
    assert_eq!(edge, SampleSource::Seeded { state: u64::MAX });
}

#[test]
fn entropy_source_stays_what_it_is() {
    let mut source = SampleSource::entropy();
    source.draw(5);
    source.draw_sample(5);
    assert_eq!(source, SampleSource::Entropy);
}

#[test]
fn seeded_source_draws_what_a_generator_started_from_its_state_yields_first() {
    for seed in [0u64, 1, 2, 42, 1 << 40, u64::MAX - 3, u64::MAX] {
        for n in [1usize, 2, 3, 10, 1000, 1 << 20, usize::MAX] {
            let mut source = SampleSource::seeded(seed);
            let mut state = seed;
            for _ in 0..6 {
                let expected = StdRng::seed_from_u64(state).gen_range(0..n as u64) as usize;
                assert_eq!(source.draw(n), expected);
                state = state.wrapping_add(STRIDE);
            }
            assert_eq!(source, SampleSource::Seeded { state });
        }
    }
}

#[test]
fn seeded_source_draws_samples_place_by_place() {
    let n = 1000usize;
    let mut by_sample = SampleSource::seeded(2024);
    let mut by_place = SampleSource::seeded(2024);
    for _ in 0..50 {
        let s = by_sample.draw_sample(n);
        assert_eq!(s, sample(by_place.draw(n), by_place.draw(n), by_place.draw(n)));
    }
    assert_eq!(by_sample, by_place);
}

#[test]
fn seeded_source_does_not_hand_back_its_arguments() {
    let n = 1000usize;
    let mut source = SampleSource::seeded(3);
    let draws: Vec<usize> = (0..200).map(|_| source.draw(n)).collect();
    assert!(draws.iter().any(|d| *d != 3));
    assert!(draws.iter().any(|d| *d != draws[0]));
    let mut seen = vec![false; 10];
    let mut source = SampleSource::seeded(4);
    for _ in 0..2000 {
        seen[source.draw(10)] = true;
    }
    assert!(seen.iter().all(|s| *s));
}

#[test]
fn neighbouring_seeds_draw_different_samples() {
    let n = 1_000_000usize;
    let mut first = SampleSource::seeded(7);
    let mut second = SampleSource::seeded(8);
    let a: Vec<usize> = (0..100).map(|_| first.draw(n)).collect();
    let b: Vec<usize> = (0..100).map(|_| second.draw(n)).collect();
    assert_ne!(a, b);
    // the one is not the other moved on by a draw
    assert_ne!(a[1..].to_vec(), b[..99].to_vec());
    assert_ne!(b[1..].to_vec(), a[..99].to_vec());
}

#[test]
fn seeded_fit_leaves_the_source_where_its_draws_end() {
    let cloud = synthetic(30, 30);
    let mut source = SampleSource::seeded(9);
    ransac_from(&cloud, 3, 40, &mut source).unwrap();
    assert_eq!(source, SampleSource::Seeded { state: 9u64.wrapping_add(STRIDE.wrapping_mul(120)) });
    let small = PointCloud::new(vec![at(0, 0, 0), at(1, 0, 0)]).unwrap();
    let mut untouched = SampleSource::seeded(9);
    assert!(ransac_from(&small, 3, 40, &mut untouched).is_err());
    assert_eq!(untouched, SampleSource::seeded(9));
}

#[test]
fn seeded_fit_is_the_fit_of_the_samples_its_seed_determines() {
    let cloud = synthetic(30, 30);
    let n = cloud.size() as u64;
    let seed = 31u64;
    let iterations = 40;
    let place = |turn: u64| {
        StdRng::seed_from_u64(seed.wrapping_add(STRIDE.wrapping_mul(turn))).gen_range(0..n) as usize
    };
    let samples: Vec<Sample> =
        (0..iterations as u64).map(|k| sample(place(3 * k), place(3 * k + 1), place(3 * k + 2))).collect();
    let (expected_plane, expected_inliers) = ransac_with_samples(&cloud, 3, &samples).unwrap();
    let (plane, inliers) = ransac_seeded(synthetic(30, 30), 3, iterations, seed).unwrap();
    assert_eq!(coefficients(&plane), coefficients(&expected_plane));
    assert_eq!(inliers, expected_inliers);
}
