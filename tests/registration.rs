use lidar_odom::{
    calculate_centroid, calculate_error, estimate_alignment, find_closest_point,
    find_correspondences, icp, model_side, AlignError, AlignmentSums, Centroid, Point2, PointCloud,
};

fn cloud(points: &[(i32, i32)]) -> PointCloud {
    PointCloud::new(points.iter().map(|&(x, y)| Point2::new(x, y)).collect())
}

fn pairs(points: &[((i32, i32), (i32, i32))]) -> Vec<(Point2, Point2)> {
    points
        .iter()
        .map(|&((a, b), (c, d))| (Point2::new(a, b), Point2::new(c, d)))
        .collect()
}

fn angle(s: &AlignmentSums) -> f64 {
    ((s.sxy - s.syx) as f64).atan2((s.sxx + s.syy) as f64)
}

fn scale(s: &AlignmentSums) -> f64 {
    (s.model_spread as f64 / s.scene_spread as f64).sqrt()
}

fn translation(s: &AlignmentSums, sc: &Centroid, mc: &Centroid) -> (f64, f64) {
    let th = angle(s);
    let k = scale(s);
    let (cx, cy) = (sc.sum_x as f64 / sc.count as f64, sc.sum_y as f64 / sc.count as f64);
    let (dx, dy) = (mc.sum_x as f64 / mc.count as f64, mc.sum_y as f64 / mc.count as f64);
    (
        dx - k * (cx * th.cos() - cy * th.sin()),
        dy - k * (cx * th.sin() + cy * th.cos()),
    )
}

#[test]
fn closest_point_is_nearest() {
    let model = cloud(&[(10, 10), (3, 4), (-2, 0), (5, 5)]);
    assert_eq!(find_closest_point(Point2::new(0, 0), &model), Some(Point2::new(-2, 0)));
    assert_eq!(find_closest_point(Point2::new(6, 6), &model), Some(Point2::new(5, 5)));
}

#[test]
fn closest_point_tie_takes_first() {
    let model = cloud(&[(1, 0), (0, 1), (-1, 0)]);
    assert_eq!(find_closest_point(Point2::new(0, 0), &model), Some(Point2::new(1, 0)));
}

#[test]
fn closest_point_in_empty_cloud() {
    assert_eq!(find_closest_point(Point2::new(0, 0), &cloud(&[])), None);
}

#[test]
fn closest_point_extreme_coordinates() {
    let model = cloud(&[(i32::MAX, i32::MAX), (i32::MIN, i32::MIN)]);
    assert_eq!(
        find_closest_point(Point2::new(i32::MIN, i32::MIN + 1), &model),
        Some(Point2::new(i32::MIN, i32::MIN))
    );
}

#[test]
fn centroid_of_identical_points() {
    let c = calculate_centroid(&cloud(&[(7, -3), (7, -3), (7, -3), (7, -3), (7, -3)])).unwrap();
    assert_eq!(c, Centroid { sum_x: 35, sum_y: -15, count: 5 });
    assert_eq!(c.sum_x / c.count as i128, 7);
    assert_eq!(c.sum_y / c.count as i128, -3);
}

#[test]
fn centroid_of_empty_cloud() {
    assert_eq!(calculate_centroid(&cloud(&[])), None);
}

#[test]
fn centroid_sums() {
    let c = calculate_centroid(&cloud(&[(1, 2), (3, -4), (10, 0)])).unwrap();
    assert_eq!(c, Centroid { sum_x: 14, sum_y: -2, count: 3 });
}

#[test]
fn error_total_of_translated_triangle() {
    let scene = cloud(&[(0, 0), (1, 0), (0, 1)]);
    let model = cloud(&[(1, 0), (2, 0), (1, 1)]);
    assert_eq!(calculate_error(&scene, &model), Some(2));
    assert_eq!(calculate_error(&scene, &scene), Some(0));
    assert_eq!(calculate_error(&cloud(&[]), &model), None);
    assert_eq!(calculate_error(&scene, &cloud(&[])), None);
}

#[test]
fn correspondences_pair_nearest_points() {
    let scene = cloud(&[(0, 0), (1, 0), (0, 1)]);
    let model = cloud(&[(1, 0), (2, 0), (1, 1)]);
    assert_eq!(
        find_correspondences(&scene, &model),
        pairs(&[((0, 0), (1, 0)), ((1, 0), (1, 0)), ((0, 1), (1, 1))])
    );
}

#[test]
fn estimator_recovers_translation() {
    let scene = cloud(&[(0, 0), (1, 0), (0, 1)]);
    let model = cloud(&[(1, 0), (2, 0), (1, 1)]);
    let sc = calculate_centroid(&scene).unwrap();
    let mc = calculate_centroid(&model).unwrap();
    let p = pairs(&[((0, 0), (1, 0)), ((1, 0), (2, 0)), ((0, 1), (1, 1))]);
    let s = estimate_alignment(&p, &sc, &mc);
    assert_eq!(
        s,
        AlignmentSums { sxx: 6, sxy: -3, syy: 6, syx: -3, scene_spread: 12, model_spread: 12 }
    );
    assert!(angle(&s).abs() < 1e-12);
    assert!((scale(&s) - 1.0).abs() < 1e-12);
    let (tx, ty) = translation(&s, &sc, &mc);
    assert!((tx - 1.0).abs() < 1e-12 && ty.abs() < 1e-12);
}

#[test]
fn estimator_recovers_quarter_turn() {
    let scene = cloud(&[(0, 0), (2, 0), (0, 2), (2, 2)]);
    let model = cloud(&[(2, 0), (2, 2), (0, 0), (0, 2)]);
    let sc = calculate_centroid(&scene).unwrap();
    let mc = calculate_centroid(&model).unwrap();
    let p = pairs(&[((0, 0), (2, 0)), ((2, 0), (2, 2)), ((0, 2), (0, 0)), ((2, 2), (0, 2))]);
    let s = estimate_alignment(&p, &sc, &mc);
    assert_eq!(s.sxx + s.syy, 0);
    assert_eq!(s.sxy - s.syx, s.scene_spread);
    assert_eq!(s.model_spread, s.scene_spread);
    assert!((angle(&s) - std::f64::consts::FRAC_PI_2).abs() < 1e-12);
    assert!((scale(&s) - 1.0).abs() < 1e-12);
}

#[test]
fn estimator_recovers_uniform_scale() {
    let scene = cloud(&[(0, 0), (2, 0), (0, 2), (2, 2)]);
    let model = cloud(&[(-1, -1), (3, -1), (-1, 3), (3, 3)]);
    let sc = calculate_centroid(&scene).unwrap();
    let mc = calculate_centroid(&model).unwrap();
    let p = pairs(&[((0, 0), (-1, -1)), ((2, 0), (3, -1)), ((0, 2), (-1, 3)), ((2, 2), (3, 3))]);
    let s = estimate_alignment(&p, &sc, &mc);
    assert_eq!(s.scene_spread, 128);
    assert_eq!(s.sxx + s.syy, 256);
    assert_eq!(s.sxy, s.syx);
    assert_eq!(s.model_spread, 512);
    assert!(angle(&s).abs() < 1e-12);
    assert!((scale(&s) - 2.0).abs() < 1e-12);
}

#[test]
fn icp_identical_clouds() {
    let c = cloud(&[(0, 0), (4, 1), (-3, 2), (5, 5)]);
    let a = icp(&c, &c, 10, 1).unwrap();
    assert_eq!(a.error_total, 0);
    assert!(a.converged);
    assert_eq!(a.iterations, 1);
    assert_eq!(a.sums.sxy, a.sums.syx);
    assert_eq!(a.sums.sxx + a.sums.syy, a.sums.scene_spread);
    assert_eq!(a.sums.model_spread, a.sums.scene_spread);
    assert_eq!(a.scene_centroid, a.model_centroid);
    assert!(angle(&a.sums).abs() < 1e-12);
    assert!((scale(&a.sums) - 1.0).abs() < 1e-12);
    let (tx, ty) = translation(&a.sums, &a.scene_centroid, &a.model_centroid);
    assert!(tx.abs() < 1e-9 && ty.abs() < 1e-9);
}

#[test]
fn icp_translated_triangle() {
    let scene = cloud(&[(0, 0), (1, 0), (0, 1)]);
    let model = cloud(&[(1, 0), (2, 0), (1, 1)]);
    let a = icp(&scene, &model, 5, 1).unwrap();
    assert_eq!(a.scene_centroid, Centroid { sum_x: 1, sum_y: 1, count: 3 });
    assert_eq!(a.model_centroid, Centroid { sum_x: 3, sum_y: 1, count: 3 });
    assert_eq!(
        a.sums,
        AlignmentSums { sxx: 0, sxy: -3, syy: 6, syx: 0, scene_spread: 12, model_spread: 6 }
    );
    assert!((scale(&a.sums) - 0.5f64.sqrt()).abs() < 1e-12);
    assert_eq!(a.error_total, 2);
    assert!(a.converged);
    assert_eq!(a.iterations, 1);
}

#[test]
fn icp_runs_all_iterations_without_convergence() {
    let scene = cloud(&[(0, 0), (1, 0), (0, 1)]);
    let model = cloud(&[(1, 0), (2, 0), (1, 1)]);
    let a = icp(&scene, &model, 5, 0).unwrap();
    assert!(!a.converged);
    assert_eq!(a.iterations, 5);
    assert_eq!(a.error_total, 2);
}

#[test]
fn icp_coincident_scene_is_degenerate() {
    let scene = cloud(&[(3, 3), (3, 3), (3, 3)]);
    let model = cloud(&[(0, 0), (1, 5), (2, 2)]);
    assert_eq!(icp(&scene, &model, 10, 1), Err(AlignError::DegenerateScene));
    assert_eq!(icp(&cloud(&[(9, 9)]), &model, 10, 1), Err(AlignError::DegenerateScene));
}

#[test]
fn icp_empty_clouds() {
    let c = cloud(&[(0, 0), (1, 1)]);
    assert_eq!(icp(&cloud(&[]), &c, 10, 1), Err(AlignError::EmptyScene));
    assert_eq!(icp(&c, &cloud(&[]), 10, 1), Err(AlignError::EmptyModel));
    assert_eq!(icp(&cloud(&[]), &cloud(&[]), 10, 1), Err(AlignError::EmptyScene));
}

#[test]
fn point_cloud_accessors() {
    let c = cloud(&[(1, 2), (3, 4)]);
    assert_eq!(c.len(), 2);
    assert!(!c.is_empty());
    assert_eq!(c.point(1), Point2::new(3, 4));
    assert_eq!(c.points().len(), 2);
}

#[test]
fn model_side_keeps_order() {
    let p = pairs(&[((0, 0), (5, 6)), ((1, 0), (7, 8)), ((0, 1), (5, 6))]);
    assert_eq!(
        model_side(&p),
        vec![Point2::new(5, 6), Point2::new(7, 8), Point2::new(5, 6)]
    );
}
