use shapeproc::chunkify::{
    bb_in_bb_xy, bb_out_bb_xy, cut, cut_shape, optimize_lines, pick_heights, pick_points,
};
use shapeproc::data::{default_box, get_global_bb, max_of, min_of, start_box, ShapeZ};
use shapeproc::info::{
    compress_doubles_stats, compress_repeated_points_in_lines_stats, compress_shapes_stats,
    info_package, target_compression_type, target_multiplier, CompTarget,
};
use shapeproc::logger::{Issue, Logger};

fn shape(points: Vec<(u64, u64)>, z: u64) -> ShapeZ {
    let mut s = ShapeZ {
        points,
        z,
        bb: start_box(),
    };
    s.stretch_bb();
    s.update_bb();
    s
}

#[test]
fn min_max_of_coordinates() {
    assert_eq!(min_of(3, 9), 3);
    assert_eq!(max_of(3, 9), 9);
    assert_eq!(min_of(7, 7), 7);
}

#[test]
fn boxes_have_expected_corners() {
    assert_eq!(default_box(), ((0, 0, 0), (0, 0, 0)));
    assert_eq!(start_box(), ((u64::MAX, u64::MAX, u64::MAX), (0, 0, 0)));
}

#[test]
fn stretch_bb_finds_extent() {
    let s = shape(vec![(10, 10), (60, 10), (60, 60)], 5);
    assert_eq!((s.bb.0).0, 10);
    assert_eq!((s.bb.0).1, 10);
    assert_eq!((s.bb.1).0, 60);
    assert_eq!((s.bb.1).1, 60);
    assert_eq!((s.bb.0).2, 5);
    assert_eq!((s.bb.1).2, 5);
}

#[test]
fn global_bb_merges_shapes() {
    let a = shape(vec![(0, 5)], 1);
    let b = shape(vec![(20, 2)], 9);
    let g = get_global_bb(&vec![a, b]);
    assert_eq!((g.0).0, 0);
    assert_eq!((g.0).1, 2);
    assert_eq!((g.1).0, 20);
    assert_eq!((g.1).1, 5);
    assert_eq!((g.0).2, 1);
    assert_eq!((g.1).2, 9);
}

#[test]
fn global_bb_of_nothing_is_zero() {
    let g = get_global_bb::<ShapeZ>(&Vec::new());
    assert_eq!(g, ((0, 0, 0), (0, 0, 0)));
}

#[test]
fn bb_tests_match_geometry() {
    let outer = ((0, 0, 0), (10, 10, 0));
    let inner = ((2, 2, 0), (3, 3, 0));
    let apart = ((20, 20, 0), (30, 30, 0));
    assert!(bb_in_bb_xy(&outer, &inner));
    assert!(!bb_in_bb_xy(&inner, &outer));
    assert!(bb_out_bb_xy(&apart, &inner));
    assert!(!bb_out_bb_xy(&outer, &inner));
}

#[test]
fn cut_splits_across_cells() {
    // one polyline crossing three cells of a two-by-two grid
    let s = shape(vec![(10, 10), (60, 10), (60, 60)], 0);
    let gbb = ((0, 0, 0), (100, 100, 0));
    let mut logger = Logger::default();
    let chunks = cut(2, gbb, &vec![s], &mut logger);
    assert_eq!(chunks.len(), 4);
    assert_eq!((chunks[0].0, chunks[0].1), (0, 0));
    assert_eq!((chunks[1].0, chunks[1].1), (1, 0));
    assert_eq!((chunks[2].0, chunks[2].1), (0, 1));
    assert_eq!((chunks[3].0, chunks[3].1), (1, 1));
    assert_eq!(chunks[0].2.len(), 1);
    assert_eq!(chunks[0].2[0].points, vec![(10, 10), (60, 10)]);
    assert_eq!(chunks[1].2.len(), 1);
    assert_eq!(chunks[1].2[0].points, vec![(10, 10), (60, 10), (60, 60)]);
    assert_eq!(chunks[2].2.len(), 0);
    assert_eq!(chunks[3].2.len(), 1);
    assert_eq!(chunks[3].2[0].points, vec![(60, 10), (60, 60)]);
    assert_eq!(logger.non_origin_boundingbox, 0);
}

#[test]
fn cut_refuses_non_origin_box() {
    let s = shape(vec![(10, 10)], 0);
    let gbb = ((5, 0, 0), (100, 100, 0));
    let mut logger = Logger::default();
    let chunks = cut(2, gbb, &vec![s], &mut logger);
    assert_eq!(chunks.len(), 0);
    assert_eq!(logger.non_origin_boundingbox, 1);
}

#[test]
fn cut_shape_conserves_vertices() {
    // the split duplicates the two border-straddling points: with
    // three segments, seven vertices come out of three
    let s = shape(vec![(10, 10), (60, 10), (60, 60)], 0);
    let segs = cut_shape(&s, 51, 51);
    assert_eq!(segs.len(), 3);
    let total: usize = segs.iter().map(|e| e.2.points.len()).sum();
    assert_eq!(total, 3 + 2 * (3 - 1));
}

#[test]
fn pick_heights_keeps_multiples() {
    let chunk = vec![
        shape(vec![(0, 0)], 100),
        shape(vec![(1, 1)], 150),
        shape(vec![(2, 2)], 200),
    ];
    let kept = pick_heights(100, chunk);
    assert_eq!(kept.len(), 2);
    assert_eq!(kept[0].z, 100);
    assert_eq!(kept[1].z, 200);
}

#[test]
fn pick_heights_coarser_is_subset() {
    // a coarser modulus that the finer one divides keeps a subset
    let mk = || {
        vec![
            shape(vec![(0, 0)], 100),
            shape(vec![(1, 1)], 150),
            shape(vec![(2, 2)], 200),
            shape(vec![(3, 3)], 400),
        ]
    };
    let fine = pick_heights(100, mk());
    let coarse = pick_heights(200, mk());
    for s in &coarse {
        assert!(fine.iter().any(|f| f.z == s.z && f.points == s.points));
    }
}

#[test]
fn pick_points_thins_with_stride() {
    // twelve points with budget five: stride three, keep every third
    // point and the last
    let pts: Vec<(u64, u64)> = (0..12u64).map(|i| (i, i)).collect();
    let chunk = vec![shape(pts, 7)];
    let out = pick_points(5, chunk);
    assert_eq!(out.len(), 1);
    assert_eq!(out[0].points, vec![(0, 0), (3, 3), (6, 6), (9, 9), (11, 11)]);
    assert_eq!(out[0].z, 7);
    // the output stays under total / stride plus two per shape
    assert!(out[0].points.len() <= 12 / 3 + 2);
}

#[test]
fn merge_joins_connecting_lines() {
    let a = shape(vec![(0, 0), (1, 1)], 5);
    let b = shape(vec![(1, 1), (2, 2)], 5);
    let merged = optimize_lines(vec![a, b]);
    assert_eq!(merged.len(), 1);
    assert_eq!(merged[0].points, vec![(0, 0), (1, 1), (2, 2)]);
    assert_eq!(merged[0].z, 5);
}

#[test]
fn merge_keeps_different_heights_apart() {
    let a = shape(vec![(0, 0), (1, 1)], 5);
    let b = shape(vec![(1, 1), (2, 2)], 10);
    let merged = optimize_lines(vec![a, b]);
    assert_eq!(merged.len(), 2);
}

#[test]
fn merge_twice_equals_once() {
    let a = shape(vec![(0, 0), (1, 1)], 5);
    let b = shape(vec![(1, 1), (2, 2)], 5);
    let c = shape(vec![(9, 9), (8, 8)], 5);
    let once = optimize_lines(vec![a, b, c]);
    let twice = optimize_lines(
        once.iter()
            .map(|s| shape(s.points.clone(), s.z))
            .collect::<Vec<_>>(),
    );
    assert_eq!(once.len(), twice.len());
    for s in &once {
        assert!(twice
            .iter()
            .any(|t| t.z == s.z && t.points == s.points));
    }
}

#[test]
fn stats_find_ranges() {
    let shapes = vec![vec![(5, 10, 100), (25, 30, 100)], vec![(15, 2, 200)]];
    let r = compress_doubles_stats(&shapes);
    assert_eq!(r, (5, 20, 2, 28, 100, 100));
}

#[test]
fn per_shape_ranges() {
    let shapes = vec![vec![(5, 10, 100), (25, 30, 100)], vec![(15, 2, 200)]];
    let r = compress_shapes_stats(&shapes);
    assert_eq!(r, (20, 20, 0));
}

#[test]
fn repeated_point_stats() {
    let shapes = vec![vec![(1, 1, 1), (1, 1, 1), (2, 2, 2)]];
    let r = compress_repeated_points_in_lines_stats(&shapes);
    assert_eq!(r, (2, 1));
}

#[test]
fn width_selection_is_minimal() {
    // ranges (120, 200, 0): the largest is 200, which fits 8 bits
    let (max, target) = target_compression_type((0, 120, 0, 200, 0, 0));
    assert_eq!(max, 200);
    assert!(matches!(target, CompTarget::U8));
    let m = target_multiplier(max, target);
    assert_eq!(m, 1);

    let (max2, target2) = target_compression_type((0, 300, 0, 200, 0, 0));
    assert_eq!(max2, 300);
    assert!(matches!(target2, CompTarget::U16));

    let (_, target3) = target_compression_type((0, 70000, 0, 0, 0, 0));
    assert!(matches!(target3, CompTarget::U32));

    let (_, target4) = target_compression_type((0, u64::MAX, 0, 0, 0, 0));
    assert!(matches!(target4, CompTarget::NONE));
}

#[test]
fn multiplier_fills_range() {
    // range 1 in 8 bits gives multiplier 255: the whole width is used
    let m = target_multiplier(1, CompTarget::U8);
    assert_eq!(m, 255);
    // multiplier safety: scaled range stays within the width
    assert!(m * 1 <= 255);
}

#[test]
fn info_package_combines() {
    let shapes = vec![vec![(0, 0, 100), (1, 1, 100)]];
    let (mx, my, mz, multi, target) = info_package(&shapes);
    assert_eq!((mx, my, mz), (0, 0, 100));
    assert!(matches!(target, CompTarget::U8));
    assert_eq!(multi, 255);
}

#[test]
fn target_names() {
    assert_eq!(CompTarget::U8.name(), "u8");
    assert_eq!(CompTarget::NONE.name(), "none");
}

#[test]
fn logger_counts_and_reports() {
    let mut logger = Logger::default();
    logger.log(Issue::EmptyShape);
    logger.log(Issue::EmptyShape);
    logger.log(Issue::NoEarsLeft);
    logger.log(Issue::Message(String::from("note")));
    assert_eq!(logger.empty_shape, 2);
    assert_eq!(logger.no_ears_left, 1);
    assert_eq!(logger.messages, vec![String::from("note")]);
    let report = logger.report();
    assert_eq!(report.len(), 2);
    assert!(matches!(report[0].0, Issue::EmptyShape));
    assert_eq!(report[0].1, 2);
    assert!(matches!(report[1].0, Issue::NoEarsLeft));
    assert_eq!(report[1].1, 1);
}

#[test]
fn pick_points_keeps_single_point_shapes() {
    let chunk = vec![shape(vec![(4, 4)], 3)];
    let out = pick_points(1, chunk);
    assert_eq!(out.len(), 1);
    assert_eq!(out[0].points, vec![(4, 4)]);
}
