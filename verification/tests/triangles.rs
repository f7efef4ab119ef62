use shapeproc::chunkify::chunkify_polytriangles;
use shapeproc::data::PolygonZ;
use shapeproc::logger::Logger;
use shapeproc::triangulate::{
    clean_polyzs, fix_order, is_clockwise, make_indices, merge_inner, rightmost, triangulate,
    PolyTriangle,
};

fn square_with_hole() -> PolygonZ {
    PolygonZ {
        outers: vec![vec![(0, 0, 0), (0, 10, 0), (10, 10, 0), (10, 0, 0)]],
        inners: vec![vec![(3, 3, 0), (7, 3, 0), (5, 7, 0)]],
        bb: ((0, 0, 0), (10, 10, 0)),
        style: 4,
    }
}

#[test]
fn clockwise_test_is_exact() {
    // the outer ring of the test square is clockwise under the
    // signed-area convention; the inner triangle is not
    let outer = vec![(0, 0, 0), (0, 10, 0), (10, 10, 0), (10, 0, 0)];
    let inner = vec![(3, 3, 0), (7, 3, 0), (5, 7, 0)];
    assert!(is_clockwise(&outer));
    assert!(!is_clockwise(&inner));
}

#[test]
fn fix_order_repairs_orientation() {
    let mut p = PolygonZ {
        outers: vec![vec![(10, 0, 0), (10, 10, 0), (0, 10, 0), (0, 0, 0)]],
        inners: vec![vec![(3, 3, 0), (5, 7, 0), (7, 3, 0)]],
        bb: ((0, 0, 0), (10, 10, 0)),
        style: 0,
    };
    assert!(!is_clockwise(&p.outers[0]));
    assert!(is_clockwise(&p.inners[0]));
    fix_order(&mut p);
    assert!(is_clockwise(&p.outers[0]));
    assert!(!is_clockwise(&p.inners[0]));
}

#[test]
fn cleaning_drops_duplicates_and_empty_rings() {
    let p = PolygonZ {
        outers: vec![
            vec![(0, 0, 0), (0, 0, 0), (1, 0, 0), (1, 1, 0)],
            vec![],
        ],
        inners: vec![],
        bb: ((0, 0, 0), (0, 0, 0)),
        style: 3,
    };
    let cleaned = clean_polyzs(vec![p]);
    assert_eq!(cleaned.len(), 1);
    assert_eq!(cleaned[0].outers.len(), 1);
    assert_eq!(cleaned[0].outers[0], vec![(0, 0, 0), (1, 0, 0), (1, 1, 0)]);
    assert_eq!(cleaned[0].style, 3);
    assert_eq!(cleaned[0].bb, ((0, 0, 0), (1, 1, 0)));
}

#[test]
fn rightmost_finds_max_x() {
    assert_eq!(rightmost(&vec![(3, 3, 0), (7, 3, 0), (5, 7, 0)]), 7);
    assert_eq!(rightmost(&vec![]), 0);
}

#[test]
fn merge_inner_bridges_hole() {
    let mut outer = vec![(0, 0, 0), (0, 10, 0), (10, 10, 0), (10, 0, 0)];
    let inners = vec![vec![(3, 3, 0), (7, 3, 0), (5, 7, 0)]];
    let merged = merge_inner(&mut outer, inners);
    // the ring grows by the hole's three points plus three bridge
    // vertices
    assert_eq!(merged.len(), 4 + 3 + 3);
    assert_eq!(outer, merged);
    // the hole's rightmost vertex appears twice: once walking the
    // hole, once closing it
    let rm_count = merged.iter().filter(|p| **p == (7, 3, 0)).count();
    assert_eq!(rm_count, 2);
}

#[test]
fn ear_clipping_emits_triangle_list() {
    let mut logger = Logger::default();
    let verts = vec![(0, 0, 0), (0, 10, 0), (10, 10, 0), (10, 0, 0)];
    let got = make_indices(&verts, &mut logger);
    let indices = got.expect("a convex ring clips");
    assert_eq!(indices.len(), 3 * (4 - 2));
    assert!(indices.iter().all(|i| (*i as usize) < verts.len()));
}

#[test]
fn ear_clipping_rejects_small_rings() {
    let mut logger = Logger::default();
    let got = make_indices(&vec![(0, 0, 0), (1, 1, 0)], &mut logger);
    assert!(got.is_none());
    assert_eq!(logger.poly_not_enough_vertices, 1);
}

#[test]
fn triangulated_square_with_hole() {
    let mut logger = Logger::default();
    let out = triangulate(vec![square_with_hole()], &mut logger);
    assert_eq!(out.len(), 1);
    let mesh = &out[0];
    // ten merged vertices clip into eight triangles
    assert_eq!(mesh.vertices.len(), 10);
    assert_eq!(mesh.indices.len(), 24);
    assert_eq!(mesh.indices.len() % 3, 0);
    assert!(mesh.indices.iter().all(|i| (*i as usize) < mesh.vertices.len()));
    assert_eq!(mesh.style, 4);
    assert_eq!(logger.no_ears_left, 0);
    assert_eq!(logger.inner_not_inside, 0);
}

#[test]
fn inner_outside_every_outer_is_logged() {
    let mut logger = Logger::default();
    let p = PolygonZ {
        outers: vec![vec![(0, 0, 0), (0, 10, 0), (10, 10, 0), (10, 0, 0)]],
        inners: vec![vec![(20, 20, 0), (22, 20, 0), (21, 22, 0)]],
        bb: ((0, 0, 0), (22, 22, 0)),
        style: 0,
    };
    let out = triangulate(vec![p], &mut logger);
    assert_eq!(logger.inner_not_inside, 1);
    // the outer still triangulates on its own
    assert_eq!(out.len(), 1);
    assert_eq!(out[0].vertices.len(), 4);
}

#[test]
fn triangle_chunks_are_row_major() {
    let mesh = PolyTriangle {
        vertices: vec![(1, 1), (9, 1), (9, 9), (60, 60), (70, 60), (70, 70)],
        indices: vec![0, 1, 2, 3, 4, 5],
        style: 2,
        bb: ((1, 1, 0), (70, 70, 0)),
    };
    let gbb = ((0, 0, 0), (100, 100, 0));
    let chunks = chunkify_polytriangles(2, gbb, vec![mesh]);
    assert_eq!(chunks.len(), 4);
    assert_eq!((chunks[0].0, chunks[0].1), (0, 0));
    assert_eq!((chunks[3].0, chunks[3].1), (1, 1));
    // the first triangle lands whole in the first cell, the second in
    // the last cell
    assert_eq!(chunks[0].2.len(), 1);
    assert_eq!(chunks[0].2[0].vertices, vec![(1, 1), (9, 1), (9, 9)]);
    assert_eq!(chunks[0].2[0].indices, vec![0, 1, 2]);
    assert_eq!(chunks[0].2[0].style, 2);
    assert_eq!(chunks[3].2.len(), 1);
    assert_eq!(chunks[3].2[0].vertices, vec![(60, 60), (70, 60), (70, 70)]);
    assert_eq!(chunks[1].2.len(), 0);
    assert_eq!(chunks[2].2.len(), 0);
}

#[test]
fn shared_vertices_deduplicate_in_a_cell() {
    // two triangles sharing an edge in one cell: four stored vertices
    let mesh = PolyTriangle {
        vertices: vec![(1, 1), (5, 1), (5, 5), (1, 5)],
        indices: vec![0, 1, 2, 0, 2, 3],
        style: 0,
        bb: ((1, 1, 0), (5, 5, 0)),
    };
    let gbb = ((0, 0, 0), (100, 100, 0));
    let chunks = chunkify_polytriangles(1, gbb, vec![mesh]);
    assert_eq!(chunks.len(), 1);
    assert_eq!(chunks[0].2.len(), 1);
    assert_eq!(chunks[0].2[0].vertices.len(), 4);
    assert_eq!(chunks[0].2[0].indices, vec![0, 1, 2, 0, 2, 3]);
}

#[test]
fn ear_clipping_rejects_oversized_rings() {
    let mut logger = Logger::default();
    let big: Vec<(u64, u64, u64)> = (0..65537u64).map(|i| (i, i % 2, 0)).collect();
    let got = make_indices(&big, &mut logger);
    assert!(got.is_none());
    assert_eq!(logger.out_of_indices_bound, 1);
}
