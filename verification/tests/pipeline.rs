use grid_colliders::contour::contour_segments;
use grid_colliders::error::DegenerateGeometry;
use grid_colliders::grid::Grid;
use grid_colliders::pipeline::{collider_polygons, grid_outline, outline_edges, PipelineError};
use grid_colliders::point::{right_on, Point};
use grid_colliders::polygon::signed_area2;
use grid_colliders::simple::simple_polygon;
use grid_colliders::simplify::minimal_vertices;
use grid_colliders::stitch::{stitch, StitchFailure};

fn p(x: i32, y: i32) -> Point {
    Point::new(x, y)
}

fn pts(raw: &[(i32, i32)]) -> Vec<Point> {
    raw.iter().map(|&(x, y)| Point::new(x, y)).collect()
}

fn grid_of(cells: &[(i32, i32)]) -> Grid {
    let mut grid = Grid::default();
    for &(x, y) in cells {
        assert!(grid.add_cell(x, y));
    }
    grid
}

/// The vertices at which a clockwise loop turns left.
fn reflex_count(poly: &Vec<Point>) -> usize {
    let n = poly.len();
    (0..n).filter(|&k| !right_on(poly[(k + n - 1) % n], poly[k], poly[(k + 1) % n])).count()
}

#[test]
fn a_single_cell_gives_one_diamond() {
    let grid = grid_of(&[(5, 5)]);
    let bag = contour_segments(&grid);
    assert_eq!(bag.len(), 4);
    assert_eq!(stitch(&bag), Ok(pts(&[(10, 9), (9, 10), (10, 11), (11, 10)])));
    let outline = grid_outline(&grid).unwrap();
    assert_eq!(outline, pts(&[(10, 9), (9, 10), (10, 11), (11, 10)]));
    assert_eq!(signed_area2(&outline), -4);
    let pieces = collider_polygons(&grid).unwrap();
    assert_eq!(pieces, vec![outline]);
}

#[test]
fn two_cells_side_by_side_give_one_hexagon() {
    let grid = grid_of(&[(5, 5), (6, 5)]);
    let stitched = stitch(&contour_segments(&grid)).unwrap();
    assert_eq!(stitched, pts(&[(10, 9), (9, 10), (10, 11), (12, 11), (13, 10), (12, 9)]));
    // The corners are cut, so no two steps in a row are equal and all six vertices stay.
    let outline = grid_outline(&grid).unwrap();
    assert_eq!(outline, stitched);
    assert_eq!(collider_polygons(&grid), Ok(vec![outline]));
}

#[test]
fn three_cells_in_a_row_lose_the_vertices_of_the_long_sides() {
    let grid = grid_of(&[(5, 5), (6, 5), (7, 5)]);
    let stitched = stitch(&contour_segments(&grid)).unwrap();
    assert_eq!(stitched.len(), 8);
    let outline = grid_outline(&grid).unwrap();
    assert_eq!(outline, pts(&[(10, 9), (9, 10), (10, 11), (14, 11), (15, 10), (14, 9)]));
    assert_eq!(collider_polygons(&grid), Ok(vec![outline]));
}

#[test]
fn three_cells_in_an_ell_give_one_convex_piece() {
    let grid = grid_of(&[(5, 5), (6, 5), (5, 6)]);
    let stitched = stitch(&contour_segments(&grid)).unwrap();
    assert_eq!(
        stitched,
        pts(&[(10, 9), (9, 10), (9, 12), (10, 13), (11, 12), (12, 11), (13, 10), (12, 9)])
    );
    // The inner corner is cut along the diagonal, which leaves no reflex vertex.
    let outline = grid_outline(&grid).unwrap();
    assert_eq!(outline, pts(&[(10, 9), (9, 10), (9, 12), (10, 13), (13, 10), (12, 9)]));
    assert_eq!(reflex_count(&outline), 0);
    assert_eq!(collider_polygons(&grid), Ok(vec![outline]));
}

#[test]
fn a_trough_is_cut_into_convex_pieces() {
    let grid = grid_of(&[(4, 5), (4, 6), (4, 7), (5, 5), (6, 5), (6, 6), (6, 7)]);
    let outline = grid_outline(&grid).unwrap();
    assert_eq!(outline.len(), 13);
    assert_eq!(signed_area2(&outline), -52);
    assert!(reflex_count(&outline) > 0);
    let pieces = collider_polygons(&grid).unwrap();
    assert_eq!(
        pieces,
        vec![
            pts(&[(11, 12), (11, 14), (12, 15), (13, 14)]),
            pts(&[(13, 14), (13, 10), (12, 9), (10, 11), (11, 12)]),
            pts(&[(12, 9), (8, 9), (7, 10), (9, 12), (10, 11)]),
            pts(&[(7, 10), (7, 14), (8, 15), (9, 14), (9, 12)]),
        ]
    );
    let mut total: i128 = 0;
    for piece in pieces.iter() {
        assert_eq!(reflex_count(piece), 0);
        total += signed_area2(piece);
    }
    assert_eq!(total, -52);
}

#[test]
fn the_order_of_the_cells_does_not_change_the_pieces() {
    let a = grid_of(&[(4, 5), (4, 6), (4, 7), (5, 5), (6, 5), (6, 6), (6, 7)]);
    let b = grid_of(&[(6, 7), (5, 5), (4, 7), (6, 5), (4, 5), (6, 6), (4, 6)]);
    assert_eq!(collider_polygons(&a), collider_polygons(&b));
}

#[test]
fn an_empty_grid_has_nothing_to_stitch() {
    let grid = Grid::default();
    assert_eq!(grid_outline(&grid), Err(PipelineError::Stitch(StitchFailure::Empty)));
    assert_eq!(collider_polygons(&grid), Err(PipelineError::Stitch(StitchFailure::Empty)));
}

#[test]
fn a_cell_on_the_rim_of_the_grid_leaves_the_loop_open() {
    let grid = grid_of(&[(0, 0)]);
    assert_eq!(
        collider_polygons(&grid),
        Err(PipelineError::Stitch(StitchFailure::NotClosed { first: p(0, 1), last: p(1, 0) }))
    );
}

#[test]
fn two_regions_apart_are_not_one_loop() {
    let grid = grid_of(&[(2, 2), (8, 8)]);
    assert_eq!(
        collider_polygons(&grid),
        Err(PipelineError::Stitch(StitchFailure::NoMatch { tail: p(4, 3) }))
    );
}

#[test]
fn a_region_with_a_hole_is_not_one_loop() {
    let grid = grid_of(&[(4, 4), (5, 4), (6, 4), (4, 5), (6, 5), (4, 6), (5, 6), (6, 6)]);
    assert!(matches!(
        collider_polygons(&grid),
        Err(PipelineError::Stitch(StitchFailure::NoMatch { .. }))
    ));
}

#[test]
fn the_degenerate_error_carries_the_count() {
    let e = PipelineError::Degenerate(DegenerateGeometry::TooFewVertices { count: 2 });
    assert_ne!(e, PipelineError::Degenerate(DegenerateGeometry::TooFewVertices { count: 0 }));
    assert_ne!(e, PipelineError::Stitch(StitchFailure::Empty));
}

#[test]
fn the_wireframe_closes_on_vertex_zero() {
    assert_eq!(outline_edges(4), vec![[0, 1], [1, 2], [2, 3], [3, 0]]);
    assert_eq!(outline_edges(2), vec![[0, 1], [1, 0]]);
    assert_eq!(outline_edges(1), vec![[0, 0]]);
}

#[test]
fn the_wireframe_of_no_vertices_is_empty() {
    assert!(outline_edges(0).is_empty());
}

#[test]
fn the_wireframe_of_an_outline_has_one_edge_for_each_vertex() {
    let grid = grid_of(&[(5, 5), (6, 5), (7, 5)]);
    let outline = grid_outline(&grid).unwrap();
    let edges = outline_edges(outline.len());
    assert_eq!(edges.len(), outline.len());
    assert_eq!(edges[5], [5, 0]);
}

#[test]
fn an_outline_cannot_be_simplified_further() {
    let shapes: [&[(i32, i32)]; 4] = [
        &[(5, 5)],
        &[(5, 5), (6, 5), (7, 5)],
        &[(5, 5), (6, 6)],
        &[(4, 5), (4, 6), (4, 7), (5, 5), (6, 5), (6, 6), (6, 7)],
    ];
    for cells in shapes {
        let outline = grid_outline(&grid_of(cells)).unwrap();
        assert_eq!(minimal_vertices(&outline), Ok(outline.clone()));
    }
}

#[test]
fn outlines_wind_clockwise() {
    let shapes: [&[(i32, i32)]; 3] =
        [&[(5, 5)], &[(5, 5), (6, 5), (5, 6)], &[(5, 5), (4, 5), (6, 5), (5, 4), (5, 6)]];
    let areas: [i128; 3] = [-4, -20, -36];
    for (cells, a) in shapes.iter().zip(areas) {
        assert_eq!(signed_area2(&grid_outline(&grid_of(cells)).unwrap()), a);
    }
}

#[test]
fn a_plus_is_smoothed_into_a_diamond() {
    let grid = grid_of(&[(5, 5), (4, 5), (6, 5), (5, 4), (5, 6)]);
    let stitched = stitch(&contour_segments(&grid)).unwrap();
    assert_eq!(stitched.len(), 12);
    assert_eq!(stitched[0], p(8, 9));
    let outline = grid_outline(&grid).unwrap();
    assert_eq!(outline, pts(&[(7, 10), (10, 13), (13, 10), (10, 7)]));
}

#[test]
fn a_comb_is_cut_into_convex_pieces() {
    let grid = grid_of(&[(4, 5), (4, 7), (5, 4), (5, 5), (5, 6), (5, 7), (5, 8)]);
    let outline = grid_outline(&grid).unwrap();
    assert!(reflex_count(&outline) > 0);
    let pieces = collider_polygons(&grid).unwrap();
    assert!(pieces.len() > 1);
    let mut total: i128 = 0;
    for piece in pieces.iter() {
        assert!(piece.len() >= 3);
        assert_eq!(reflex_count(piece), 0);
        total += signed_area2(piece);
    }
    assert_eq!(total, signed_area2(&outline));
}

#[test]
fn outlines_and_their_pieces_are_simple() {
    let shapes: [&[(i32, i32)]; 4] = [
        &[(5, 5)],
        &[(5, 5), (6, 6)],
        &[(4, 5), (4, 6), (4, 7), (5, 5), (6, 5), (6, 6), (6, 7)],
        &[(4, 5), (4, 7), (5, 4), (5, 5), (5, 6), (5, 7), (5, 8)],
    ];
    for cells in shapes {
        let grid = grid_of(cells);
        assert!(simple_polygon(&grid_outline(&grid).unwrap()));
        for piece in collider_polygons(&grid).unwrap().iter() {
            assert!(simple_polygon(piece));
        }
    }
}
