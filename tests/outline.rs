use hexgrid::outline::{range_border_corner_points, range_border_pairs};
use hexgrid::range_blocks::CellCoords;

fn c(x: u64, y: u64) -> CellCoords {
    CellCoords { x, y }
}

#[test]
fn outline_pairs_of_two_adjacent_blocks() {
    // Blocks (0, 16) and (16, 16) at branch factor 4 are the squares
    // (0,0)-(4,4) and (4,0)-(8,4).
    let pairs = range_border_pairs(&vec![(0, 16), (16, 16)], 4);
    assert_eq!(pairs.len(), 4);
    let corners: Vec<CellCoords> = pairs.iter().map(|(e, _)| e.end).collect();
    assert_eq!(corners, vec![c(8, 0), c(8, 4), c(0, 4), c(0, 0)]);
    for (edge, next_edge) in &pairs {
        assert_eq!(edge.end, next_edge.start);
    }
}

#[test]
fn outline_pairs_of_no_blocks() {
    assert!(range_border_pairs(&Vec::new(), 4).is_empty());
}

#[test]
fn corner_points_keep_odd_corners() {
    let mut points = range_border_corner_points(&vec![(0, 16), (16, 16)], 4);
    points.sort_by_key(|p| (p.x, p.y));
    assert_eq!(points, vec![c(0, 0), c(0, 4), c(8, 0), c(8, 4)]);

    // Four cells around a point: the shared centre is a corner four times.
    let mut points = range_border_corner_points(&vec![(0, 1), (1, 1), (4, 1), (5, 1)], 4);
    points.sort_by_key(|p| (p.x, p.y));
    assert_eq!(points, vec![c(0, 0), c(0, 2), c(2, 0), c(2, 2)]);

    // A single cell has its four corners.
    let points = range_border_corner_points(&vec![(5, 1)], 4);
    assert_eq!(points, vec![c(1, 1), c(2, 1), c(2, 2), c(1, 2)]);
}
