use hexgrid::range_blocks::CellCoords;
use hexgrid::range_border::{Edge, LoopPairIter, LoopsIter, RangeBorder};

fn c(x: u64, y: u64) -> CellCoords {
    CellCoords { x, y }
}

fn loops_of(border: RangeBorder) -> Vec<Vec<Edge>> {
    let mut loops_iter = LoopsIter::new(border.edges);
    let mut loops = Vec::new();
    while let Some(mut loop_iter) = loops_iter.next() {
        let mut edges = Vec::new();
        while let Some(edge) = loop_iter.next() {
            edges.push(edge);
        }
        loops.push(edges);
    }
    loops
}

#[test]
fn test_perimeter_broken_loop_bug() {
    let mut perimeter = RangeBorder::default();
    perimeter.add_rect(CellCoords { x: 3, y: 2 }, CellCoords { x: 4, y: 3 });
    perimeter.add_rect(CellCoords { x: 0, y: 3 }, CellCoords { x: 1, y: 4 });
    perimeter.add_rect(CellCoords { x: 1, y: 3 }, CellCoords { x: 2, y: 4 });
    perimeter.add_rect(CellCoords { x: 2, y: 3 }, CellCoords { x: 3, y: 4 });
    perimeter.add_rect(CellCoords { x: 3, y: 3 }, CellCoords { x: 4, y: 4 });
    perimeter.add_rect(CellCoords { x: 4, y: 0 }, CellCoords { x: 8, y: 4 });

    let mut loops_iter = LoopsIter::new(perimeter.edges);

    while let Some(mut loop_iter) = loops_iter.next() {
        println!("***start loop***");
        while let Some(edge) = loop_iter.next() {
            println!("edge: {:?}", edge);
        }
        println!("***end loop***");
    }
}

#[test]
fn broken_loop_configuration_walks_every_edge_once() {
    let mut perimeter = RangeBorder::default();
    perimeter.add_rect(c(3, 2), c(4, 3));
    perimeter.add_rect(c(0, 3), c(1, 4));
    perimeter.add_rect(c(1, 3), c(2, 4));
    perimeter.add_rect(c(2, 3), c(3, 4));
    perimeter.add_rect(c(3, 3), c(4, 4));
    perimeter.add_rect(c(4, 0), c(8, 4));
    let edge_count = perimeter.edges.len();
    let loops = loops_of(perimeter);
    let walked: usize = loops.iter().map(|l| l.len()).sum();
    assert_eq!(walked, edge_count);
    assert!(!loops.is_empty());
    // Every edge is axis-aligned and not a point.
    for l in &loops {
        for e in l {
            assert!(e.start.x == e.end.x || e.start.y == e.end.y);
            assert!(e.start != e.end);
        }
    }
}

#[test]
fn broken_loop_configuration_closes_one_loop() {
    let mut perimeter = RangeBorder::default();
    perimeter.add_rect(c(3, 2), c(4, 3));
    perimeter.add_rect(c(0, 3), c(1, 4));
    perimeter.add_rect(c(1, 3), c(2, 4));
    perimeter.add_rect(c(2, 3), c(3, 4));
    perimeter.add_rect(c(3, 3), c(4, 4));
    perimeter.add_rect(c(4, 0), c(8, 4));
    let loops = loops_of(perimeter);
    assert_eq!(loops.len(), 1);
    let l = &loops[0];
    assert_eq!(l.len(), 8);
    for k in 0..l.len() {
        assert_eq!(l[k].end, l[(k + 1) % l.len()].start);
    }
    let expected = [
        c(3, 2),
        c(4, 2),
        c(4, 0),
        c(8, 0),
        c(8, 4),
        c(0, 4),
        c(0, 3),
        c(3, 3),
    ];
    let first = l.iter().position(|e| e.start == c(3, 2)).unwrap();
    let starts: Vec<CellCoords> = (0..l.len()).map(|k| l[(first + k) % l.len()].start).collect();
    assert_eq!(starts, expected.to_vec());
}

#[test]
fn single_rectangle_is_one_loop_of_four_edges() {
    let mut border = RangeBorder::default();
    border.add_rect(c(1, 2), c(5, 7));
    let loops = loops_of(border);
    assert_eq!(loops.len(), 1);
    let l = &loops[0];
    assert_eq!(l.len(), 4);
    assert_eq!((l[0].start, l[0].end), (c(1, 2), c(5, 2)));
    assert_eq!((l[1].start, l[1].end), (c(5, 2), c(5, 7)));
    assert_eq!((l[2].start, l[2].end), (c(5, 7), c(1, 7)));
    assert_eq!((l[3].start, l[3].end), (c(1, 7), c(1, 2)));
    assert_eq!(l.iter().map(|e| e.id).collect::<Vec<_>>(), vec![0, 1, 2, 3]);
}

#[test]
fn rectangles_sharing_an_edge_have_one_outline() {
    let mut border = RangeBorder::default();
    border.add_rect(c(0, 0), c(2, 3));
    border.add_rect(c(2, 0), c(5, 3));
    let loops = loops_of(border);
    assert_eq!(loops.len(), 1);
    let l = &loops[0];
    assert_eq!(l.len(), 4);
    assert_eq!((l[0].start, l[0].end), (c(0, 0), c(5, 0)));
    assert_eq!((l[1].start, l[1].end), (c(5, 0), c(5, 3)));
    assert_eq!((l[2].start, l[2].end), (c(5, 3), c(0, 3)));
    assert_eq!((l[3].start, l[3].end), (c(0, 3), c(0, 0)));
    // The shared edge x == 2 is gone.
    assert!(l.iter().all(|e| !(e.start.x == 2 && e.end.x == 2)));
}

#[test]
fn stacked_rectangles_sharing_an_edge_have_one_outline() {
    let mut border = RangeBorder::default();
    border.add_rect(c(0, 0), c(4, 1));
    border.add_rect(c(0, 1), c(4, 2));
    let loops = loops_of(border);
    assert_eq!(loops.len(), 1);
    assert_eq!(loops[0].len(), 4);
    assert!(loops[0].iter().all(|e| !(e.start.y == 1 && e.end.y == 1)));
}

#[test]
fn separate_rectangles_have_one_loop_each() {
    let mut border = RangeBorder::default();
    border.add_rect(c(0, 0), c(1, 1));
    border.add_rect(c(3, 3), c(5, 4));
    let loops = loops_of(border);
    assert_eq!(loops.len(), 2);
    assert_eq!(loops[0].len(), 4);
    assert_eq!(loops[1].len(), 4);
    assert_eq!(loops[0][0].id, 0);
    assert_eq!(loops[1][0].id, 4);
    assert_eq!((loops[1][0].start, loops[1][0].end), (c(3, 3), c(5, 3)));
}

#[test]
fn rectangles_without_shared_corners_have_one_loop_each() {
    let rects = [(c(0, 0), c(2, 2)), (c(2, 1), c(4, 3)), (c(5, 0), c(6, 9))];
    let mut border = RangeBorder::default();
    for (top_left, bottom_right) in rects {
        border.add_rect(top_left, bottom_right);
    }
    let loops = loops_of(border);
    assert_eq!(loops.len(), 3);
    for (k, (top_left, bottom_right)) in rects.iter().enumerate() {
        let l = &loops[k];
        assert_eq!(l.iter().map(|e| e.id).collect::<Vec<_>>(), vec![4 * k, 4 * k + 1, 4 * k + 2, 4 * k + 3]);
        assert_eq!(l[0].start, *top_left);
        assert_eq!(l[2].start, *bottom_right);
    }
}

#[test]
fn loop_pairs_close_the_loop() {
    let mut border = RangeBorder::default();
    border.add_rect(c(0, 0), c(2, 2));
    let mut loops_iter = LoopsIter::new(border.edges);
    let loop_iter = loops_iter.next().unwrap();
    assert!(loops_iter.next().is_none());
    let mut pairs = LoopPairIter::new(loop_iter);
    let mut corners = Vec::new();
    while let Some((edge, next_edge)) = pairs.next() {
        assert_eq!(edge.end, next_edge.start);
        corners.push(edge.end);
    }
    assert_eq!(corners, vec![c(2, 0), c(2, 2), c(0, 2), c(0, 0)]);
    assert!(pairs.next().is_none());
}
