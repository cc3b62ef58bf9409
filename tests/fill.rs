use polygon_filler::geometry::{barycentric, Bary, ScreenPos};
use polygon_filler::polygon::get_sorted_indeces;
use polygon_filler::raster::{fill_mesh, fill_polygon, is_fillable, paint_line, Span};
use polygon_filler::utils::{get_next, get_prev};

fn p(x: i32, y: i32, z: i32) -> ScreenPos {
    ScreenPos { x, y, z }
}

fn width_of_row(spans: &[Span], y: i32) -> i32 {
    spans.iter().filter(|s| s.y == y).map(|s| s.right - s.left).sum()
}

#[test]
fn prev_wraps_around() {
    assert_eq!(get_prev(0, 3), 2);
    assert_eq!(get_prev(2, 3), 1);
    assert_eq!(get_prev(1, 5), 0);
}

#[test]
fn next_wraps_around() {
    assert_eq!(get_next(2, 3), 0);
    assert_eq!(get_next(0, 3), 1);
    assert_eq!(get_next(3, 5), 4);
}

#[test]
fn sorted_indices_are_stable() {
    let pts = vec![p(0, 5, 0), p(1, 2, 0), p(2, 5, 0), p(3, 2, 0), p(4, 0, 0)];
    assert_eq!(get_sorted_indeces(&pts), vec![4, 1, 3, 0, 2]);
}

#[test]
fn barycentric_at_corners() {
    let (a, b, c) = (p(0, 0, 0), p(10, 0, 0), p(5, 10, 0));
    let wa = barycentric(a, b, c, 0, 0).unwrap();
    assert_eq!((wa.w1, wa.w2, wa.w3), (wa.den, 0, 0));
    let wb = barycentric(a, b, c, 10, 0).unwrap();
    assert_eq!((wb.w1, wb.w2, wb.w3), (0, wb.den, 0));
    let wc = barycentric(a, b, c, 5, 10).unwrap();
    assert_eq!((wc.w1, wc.w2, wc.w3), (0, 0, wc.den));
}

#[test]
fn barycentric_exact_values_inside() {
    let (a, b, c) = (p(0, 0, 0), p(10, 0, 0), p(5, 10, 0));
    let w = barycentric(a, b, c, 5, 5).unwrap();
    assert_eq!(w, Bary { w1: 25, w2: 25, w3: 50, den: 100 });
    assert_eq!(w.w1 + w.w2 + w.w3, w.den);
}

#[test]
fn barycentric_of_collinear_points_is_none() {
    assert_eq!(barycentric(p(0, 0, 0), p(5, 5, 0), p(10, 10, 0), 3, 4), None);
}

#[test]
fn pointed_triangle_spans_shrink_row_by_row() {
    let pts = vec![p(0, 0, 0), p(10, 0, 0), p(5, 10, 0)];
    let spans = fill_polygon(&pts);
    assert_eq!(width_of_row(&spans, 0), 0);
    let widths = [9, 9, 7, 7, 5, 5, 3, 3, 1, 1];
    for y in 1..=10 {
        assert_eq!(width_of_row(&spans, y), widths[(y - 1) as usize]);
    }
    assert_eq!(spans.len(), 10);
    assert_eq!(spans[0], Span { y: 1, left: 1, right: 10 });
    assert_eq!(spans[1], Span { y: 2, left: 1, right: 10 });
    assert_eq!(spans[9], Span { y: 10, left: 5, right: 6 });
    assert!(spans.iter().all(|s| s.left >= 1 && s.right <= 10 && s.left < s.right));
}

#[test]
fn paint_line_pairs_codes_into_spans() {
    // codes of the crossing points 0, 4.5, 9.5 and 10
    let xs = vec![0, 9, 19, 20];
    let mut out = vec![Span { y: 2, left: 4, right: 6 }];
    paint_line(&xs, 3, &mut out);
    assert_eq!(
        out,
        vec![
            Span { y: 2, left: 4, right: 6 },
            Span { y: 3, left: 1, right: 5 },
            Span { y: 3, left: 10, right: 10 },
        ]
    );
}

#[test]
fn degenerate_triangle_fills_nothing() {
    let pts = vec![p(0, 0, 0), p(5, 5, 0), p(10, 10, 0)];
    assert!(fill_polygon(&pts).is_empty());
    let flat = vec![p(0, 3, 0), p(4, 3, 0), p(9, 3, 0)];
    assert!(fill_polygon(&flat).is_empty());
}

#[test]
fn filling_twice_gives_the_same_spans() {
    let pts = vec![p(3, 1, 2), p(40, 17, 0), p(11, 33, 5)];
    assert_eq!(fill_polygon(&pts), fill_polygon(&pts));
}

#[test]
fn every_row_has_paired_edges() {
    let quad = vec![p(0, 0, 0), p(20, 5, 0), p(25, 20, 0), p(2, 15, 0)];
    let spans = fill_polygon(&quad);
    for y in 1..=20 {
        assert_eq!(spans.iter().filter(|s| s.y == y).count(), 1);
    }
    assert_eq!(spans[0], Span { y: 1, left: 1, right: 1 });
}

#[test]
fn concave_polygon_gives_two_spans_on_a_row() {
    // a "V" shape: the notch at the top splits the upper rows
    let v = vec![p(0, 0, 0), p(20, 0, 0), p(20, 20, 0), p(10, 5, 0), p(0, 20, 0)];
    let spans = fill_polygon(&v);
    let row: Vec<Span> = spans.iter().copied().filter(|s| s.y == 11).collect();
    assert_eq!(row.len(), 2);
    assert_eq!(row[0], Span { y: 11, left: 1, right: 7 });
    assert_eq!(row[1], Span { y: 11, left: 14, right: 20 });
}

#[test]
fn top_vertex_row_is_last() {
    let pts = vec![p(700, 0, 0), p(0, 700, 0), p(700, 700, 0)];
    let spans = fill_polygon(&pts);
    assert_eq!(*spans.last().unwrap(), Span { y: 700, left: 2, right: 700 });
    assert_eq!(*spans.first().unwrap(), Span { y: 1, left: 701, right: 701 });
}

#[test]
fn fillable_needs_three_on_screen_vertices() {
    assert!(is_fillable(&vec![p(0, 0, 0), p(700, 0, 0), p(0, 700, 0)]));
    assert!(!is_fillable(&vec![p(0, 0, 0), p(700, 0, 0)]));
    assert!(!is_fillable(&vec![p(0, 0, 0), p(701, 0, 0), p(0, 700, 0)]));
    assert!(!is_fillable(&vec![p(0, -1, 0), p(10, 0, 0), p(0, 10, 0)]));
}

#[test]
fn mesh_is_filled_in_order_and_skips_bad_polygons() {
    let a = vec![p(0, 0, 0), p(10, 0, 0), p(5, 10, 0)];
    let bad = vec![p(0, 0, 0), p(800, 0, 0), p(5, 10, 0)];
    let b = vec![p(3, 1, 2), p(40, 17, 0), p(11, 33, 5)];
    let spans = fill_mesh(&vec![a.clone(), bad, b.clone()]);
    assert_eq!(spans.len(), 3);
    assert_eq!(spans[0], fill_polygon(&a));
    assert!(spans[1].is_empty());
    assert_eq!(spans[2], fill_polygon(&b));
}

#[test]
fn spans_on_a_row_are_ordered_and_disjoint() {
    let v = vec![p(0, 0, 0), p(20, 0, 0), p(20, 20, 0), p(10, 5, 0), p(0, 20, 0)];
    let spans = fill_polygon(&v);
    for w in spans.windows(2) {
        assert!(w[0].left <= w[0].right);
        if w[0].y == w[1].y {
            assert!(w[0].right <= w[1].left);
        } else {
            assert_eq!(w[0].y + 1, w[1].y);
        }
    }
}
