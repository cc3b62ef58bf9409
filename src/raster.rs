use vstd::prelude::*;
use vstd::relations::{sorted_by, total_ordering};
use vstd::seq_lib::{lemma_multiset_commutative, lemma_sorted_unique};
use crate::edge::{
    Edge, edge_at, frac_code, intercept_code, lemma_code_bounds_strictly, lemma_intercept_in_range, rising,
};
use crate::geometry::{IMAGE_SIZE, ScreenPos, bary_den, barycentric};
use crate::polygon::{get_sorted_indeces, height_before, is_height_order, lists};
use crate::utils::{get_next, get_prev, next_index, prev_index};

verus! {

broadcast use vstd::seq_lib::group_to_multiset_ensures;

/// A run of pixels `left <= x < right` on row `y`; empty when
/// `left == right`.
#[derive(Clone, Copy, Debug, PartialEq, Eq, Structural)]
pub struct Span {
    pub y: i32,
    pub left: i32,
    pub right: i32,
}

/// Every vertex lies on the drawing area.
pub open spec fn on_screen(pts: Seq<ScreenPos>) -> bool {
    forall|i: int| 0 <= i < pts.len() ==> #[trigger] pts[i].on_screen()
}

/// Index of the vertex that closes edge `i` (edge `i` runs from vertex `i`
/// to the next vertex of the ring).
pub open spec fn succ(pts: Seq<ScreenPos>, i: int) -> int {
    next_index(i, pts.len() as int)
}

/// Edge `i` has one end below row `y` and the other at or above it: it
/// belongs to the active edge table while row `y` is filled.
pub open spec fn crosses(pts: Seq<ScreenPos>, i: int, y: int) -> bool {
    (pts[i].y < y) != (pts[succ(pts, i)].y < y)
}

/// The lower end of edge `i`.
pub open spec fn low_end(pts: Seq<ScreenPos>, i: int) -> ScreenPos {
    if pts[i].y <= pts[succ(pts, i)].y { pts[i] } else { pts[succ(pts, i)] }
}

/// The upper end of edge `i`.
pub open spec fn high_end(pts: Seq<ScreenPos>, i: int) -> ScreenPos {
    if pts[i].y <= pts[succ(pts, i)].y { pts[succ(pts, i)] } else { pts[i] }
}

/// The code (rounded down plus rounded up) of the exact x-intercept of
/// edge `i` on row `y`.
pub open spec fn edge_code(pts: Seq<ScreenPos>, i: int, y: int) -> i32 {
    intercept_code(low_end(pts, i), high_end(pts, i), y) as i32
}

/// The codes of the intercepts on row `y` of the edges among the first
/// `k` that cross it, in edge order.
pub open spec fn intercepts(pts: Seq<ScreenPos>, y: int, k: int) -> Seq<i32>
    decreases k,
{
    if k <= 0 {
        seq![]
    } else if crosses(pts, k - 1, y) {
        intercepts(pts, y, k - 1).push(edge_code(pts, k - 1, y))
    } else {
        intercepts(pts, y, k - 1)
    }
}

/// Number of the first `k` edges that cross row `y`.
pub open spec fn count_crossing(pts: Seq<ScreenPos>, y: int, k: int) -> int
    decreases k,
{
    if k <= 0 {
        0
    } else {
        count_crossing(pts, y, k - 1) + if crosses(pts, k - 1, y) { 1int } else { 0 }
    }
}

/// Ascending order on intercepts.
pub open spec fn ascending() -> spec_fn(i32, i32) -> bool {
    |a: i32, b: i32| a <= b
}

/// The pixels of row `y` strictly between two intercepts, given by their
/// codes `cl <= cr`: from the first whole number above the left one to the
/// last below the right one.
pub open spec fn span_of(cl: i32, cr: i32, y: int) -> Span {
    let left = cl / 2 + 1;
    let right = (cr + 1) / 2;
    Span { y: y as i32, left: left as i32, right: if right < left { left as i32 } else { right as i32 } }
}

/// The spans of a row: the sorted intercept codes taken two by two.
pub open spec fn pairs(s: Seq<i32>, y: int) -> Seq<Span> {
    Seq::new((s.len() / 2) as nat, |j: int| span_of(s[2 * j], s[2 * j + 1], y))
}

/// The spans that fill row `y` of the polygon.
pub open spec fn row_spans(pts: Seq<ScreenPos>, y: int) -> Seq<Span> {
    pairs(intercepts(pts, y, pts.len() as int).sort_by(ascending()), y)
}

/// The spans of rows `lo` to `hi`, row by row from the bottom.
pub open spec fn rows_spans(pts: Seq<ScreenPos>, lo: int, hi: int) -> Seq<Span>
    decreases hi - lo + 1,
{
    if hi < lo {
        seq![]
    } else {
        rows_spans(pts, lo, hi - 1) + row_spans(pts, hi)
    }
}

/// The lowest row that a vertex among the first `k` stands on.
pub open spec fn min_y(pts: Seq<ScreenPos>, k: int) -> int
    decreases k,
{
    if k <= 1 {
        pts[0].y as int
    } else if (pts[k - 1].y as int) < min_y(pts, k - 1) {
        pts[k - 1].y as int
    } else {
        min_y(pts, k - 1)
    }
}

/// The highest row that a vertex among the first `k` stands on.
pub open spec fn max_y(pts: Seq<ScreenPos>, k: int) -> int
    decreases k,
{
    if k <= 1 {
        pts[0].y as int
    } else if (pts[k - 1].y as int) > max_y(pts, k - 1) {
        pts[k - 1].y as int
    } else {
        max_y(pts, k - 1)
    }
}

/// The first three vertices, which carry the shading, span no area.
pub open spec fn degenerate(pts: Seq<ScreenPos>) -> bool {
    bary_den(pts[0], pts[1], pts[2]) == 0
}

/// All the spans that filling the polygon produces, rows from bottom to top.
pub open spec fn fill_spans(pts: Seq<ScreenPos>) -> Seq<Span> {
    if degenerate(pts) {
        seq![]
    } else {
        rows_spans(pts, min_y(pts, pts.len() as int), max_y(pts, pts.len() as int))
    }
}

proof fn lemma_ascending_total()
    ensures
        total_ordering(ascending()),
{
}

proof fn lemma_min_max(pts: Seq<ScreenPos>, k: int)
    requires
        1 <= k <= pts.len(),
    ensures
        forall|i: int| 0 <= i < k ==> min_y(pts, k) <= #[trigger] pts[i].y <= max_y(pts, k),
        exists|i: int| 0 <= i < k && pts[i].y == min_y(pts, k),
        exists|i: int| 0 <= i < k && pts[i].y == max_y(pts, k),
    decreases k,
{
    if k > 1 {
        lemma_min_max(pts, k - 1);
        if (pts[k - 1].y as int) < min_y(pts, k - 1) {
            assert(pts[k - 1].y == min_y(pts, k));
        } else {
            let i = choose|i: int| 0 <= i < k - 1 && pts[i].y == min_y(pts, k - 1);
            assert(pts[i].y == min_y(pts, k));
        }
        if (pts[k - 1].y as int) > max_y(pts, k - 1) {
            assert(pts[k - 1].y == max_y(pts, k));
        } else {
            let i = choose|i: int| 0 <= i < k - 1 && pts[i].y == max_y(pts, k - 1);
            assert(pts[i].y == max_y(pts, k));
        }
    } else {
        assert(pts[0].y == min_y(pts, k));
        assert(pts[0].y == max_y(pts, k));
    }
}

proof fn lemma_sorted_ends(pts: Seq<ScreenPos>, ind: Seq<usize>)
    requires
        pts.len() >= 1,
        is_height_order(pts, ind),
    ensures
        pts[ind[0] as int].y == min_y(pts, pts.len() as int),
        pts[ind[ind.len() - 1] as int].y == max_y(pts, pts.len() as int),
{
    let n = pts.len() as int;
    lemma_min_max(pts, n);
    let a = choose|i: int| 0 <= i < n && pts[i].y == min_y(pts, n);
    let b = choose|i: int| 0 <= i < n && pts[i].y == max_y(pts, n);
    assert(lists(ind, a));
    assert(lists(ind, b));
    let ja = choose|j: int| 0 <= j < ind.len() && ind[j] as int == a;
    let jb = choose|j: int| 0 <= j < ind.len() && ind[j] as int == b;
    if ja > 0 {
        assert(height_before(pts, ind[0] as int, ind[ja] as int));
    }
    if jb < n - 1 {
        assert(height_before(pts, ind[jb] as int, ind[n - 1] as int));
    }
}

proof fn lemma_intercepts_len(pts: Seq<ScreenPos>, y: int, k: int)
    ensures
        intercepts(pts, y, k).len() == count_crossing(pts, y, k),
    decreases k,
{
    if k > 0 {
        lemma_intercepts_len(pts, y, k - 1);
    }
}

proof fn lemma_crossing_parity(pts: Seq<ScreenPos>, y: int, k: int)
    requires
        0 <= k < pts.len(),
    ensures
        count_crossing(pts, y, k) % 2 == if (pts[0].y < y) != (pts[k].y < y) { 1int } else { 0 },
    decreases k,
{
    if k > 0 {
        lemma_crossing_parity(pts, y, k - 1);
        lemma_ring(pts.len() as int, k - 1);
    }
}

/// The active edge table holds an even number of edges on every row: a
/// closed ring of vertices crosses any row an even number of times, so
/// every span has a left and a right end.
pub proof fn lemma_active_edges_even(pts: Seq<ScreenPos>, y: int)
    requires
        pts.len() >= 1,
    ensures
        intercepts(pts, y, pts.len() as int).len() % 2 == 0,
{
    let n = pts.len() as int;
    lemma_intercepts_len(pts, y, n);
    lemma_crossing_parity(pts, y, n - 1);
    lemma_ring(n, n - 1);
}

proof fn lemma_ring(n: int, v: int)
    requires
        0 <= v < n,
    ensures
        next_index(prev_index(v, n), n) == v,
        0 <= prev_index(v, n) < n,
        0 <= next_index(v, n) < n,
        next_index(v, n) == if v + 1 < n { v + 1 } else { 0 },
        forall|i: int| 0 <= i < n && #[trigger] next_index(i, n) == v ==> i == prev_index(v, n),
{
    assert forall|i: int| 0 <= i < n && #[trigger] next_index(i, n) == v implies i == prev_index(v, n) by {
        if i + 1 < n {
            assert((i + 1) % n == i + 1) by (nonlinear_arith) requires 0 <= i + 1 < n;
        } else {
            assert((i + 1) % n == 0) by (nonlinear_arith) requires i + 1 == n, n > 0;
        }
    }
    if v > 0 {
        assert(v % n == v) by (nonlinear_arith) requires 0 <= v < n;
    } else {
        assert(n % n == 0) by (nonlinear_arith) requires n > 0;
    }
    if v + 1 < n {
        assert((v + 1) % n == v + 1) by (nonlinear_arith) requires 0 <= v + 1 < n;
    } else {
        assert((v + 1) % n == 0) by (nonlinear_arith) requires v + 1 == n, n > 0;
    }
}

/// Entry `e` of the table describes edge `i` as seen on row `y`.
pub open spec fn edge_ok(pts: Seq<ScreenPos>, e: Edge, i: int, y: int) -> bool {
    edge_at(e, low_end(pts, i), high_end(pts, i), y)
}

/// The table is right for row `y`: every active slot holds its edge.
pub open spec fn table_ok(pts: Seq<ScreenPos>, active: Seq<bool>, edges: Seq<Edge>, y: int) -> bool {
    &&& active.len() == pts.len()
    &&& edges.len() == pts.len()
    &&& forall|i: int| 0 <= i < pts.len() && #[trigger] active[i] ==> edge_ok(pts, edges[i], i, y)
}

/// Updates the table for the vertex `v`, which the sweep has just passed:
/// an edge that rises above `v` enters the table, an edge that ends at `v`
/// leaves it, and a horizontal edge is left alone.
fn process_vertex(pts: &Vec<ScreenPos>, v: usize, y: i32, active: &mut Vec<bool>, edges: &mut Vec<Edge>)
    requires
        pts.len() >= 3,
        on_screen(pts@),
        v < pts.len(),
        pts@[v as int].y == y - 1,
        old(active).len() == pts.len(),
        old(edges).len() == pts.len(),
    ensures
        final(active).len() == pts.len(),
        final(edges).len() == pts.len(),
        forall|i: int|
            0 <= i < pts.len() && i != v && i != prev_index(v as int, pts.len() as int) ==> final(active)[i]
                == old(active)[i] && final(edges)[i] == old(edges)[i],
        forall|i: int|
            (i == v || i == prev_index(v as int, pts.len() as int)) ==> {
                if pts@[i].y == pts@[succ(pts@, i)].y {
                    final(active)[i] == old(active)[i] && final(edges)[i] == old(edges)[i]
                } else {
                    &&& final(active)[i] == crosses(pts@, i, y as int)
                    &&& final(active)[i] ==> edge_ok(pts@, final(edges)[i], i, y as int)
                }
            },
{
    let n = pts.len();
    proof {
        lemma_ring(n as int, v as int);
    }
    let prev = get_prev(v, n);
    assert(pts@[prev as int].on_screen() && pts@[v as int].on_screen());
    if pts[prev].y > pts[v].y {
        let e = Edge::new(pts[v], pts[prev]);
        edges.set(prev, e);
        active.set(prev, true);
    } else if pts[prev].y < pts[v].y {
        active.set(prev, false);
    }
    let next = get_next(v, n);
    assert(pts@[next as int].on_screen());
    if pts[next].y > pts[v].y {
        let e = Edge::new(pts[v], pts[next]);
        edges.set(v, e);
        active.set(v, true);
    } else if pts[next].y < pts[v].y {
        active.set(v, false);
    }
}

proof fn lemma_edge_rising(pts: Seq<ScreenPos>, i: int, y: int)
    requires
        pts.len() >= 1,
        on_screen(pts),
        0 <= i < pts.len(),
        crosses(pts, i, y),
    ensures
        rising(low_end(pts, i), high_end(pts, i)),
        low_end(pts, i).y < y <= high_end(pts, i).y,
{
    lemma_ring(pts.len() as int, i);
    assert(pts[i].on_screen());
    assert(pts[succ(pts, i)].on_screen());
}

/// The intercepts of the active edges on row `y`, in ascending order.
fn row_intercepts(pts: &Vec<ScreenPos>, y: i32, active: &Vec<bool>, edges: &Vec<Edge>) -> (xs: Vec<i32>)
    requires
        pts.len() >= 1,
        on_screen(pts@),
        table_ok(pts@, active@, edges@, y as int),
        forall|i: int| 0 <= i < pts.len() ==> #[trigger] active@[i] == crosses(pts@, i, y as int),
    ensures
        xs@ == intercepts(pts@, y as int, pts.len() as int).sort_by(ascending()),
        forall|j: int| 0 <= j < xs.len() ==> 0 <= #[trigger] xs@[j] <= 2 * IMAGE_SIZE,
{
    let n = pts.len();
    let mut xs: Vec<i32> = Vec::new();
    let mut i: usize = 0;
    while i < n
        invariant
            n == pts.len(),
            n >= 1,
            i <= n,
            on_screen(pts@),
            table_ok(pts@, active@, edges@, y as int),
            forall|j: int| 0 <= j < pts.len() ==> #[trigger] active@[j] == crosses(pts@, j, y as int),
            sorted_by(xs@, ascending()),
            forall|j: int| 0 <= j < xs.len() ==> 0 <= #[trigger] xs@[j] <= 2 * IMAGE_SIZE,
            xs@.to_multiset() == intercepts(pts@, y as int, i as int).to_multiset(),
        decreases n - i,
    {
        if active[i] {
            proof {
                lemma_edge_rising(pts@, i as int, y as int);
            }
            let x = edges[i].current_code(
                Ghost(low_end(pts@, i as int)),
                Ghost(high_end(pts@, i as int)),
                Ghost(y as int),
            );
            let mut pos: usize = 0;
            while pos < xs.len() && xs[pos] <= x
                invariant
                    pos <= xs.len(),
                    forall|j: int| 0 <= j < pos ==> xs@[j] <= x,
                decreases xs.len() - pos,
            {
                pos = pos + 1;
            }
            let ghost before = xs@;
            xs.insert(pos, x);
            proof {
                assert forall|a: int, b: int| 0 <= a < b < xs.len() implies #[trigger] (ascending())(xs@[a], xs@[b]) by {
                    if b < pos {
                        assert((ascending())(before[a], before[b]));
                    } else if a > pos {
                        assert((ascending())(before[a - 1], before[b - 1]));
                    } else if a < pos && b > pos {
                        if b - 1 > pos {
                            assert((ascending())(before[pos as int], before[b - 1]));
                        }
                    } else if a == pos && b > pos {
                        if b - 1 > pos {
                            assert((ascending())(before[pos as int], before[b - 1]));
                        }
                    }
                }
                assert forall|j: int| 0 <= j < xs.len() implies 0 <= #[trigger] xs@[j] <= 2 * IMAGE_SIZE by {
                    if j < pos {
                        assert(xs@[j] == before[j]);
                    } else if j > pos {
                        assert(xs@[j] == before[j - 1]);
                    }
                }
                let l = before.subrange(0, pos as int);
                let r = before.subrange(pos as int, before.len() as int);
                assert(before =~= l + r);
                assert(xs@ =~= l + (seq![x] + r));
                lemma_multiset_commutative(l, r);
                lemma_multiset_commutative(seq![x], r);
                lemma_multiset_commutative(l, seq![x] + r);
                assert(intercepts(pts@, y as int, i as int + 1) == intercepts(pts@, y as int, i as int).push(x));
            }
        }
        i = i + 1;
    }
    proof {
        let s = intercepts(pts@, y as int, n as int);
        lemma_ascending_total();
        s.lemma_sort_by_ensures(ascending());
        lemma_sorted_unique(xs@, s.sort_by(ascending()), ascending());
    }
    xs
}

/// Appends the spans of row `y`: the sorted intercept codes taken two by
/// two, each pair bounding one span.
pub fn paint_line(xs: &Vec<i32>, y: i32, out: &mut Vec<Span>)
    requires
        xs.len() % 2 == 0,
        forall|j: int| 0 <= j < xs.len() ==> 0 <= #[trigger] xs@[j] <= 2 * IMAGE_SIZE,
    ensures
        final(out)@ == old(out)@ + pairs(xs@, y as int),
{
    let ghost start = out@;
    let mut i: usize = 0;
    while i + 1 < xs.len()
        invariant
            xs.len() % 2 == 0,
            forall|j: int| 0 <= j < xs.len() ==> 0 <= #[trigger] xs@[j] <= 2 * IMAGE_SIZE,
            i % 2 == 0,
            i <= xs.len(),
            out@ == start + pairs(xs@, y as int).take(i as int / 2),
        decreases xs.len() - i,
    {
        let left = ((xs[i] as u32) / 2 + 1) as i32;
        let up = ((xs[i + 1] as u32 + 1) / 2) as i32;
        let right = if up < left { left } else { up };
        out.push(Span { y, left, right });
        proof {
            assert(pairs(xs@, y as int).take(i as int / 2 + 1) =~= pairs(xs@, y as int).take(i as int / 2).push(
                pairs(xs@, y as int)[i as int / 2],
            ));
            assert((i as int + 2) / 2 == i as int / 2 + 1);
        }
        i = i + 2;
    }
    assert(pairs(xs@, y as int).take(i as int / 2) =~= pairs(xs@, y as int));
}

/// Moves every active entry on to the next row.
fn advance_all(pts: &Vec<ScreenPos>, y: i32, active: &Vec<bool>, edges: &mut Vec<Edge>)
    requires
        pts.len() >= 1,
        on_screen(pts@),
        y <= IMAGE_SIZE,
        table_ok(pts@, active@, old(edges)@, y as int),
        forall|i: int| 0 <= i < pts.len() ==> #[trigger] active@[i] == crosses(pts@, i, y as int),
    ensures
        table_ok(pts@, active@, final(edges)@, y + 1),
{
    let n = pts.len();
    let mut i: usize = 0;
    while i < n
        invariant
            n == pts.len(),
            n >= 1,
            i <= n,
            on_screen(pts@),
            y <= IMAGE_SIZE,
            edges.len() == n,
            active.len() == n,
            forall|j: int| 0 <= j < pts.len() ==> #[trigger] active@[j] == crosses(pts@, j, y as int),
            forall|j: int| i <= j < n && #[trigger] active@[j] ==> edge_ok(pts@, edges@[j], j, y as int),
            forall|j: int| 0 <= j < i && #[trigger] active@[j] ==> edge_ok(pts@, edges@[j], j, y + 1),
        decreases n - i,
    {
        if active[i] {
            proof {
                lemma_edge_rising(pts@, i as int, y as int);
            }
            let mut e = edges[i];
            e.advance(Ghost(low_end(pts@, i as int)), Ghost(high_end(pts@, i as int)), Ghost(y as int));
            edges.set(i, e);
        }
        i = i + 1;
    }
}

/// The spans that fill a polygon by an active-edge-table sweep, rows from
/// the lowest vertex to the highest. A polygon whose first three vertices
/// are collinear is not filled at all.
pub fn fill_polygon(pts: &Vec<ScreenPos>) -> (out: Vec<Span>)
    requires
        pts.len() >= 3,
        on_screen(pts@),
    ensures
        out@ == fill_spans(pts@),
{
    let n = pts.len();
    proof {
        assert(pts@[0].on_screen() && pts@[1].on_screen() && pts@[2].on_screen());
    }
    let a = pts[0];
    let b = pts[1];
    let c = pts[2];
    let mut out: Vec<Span> = Vec::new();
    if barycentric(a, b, c, 0, 0).is_none() {
        return out;
    }
    let ind = get_sorted_indeces(pts);
    proof {
        lemma_sorted_ends(pts@, ind@);
        assert(pts@[ind@[0] as int].on_screen());
        assert(pts@[ind@[n - 1] as int].on_screen());
    }
    let ymin = pts[ind[0]].y;
    let ymax = pts[ind[n - 1]].y;
    let mut active: Vec<bool> = Vec::new();
    let mut edges: Vec<Edge> = Vec::new();
    let mut i: usize = 0;
    while i < n
        invariant
            i <= n,
            active.len() == i,
            edges.len() == i,
            forall|j: int| 0 <= j < i ==> !active@[j],
        decreases n - i,
    {
        active.push(false);
        edges.push(Edge { num: 0, den: 1, inc: 0 });
        i = i + 1;
    }
    proof {
        lemma_min_max(pts@, n as int);
        assert forall|j: int| 0 <= j < n implies #[trigger] active@[j] == crosses(pts@, j, ymin - 1) by {
            lemma_ring(n as int, j);
        }
    }
    let mut k: usize = 0;
    let mut y: i32 = ymin;
    while y <= ymax
        invariant
            n == pts.len(),
            n >= 3,
            on_screen(pts@),
            is_height_order(pts@, ind@),
            0 <= ymin <= ymax <= IMAGE_SIZE,
            ymin == min_y(pts@, n as int),
            ymax == max_y(pts@, n as int),
            ymin <= y <= ymax + 1,
            k <= n,
            forall|j: int| 0 <= j < k ==> pts@[ind@[j] as int].y < y - 1,
            forall|j: int| k <= j < n ==> pts@[ind@[j] as int].y >= y - 1,
            table_ok(pts@, active@, edges@, y as int),
            forall|j: int| 0 <= j < n ==> #[trigger] active@[j] == crosses(pts@, j, y - 1),
            out@ == rows_spans(pts@, ymin as int, y - 1),
        decreases ymax + 1 - y,
    {
        let ghost k0 = k;
        while k < n && pts[ind[k]].y == y - 1
            invariant
                n == pts.len(),
                n >= 3,
                on_screen(pts@),
                is_height_order(pts@, ind@),
                k0 <= k <= n,
                0 <= y <= IMAGE_SIZE,
                forall|j: int| 0 <= j < k0 ==> pts@[ind@[j] as int].y < y - 1,
                forall|j: int| k0 <= j < k ==> pts@[ind@[j] as int].y == y - 1,
                forall|j: int| k <= j < n ==> pts@[ind@[j] as int].y >= y - 1,
                active.len() == n,
                edges.len() == n,
                forall|j: int|
                    0 <= j < n ==> {
                        let touched = lists(ind@.subrange(k0 as int, k as int), j)
                            || lists(ind@.subrange(k0 as int, k as int), succ(pts@, j));
                        &&& #[trigger] active@[j] == if touched { crosses(pts@, j, y as int) } else { crosses(pts@, j, y - 1) }
                        &&& active@[j] ==> edge_ok(pts@, edges@[j], j, y as int)
                    },
            decreases n - k,
        {
            let v = ind[k];
            let ghost old_active = active@;
            let ghost old_edges = edges@;
            process_vertex(pts, v, y, &mut active, &mut edges);
            proof {
                let d0 = ind@.subrange(k0 as int, k as int);
                let d1 = ind@.subrange(k0 as int, k as int + 1);
                lemma_ring(n as int, v as int);
                assert forall|j: int| 0 <= j < n implies {
                    let touched = lists(d1, j) || lists(d1, succ(pts@, j));
                    &&& #[trigger] active@[j] == if touched { crosses(pts@, j, y as int) } else { crosses(pts@, j, y - 1) }
                    &&& active@[j] ==> edge_ok(pts@, edges@[j], j, y as int)
                } by {
                    lemma_ring(n as int, j);
                    let sj = succ(pts@, j);
                    assert(lists(d1, v as int)) by {
                        assert(d1[k - k0] == v);
                    }
                    assert(lists(d0, j) ==> lists(d1, j)) by {
                        if lists(d0, j) {
                            let t = choose|t: int| 0 <= t < d0.len() && d0[t] as int == j;
                            assert(d1[t] == d0[t]);
                        }
                    }
                    assert(lists(d0, sj) ==> lists(d1, sj)) by {
                        if lists(d0, sj) {
                            let t = choose|t: int| 0 <= t < d0.len() && d0[t] as int == sj;
                            assert(d1[t] == d0[t]);
                        }
                    }
                    assert(lists(d1, j) ==> lists(d0, j) || j == v) by {
                        if lists(d1, j) {
                            let t = choose|t: int| 0 <= t < d1.len() && d1[t] as int == j;
                            if t < d0.len() {
                                assert(d0[t] == d1[t]);
                            }
                        }
                    }
                    assert(lists(d1, sj) ==> lists(d0, sj) || sj == v) by {
                        if lists(d1, sj) {
                            let t = choose|t: int| 0 <= t < d1.len() && d1[t] as int == sj;
                            if t < d0.len() {
                                assert(d0[t] == d1[t]);
                            }
                        }
                    }
                    assert(lists(d0, j) ==> pts@[j].y == y - 1) by {
                        if lists(d0, j) {
                            let t = choose|t: int| 0 <= t < d0.len() && d0[t] as int == j;
                            assert(d0[t] == ind@[k0 + t]);
                        }
                    }
                    assert(lists(d0, sj) ==> pts@[sj].y == y - 1) by {
                        if lists(d0, sj) {
                            let t = choose|t: int| 0 <= t < d0.len() && d0[t] as int == sj;
                            assert(d0[t] == ind@[k0 + t]);
                        }
                    }
                    if j == v || j == prev_index(v as int, n as int) {
                        if pts@[j].y == pts@[sj].y {
                            assert(!crosses(pts@, j, y as int));
                            assert(!crosses(pts@, j, y - 1));
                        }
                    }
                }
            }
            k = k + 1;
        }
        proof {
            let d = ind@.subrange(k0 as int, k as int);
            assert forall|j: int| k <= j < n implies pts@[ind@[j] as int].y >= y by {
                assert(pts@[ind@[k as int] as int].y != y - 1);
                if j > k {
                    assert(height_before(pts@, ind@[k as int] as int, ind@[j] as int));
                }
            }
            assert forall|w: int| 0 <= w < n && pts@[w].y == y - 1 implies lists(d, w) by {
                assert(lists(ind@, w));
                let t = choose|t: int| 0 <= t < ind@.len() && ind@[t] as int == w;
                assert(d[t - k0] == ind@[t]);
            }
            assert forall|j: int| 0 <= j < n implies #[trigger] active@[j] == crosses(pts@, j, y as int) by {
                lemma_ring(n as int, j);
                let sj = succ(pts@, j);
                if !(lists(d, j) || lists(d, sj)) {
                    assert(pts@[j].y != y - 1);
                    assert(pts@[sj].y != y - 1);
                }
            }
        }
        let xs = row_intercepts(pts, y, &active, &edges);
        proof {
            lemma_active_edges_even(pts@, y as int);
            let s = intercepts(pts@, y as int, n as int);
            lemma_ascending_total();
            s.lemma_sort_by_ensures(ascending());
            assert(s.to_multiset().len() == s.len());
            assert(xs@.to_multiset().len() == xs@.len());
        }
        paint_line(&xs, y, &mut out);
        advance_all(pts, y, &active, &mut edges);
        proof {
            assert(rows_spans(pts@, ymin as int, y as int)
                == rows_spans(pts@, ymin as int, y - 1) + row_spans(pts@, y as int));
        }
        y = y + 1;
    }
    out
}

proof fn lemma_intercepts_on_screen(pts: Seq<ScreenPos>, y: int, k: int)
    requires
        pts.len() >= 1,
        on_screen(pts),
        k <= pts.len(),
    ensures
        forall|j: int| 0 <= j < intercepts(pts, y, k).len() ==> 0 <= #[trigger] intercepts(pts, y, k)[j] <= 2 * IMAGE_SIZE,
    decreases k,
{
    if k > 0 {
        lemma_intercepts_on_screen(pts, y, k - 1);
        if crosses(pts, k - 1, y) {
            lemma_edge_rising(pts, k - 1, y);
            lemma_intercept_in_range(low_end(pts, k - 1), high_end(pts, k - 1), y);
            let prev = intercepts(pts, y, k - 1);
            assert forall|j: int| 0 <= j < prev.len() + 1 implies 0 <= #[trigger] intercepts(pts, y, k)[j] <= 2 * IMAGE_SIZE by {
                if j < prev.len() {
                    assert(intercepts(pts, y, k)[j] == prev[j]);
                } else {
                    assert(intercepts(pts, y, k)[j] == edge_code(pts, k - 1, y));
                }
            }
        } else {
            assert(intercepts(pts, y, k) == intercepts(pts, y, k - 1));
        }
    }
}

/// The spans of a row lie on the drawing area, each runs left to right,
/// and each ends at or before the start of the next.
pub proof fn lemma_row_spans_ordered(pts: Seq<ScreenPos>, y: int)
    requires
        pts.len() >= 1,
        on_screen(pts),
    ensures
        forall|j: int| 0 <= j < row_spans(pts, y).len() ==> {
            let sp = #[trigger] row_spans(pts, y)[j];
            0 <= sp.left <= sp.right <= IMAGE_SIZE + 1 && sp.y == y as i32
        },
        forall|j: int| 0 <= j && j + 1 < row_spans(pts, y).len() ==>
            (#[trigger] row_spans(pts, y)[j]).right <= row_spans(pts, y)[j + 1].left,
{
    let s = intercepts(pts, y, pts.len() as int);
    let t = s.sort_by(ascending());
    lemma_ascending_total();
    s.lemma_sort_by_ensures(ascending());
    lemma_intercepts_on_screen(pts, y, pts.len() as int);
    assert forall|i: int| 0 <= i < t.len() implies 0 <= #[trigger] t[i] <= 2 * IMAGE_SIZE by {
        assert(t.to_multiset().count(t[i]) > 0);
        assert(s.to_multiset().count(t[i]) > 0);
        assert(s.contains(t[i]));
    }
    assert forall|j: int| 0 <= j < row_spans(pts, y).len() implies {
        let sp = #[trigger] row_spans(pts, y)[j];
        0 <= sp.left <= sp.right <= IMAGE_SIZE + 1 && sp.y == y as i32
    } by {
        assert((ascending())(t[2 * j], t[2 * j + 1]));
        assert(0 <= t[2 * j] <= 2 * IMAGE_SIZE);
        assert(0 <= t[2 * j + 1] <= 2 * IMAGE_SIZE);
    }
    assert forall|j: int| 0 <= j && j + 1 < row_spans(pts, y).len() implies
        (#[trigger] row_spans(pts, y)[j]).right <= row_spans(pts, y)[j + 1].left by {
        assert((ascending())(t[2 * j + 1], t[2 * (j + 1)]));
        assert((ascending())(t[2 * j], t[2 * (j + 1)]));
        assert(2 * (j + 1) == 2 * j + 2);
        assert(0 <= t[2 * j] <= 2 * IMAGE_SIZE);
        assert(0 <= t[2 * j + 1] <= 2 * IMAGE_SIZE);
        assert(0 <= t[2 * j + 2] <= 2 * IMAGE_SIZE);
        let (c0, c1, c2) = (t[2 * j] as int, t[2 * j + 1] as int, t[2 * j + 2] as int);
        assert((ascending())(t[2 * j], t[2 * j + 1]));
        assert((ascending())(t[2 * j + 1], t[2 * j + 2]));
        assert(c0 <= c1 <= c2);
        assert(c0 / 2 <= c2 / 2 && (c1 + 1) / 2 <= c2 / 2 + 1) by (nonlinear_arith)
            requires 0 <= c0 <= c1 <= c2;
    }
}

/// A polygon that the sweep can fill: at least a triangle, on the drawing area.
pub open spec fn fillable(pts: Seq<ScreenPos>) -> bool {
    pts.len() >= 3 && on_screen(pts)
}

/// Whether the polygon can be handed to `fill_polygon`.
pub fn is_fillable(pts: &Vec<ScreenPos>) -> (r: bool)
    ensures
        r == fillable(pts@),
{
    if pts.len() < 3 {
        return false;
    }
    let mut i: usize = 0;
    while i < pts.len()
        invariant
            i <= pts.len(),
            forall|j: int| 0 <= j < i ==> #[trigger] pts@[j].on_screen(),
        decreases pts.len() - i,
    {
        let p = pts[i];
        if p.x < 0 || p.x > IMAGE_SIZE || p.y < 0 || p.y > IMAGE_SIZE {
            assert(!pts@[i as int].on_screen());
            return false;
        }
        i = i + 1;
    }
    true
}

/// The spans of every polygon of a mesh, in the mesh's order, so that a
/// later polygon is drawn over an earlier one; a polygon that cannot be
/// filled gets no spans.
pub fn fill_mesh(mesh: &Vec<Vec<ScreenPos>>) -> (r: Vec<Vec<Span>>)
    ensures
        r.len() == mesh.len(),
        forall|j: int| 0 <= j < mesh.len() ==> (#[trigger] r[j])@ == if fillable(mesh[j]@) {
            fill_spans(mesh[j]@)
        } else {
            Seq::<Span>::empty()
        },
{
    let mut r: Vec<Vec<Span>> = Vec::new();
    let mut j: usize = 0;
    while j < mesh.len()
        invariant
            j <= mesh.len(),
            r.len() == j,
            forall|i: int| 0 <= i < j ==> (#[trigger] r[i])@ == if fillable(mesh[i]@) {
                fill_spans(mesh[i]@)
            } else {
                Seq::<Span>::empty()
            },
        decreases mesh.len() - j,
    {
        if is_fillable(&mesh[j]) {
            r.push(fill_polygon(&mesh[j]));
        } else {
            r.push(Vec::new());
        }
        j = j + 1;
    }
    r
}

/// A span holds exactly the pixels strictly between its two crossing
/// points: with the left point `nl / dl` and the right point `nr / dr`,
/// the whole number `x` lies in the span when `nl / dl < x < nr / dr`.
pub proof fn lemma_span_strictly_between(nl: int, dl: int, nr: int, dr: int, y: int, x: int)
    requires
        nl >= 0,
        nr >= 0,
        dl > 0,
        dr > 0,
        frac_code(nl, dl) <= 2 * IMAGE_SIZE,
        frac_code(nr, dr) <= 2 * IMAGE_SIZE,
    ensures
        ({
            let sp = span_of(frac_code(nl, dl) as i32, frac_code(nr, dr) as i32, y);
            sp.left <= x < sp.right <==> (x * dl > nl && x * dr < nr)
        }),
{
    lemma_code_bounds_strictly(nl, dl, x);
    lemma_code_bounds_strictly(nr, dr, x);
    assert(0 <= nl / dl && 0 <= (nl + dl - 1) / dl) by (nonlinear_arith)
        requires nl >= 0, dl > 0;
    assert(0 <= nr / dr && 0 <= (nr + dr - 1) / dr) by (nonlinear_arith)
        requires nr >= 0, dr > 0;
}

} // verus!
