use vstd::prelude::*;
use crate::geometry::ScreenPos;

verus! {

/// Vertex `a` comes before vertex `b` when ordered by height, ties kept in
/// the order of the vertex list.
pub open spec fn height_before(pts: Seq<ScreenPos>, a: int, b: int) -> bool {
    pts[a].y < pts[b].y || (pts[a].y == pts[b].y && a < b)
}

/// Vertex `v` occurs in `ind`.
pub open spec fn lists(ind: Seq<usize>, v: int) -> bool {
    exists|j: int| 0 <= j < ind.len() && ind[j] as int == v
}

/// `ind` lists every vertex index of `pts` exactly once, ordered by height
/// and, among equal heights, by position in the list.
pub open spec fn is_height_order(pts: Seq<ScreenPos>, ind: Seq<usize>) -> bool {
    &&& ind.len() == pts.len()
    &&& forall|j: int| 0 <= j < ind.len() ==> (ind[j] as int) < pts.len()
    &&& forall|j: int, k: int|
        0 <= j < k < ind.len() ==> #[trigger] height_before(pts, ind[j] as int, ind[k] as int)
    &&& forall|v: int| 0 <= v < pts.len() ==> #[trigger] lists(ind, v)
}

/// Vertex indices of a polygon sorted by ascending height; the sort is
/// stable, so vertices of equal height keep their original order.
pub fn get_sorted_indeces(pts: &Vec<ScreenPos>) -> (ind: Vec<usize>)
    ensures
        is_height_order(pts@, ind@),
{
    let mut ind: Vec<usize> = Vec::new();
    let n = pts.len();
    let mut i: usize = 0;
    while i < n
        invariant
            n == pts.len(),
            i <= n,
            ind.len() == i,
            forall|j: int| 0 <= j < ind.len() ==> (ind[j] as int) < i,
            forall|j: int, k: int|
                0 <= j < k < ind.len() ==> #[trigger] height_before(pts@, ind[j] as int, ind[k] as int),
            forall|v: int| 0 <= v < i ==> #[trigger] lists(ind@, v),
        decreases n - i,
    {
        let yi = pts[i].y;
        let mut pos: usize = 0;
        while pos < ind.len() && pts[ind[pos]].y <= yi
            invariant
                n == pts.len(),
                i < n,
                pos <= ind.len(),
                forall|j: int| 0 <= j < ind.len() ==> (ind[j] as int) < i,
                forall|j: int| 0 <= j < pos ==> pts@[ind[j] as int].y <= yi,
            decreases ind.len() - pos,
        {
            pos = pos + 1;
        }
        let ghost old_ind = ind@;
        proof {
            assert forall|j: int| pos <= j < old_ind.len() implies pts@[old_ind[j] as int].y > yi by {
                if j > pos {
                    assert(height_before(pts@, old_ind[pos as int] as int, old_ind[j] as int));
                }
            }
        }
        ind.insert(pos, i);
        proof {
            assert forall|j: int, k: int|
                0 <= j < k < ind.len() implies #[trigger] height_before(pts@, ind[j] as int, ind[k] as int) by {
                if k < pos {
                    assert(height_before(pts@, old_ind[j] as int, old_ind[k] as int));
                } else if j > pos {
                    assert(height_before(pts@, old_ind[j - 1] as int, old_ind[k - 1] as int));
                } else if j < pos && k > pos {
                    assert(pts@[old_ind[j] as int].y <= yi);
                    assert(pts@[old_ind[k - 1] as int].y > yi);
                }
            }
            assert forall|v: int| 0 <= v < i + 1 implies #[trigger] lists(ind@, v) by {
                if v == i {
                    assert(ind[pos as int] == v);
                } else {
                    assert(lists(old_ind, v));
                    let j = choose|j: int| 0 <= j < old_ind.len() && old_ind[j] as int == v;
                    if j < pos {
                        assert(ind[j] == v);
                    } else {
                        assert(ind[j + 1] == v);
                    }
                }
            }
        }
        i = i + 1;
    }
    ind
}

} // verus!
