use vstd::prelude::*;

verus! {

/// Index of the vertex before `i` in a closed ring of `size` vertices.
pub open spec fn prev_index(i: int, size: int) -> int {
    if i > 0 { i - 1 } else { size - 1 }
}

/// Index of the vertex after `i` in a closed ring of `size` vertices.
pub open spec fn next_index(i: int, size: int) -> int {
    (i + 1) % size
}

/// The vertex before `i` in a closed polygon of `size` vertices.
pub fn get_prev(i: usize, size: usize) -> (r: usize)
    requires
        i < size,
    ensures
        r as int == prev_index(i as int, size as int),
        r < size,
{
    if i > 0 {
        i - 1
    } else {
        size - 1
    }
}

/// The vertex after `i` in a closed polygon of `size` vertices.
pub fn get_next(i: usize, size: usize) -> (r: usize)
    requires
        i < size,
    ensures
        r as int == next_index(i as int, size as int),
        r < size,
{
    (i + 1) % size
}

} // verus!
