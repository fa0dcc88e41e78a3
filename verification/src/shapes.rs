//! The parts of shapes that are not measured.

use vstd::prelude::*;

verus! {

/// The edges of a polygon with the given number of vertices: each vertex is joined to the next one.
pub fn polygon_edges(vertex_count: u32) -> (edges: Vec<[u32; 2]>)
    requires
        vertex_count > 0,
    ensures
        edges@.len() == vertex_count - 1,
        forall|i: int|
            0 <= i < edges@.len() ==> (#[trigger] edges@[i])@ == seq![i as u32, (i + 1) as u32],
{
    let mut edges: Vec<[u32; 2]> = Vec::new();
    let mut i: u32 = 0;
    while i < vertex_count - 1
        invariant
            vertex_count > 0,
            i <= vertex_count - 1,
            edges@.len() == i,
            forall|k: int|
                0 <= k < i ==> (#[trigger] edges@[k])@ == seq![k as u32, (k + 1) as u32],
        decreases vertex_count - i,
    {
        let edge = [i, i + 1];
        assert(edge@ =~= seq![i, (i + 1) as u32]);
        edges.push(edge);
        i = i + 1;
    }
    edges
}

} // verus!
