//! Primitive assembly: an independent triangle list, cut out of the stream of
//! transformed vertices.

use vstd::prelude::*;

verus! {

/// Groups consecutive vertices by three.
///
/// Triangle `k` is made of the vertices `3k`, `3k + 1` and `3k + 2`, in that
/// order. One or two vertices left over at the end form no triangle.
pub fn assemble_triangles<T: Copy>(vertices: &[T]) -> (triangles: Vec<[T; 3]>)
    ensures
        triangles@.len() == vertices@.len() / 3,
        forall|k: int, j: int|
            0 <= k < triangles@.len() && 0 <= j < 3 ==> #[trigger] triangles@[k]@[j] == vertices@[3
                * k + j],
{
    let mut triangles: Vec<[T; 3]> = Vec::new();
    let n: usize = vertices.len();
    let mut i: usize = 0;
    while n - i >= 3
        invariant
            n == vertices@.len(),
            i % 3 == 0,
            i <= n,
            triangles@.len() == i / 3,
            forall|k: int, j: int|
                0 <= k < triangles@.len() && 0 <= j < 3 ==> #[trigger] triangles@[k]@[j]
                    == vertices@[3 * k + j],
        decreases n - i,
    {
        let triangle: [T; 3] = [vertices[i], vertices[i + 1], vertices[i + 2]];
        triangles.push(triangle);
        i = i + 3;
    }
    triangles
}

} // verus!
