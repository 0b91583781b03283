//! Index buffers of the meshes that show the plan: the floor of a room as a
//! list of triangles, and the 3D scene of a floor square and one upright quad
//! per wall. Each mesh lists its vertices in order; these are the indices
//! that join them into triangles.

use vstd::prelude::*;

verus! {

/// The vertex, among the four of a floor square or of a wall quad, that the
/// `j`-th index of the wall quad names: the quad is drawn as the triangles
/// (0, 1, 2) and (0, 2, 3).
pub open spec fn wall_quad_corner(j: int) -> int {
    if j == 0 || j == 3 {
        0
    } else if j == 1 {
        1
    } else if j == 2 || j == 4 {
        2
    } else {
        3
    }
}

/// The position, in the scene's index list, of the `j`-th index of the quad
/// of wall number `k`.
pub open spec fn wall_slot(k: int, j: int) -> int {
    6 + 6 * k + j
}

/// The vertex of the floor square that its `j`-th index names: the square is
/// drawn as the triangles (0, 2, 1) and (0, 3, 2).
pub open spec fn floor_square_corner(j: int) -> int {
    if j == 0 || j == 3 {
        0
    } else if j == 1 || j == 5 {
        2
    } else if j == 2 {
        1
    } else {
        3
    }
}

/// The indices of a room floor made of `triangle_count` triangles, each with
/// three vertices of its own, pushed one triangle after the other: the
/// `i`-th index is `i`, so every index names one of the `3 * triangle_count`
/// vertices.
pub fn floor_triangle_indices(triangle_count: usize) -> (indices: Vec<u32>)
    requires
        3 * triangle_count <= u32::MAX + 1,
    ensures
        indices.len() == 3 * triangle_count,
        forall|i: int| 0 <= i < indices.len() ==> indices@[i] == i,
        forall|i: int| 0 <= i < indices.len() ==> indices@[i] < 3 * triangle_count,
{
    let mut indices: Vec<u32> = Vec::new();
    let mut idx: u32 = 0;
    for t in 0..triangle_count
        invariant
            3 * triangle_count <= u32::MAX + 1,
            t < triangle_count ==> idx == 3 * t,
            indices.len() == 3 * t,
            forall|i: int| 0 <= i < indices.len() ==> indices@[i] == i,
    {
        indices.push(idx);
        indices.push(idx + 1);
        indices.push(idx + 2);
        if t + 1 < triangle_count {
            idx = idx + 3;
        }
    }
    indices
}

/// The indices of the 3D scene: first the floor square (vertices 0 to 3),
/// then one quad per wall, the `k`-th with vertices `4 + 4 * k` to
/// `4 + 4 * k + 3`. Every index names one of the `4 + 4 * wall_count`
/// vertices.
pub fn scene_indices(wall_count: usize) -> (indices: Vec<u32>)
    requires
        4 + 4 * wall_count <= u32::MAX + 1,
    ensures
        indices.len() == 6 + 6 * wall_count,
        forall|j: int| 0 <= j < 6 ==> indices@[j] == floor_square_corner(j),
        forall|k: int, j: int|
            0 <= k < wall_count && 0 <= j < 6 ==> #[trigger] indices@[wall_slot(k, j)] == 4 + 4 * k
                + wall_quad_corner(j),
        forall|i: int| 0 <= i < indices.len() ==> indices@[i] < 4 + 4 * wall_count,
{
    let mut indices: Vec<u32> = Vec::new();
    let f: u32 = 0;
    indices.push(f);
    indices.push(f + 2);
    indices.push(f + 1);
    indices.push(f);
    indices.push(f + 3);
    indices.push(f + 2);
    let mut s: u32 = 4;
    let mut k: usize = 0;
    while k < wall_count
        invariant
            4 + 4 * wall_count <= u32::MAX + 1,
            k <= wall_count,
            k < wall_count ==> s == 4 + 4 * k,
            indices.len() == 6 + 6 * k,
            forall|j: int| 0 <= j < 6 ==> indices@[j] == floor_square_corner(j),
            forall|m: int, j: int|
                0 <= m < k && 0 <= j < 6 ==> #[trigger] indices@[wall_slot(m, j)] == 4 + 4 * m
                    + wall_quad_corner(j),
            forall|i: int| 0 <= i < indices.len() ==> indices@[i] < 4 + 4 * k,
        decreases wall_count - k,
    {
        let ghost before = indices@;
        indices.push(s);
        indices.push(s + 1);
        indices.push(s + 2);
        indices.push(s);
        indices.push(s + 2);
        indices.push(s + 3);
        assert forall|m: int, j: int|
            0 <= m < k + 1 && 0 <= j < 6 implies #[trigger] indices@[wall_slot(m, j)] == 4 + 4 * m
                + wall_quad_corner(j) by {
            if m < k {
                assert(6 + 6 * m + j < 6 + 6 * k);
                assert(indices@[6 + 6 * m + j] == before[6 + 6 * m + j]);
            }
        }
        assert forall|j: int| 0 <= j < 6 implies indices@[j] == floor_square_corner(j) by {
            assert(indices@[j] == before[j]);
        }
        assert forall|i: int| 0 <= i < indices.len() implies indices@[i] < 4 + 4 * (k + 1) by {
            if i < before.len() {
                assert(indices@[i] == before[i]);
            }
        }
        k = k + 1;
        if k < wall_count {
            s = s + 4;
        }
    }
    indices
}

} // verus!
