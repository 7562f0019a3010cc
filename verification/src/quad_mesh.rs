//! The connectivity of the renderer's meshes: the tessellated unit quad that
//! every patch is drawn with, and the cube used for the skybox.

use vstd::prelude::*;

verus! {

/// The grid position `(i, j)` of vertex `k` of a grid `w` vertices wide.
pub open spec fn grid_vertex(w: int, k: int) -> (u32, u32) {
    ((k / w) as u32, (k % w) as u32)
}

/// The six indices (two triangles) of grid cell `(i, j)` of a quad split into
/// `q × q` cells, its vertices `q + 1` to a row; each index cut to 16 bits.
pub open spec fn cell_indices(q: int, i: int, j: int) -> Seq<u16> {
    let vertices_per_row = q + 1;
    let i0 = i * vertices_per_row + j;
    let i1 = i0 + 1;
    let i2 = i0 + vertices_per_row;
    let i3 = i2 + 1;
    seq![i0 as u16, i1 as u16, i2 as u16, i2 as u16, i1 as u16, i3 as u16]
}

/// The indices of the first `c` cells, cell `c` being `(c / q, c % q)`.
pub open spec fn quad_indices(q: int, c: int) -> Seq<u16>
    decreases c,
{
    if c <= 0 || q <= 0 {
        Seq::empty()
    } else {
        quad_indices(q, c - 1) + cell_indices(q, (c - 1) / q, (c - 1) % q)
    }
}

proof fn lemma_row_major(x: int, y: int, w: int)
    requires
        0 <= x < w,
        0 <= y,
    ensures
        (y * w + x) % w == x,
        (y * w + x) / w == y,
{
    vstd::arithmetic::div_mod::lemma_fundamental_div_mod_converse(y * w + x, w, y, x);
}

/// The unit quad split `split_count + 1` times along each side: the grid
/// position `(i, j)` of every vertex (`i` the first coordinate; the vertex sits
/// at `(i, j) / (split_count + 1)`), row by row, and two triangles per cell,
/// with 16-bit indices.
pub fn tesselated_quad(split_count: u32) -> (r: (Vec<(u32, u32)>, Vec<u16>))
    requires
        split_count <= 65534,
    ensures
        r.0.len() == (split_count + 2) * (split_count + 2),
        forall|k: int| 0 <= k < r.0.len() ==> #[trigger] r.0@[k] == grid_vertex(split_count + 2, k),
        r.1@ == quad_indices(split_count + 1, (split_count + 1) * (split_count + 1)),
{
    let mut vertices: Vec<(u32, u32)> = Vec::new();
    let mut indices: Vec<u16> = Vec::new();
    let quad_count_one_side: u32 = split_count + 1;
    let vertices_per_row: u32 = quad_count_one_side + 1;
    let ghost w = vertices_per_row as int;
    let mut i: u32 = 0;
    while i <= quad_count_one_side
        invariant
            quad_count_one_side == split_count + 1,
            vertices_per_row == quad_count_one_side + 1,
            w == vertices_per_row,
            quad_count_one_side <= 65535,
            i <= vertices_per_row,
            vertices.len() == i * w,
            forall|k: int| 0 <= k < vertices.len() ==> #[trigger] vertices@[k] == grid_vertex(w, k),
        decreases vertices_per_row - i,
    {
        let mut j: u32 = 0;
        while j <= quad_count_one_side
            invariant
                quad_count_one_side == split_count + 1,
                vertices_per_row == quad_count_one_side + 1,
                w == vertices_per_row,
                quad_count_one_side <= 65535,
                i < vertices_per_row,
                j <= vertices_per_row,
                vertices.len() == i * w + j,
                forall|k: int|
                    0 <= k < vertices.len() ==> #[trigger] vertices@[k] == grid_vertex(w, k),
            decreases vertices_per_row - j,
        {
            proof {
                lemma_row_major(j as int, i as int, w);
            }
            vertices.push((i, j));
            j = j + 1;
        }
        assert(vertices.len() == (i + 1) * w) by (nonlinear_arith)
            requires
                vertices.len() == i * w + j,
                j == w,
        ;
        i = i + 1;
    }
    let ghost q = quad_count_one_side as int;
    let mut c: u32 = 0;
    let mut i: u32 = 0;
    while i < quad_count_one_side
        invariant
            quad_count_one_side == split_count + 1,
            vertices_per_row == quad_count_one_side + 1,
            q == quad_count_one_side,
            quad_count_one_side <= 65535,
            i <= q,
            c == i * q,
            indices@ == quad_indices(q, c as int),
        decreases quad_count_one_side - i,
    {
        let mut j: u32 = 0;
        while j < quad_count_one_side
            invariant
                quad_count_one_side == split_count + 1,
                vertices_per_row == quad_count_one_side + 1,
                q == quad_count_one_side,
                quad_count_one_side <= 65535,
                i < q,
                j <= q,
                c == i * q + j,
                indices@ == quad_indices(q, c as int),
            decreases quad_count_one_side - j,
        {
            assert(i * vertices_per_row + j + vertices_per_row + 1 <= 0xffff_ffff && c + 1
                <= 0xffff_ffff) by (nonlinear_arith)
                requires
                    i < q,
                    j < q,
                    q <= 65535,
                    vertices_per_row == q + 1,
                    c == i * q + j,
            ;
            let i0: u32 = i * vertices_per_row + j;
            let i1: u32 = i0 + 1;
            let i2: u32 = i0 + vertices_per_row;
            let i3: u32 = i2 + 1;
            indices.push(i0 as u16);
            indices.push(i1 as u16);
            indices.push(i2 as u16);
            indices.push(i2 as u16);
            indices.push(i1 as u16);
            indices.push(i3 as u16);
            proof {
                lemma_row_major(j as int, i as int, q);
                assert(indices@ =~= quad_indices(q, c + 1));
            }
            c = c + 1;
            j = j + 1;
        }
        assert(c == (i + 1) * q) by (nonlinear_arith)
            requires
                c == i * q + j,
                j == q,
        ;
        i = i + 1;
    }
    (vertices, indices)
}

/// The skybox cube's 36 vertices, six per face, as corner signs: `-1` picks
/// the minimum and `1` the maximum coordinate on that axis.
pub open spec fn cube_corners() -> Seq<(i8, i8, i8)> {
    seq![
        (-1i8, 1i8, -1i8), (-1i8, -1i8, -1i8), (1i8, -1i8, -1i8), (1i8, -1i8, -1i8), (1i8, 1i8, -1i8), (-1i8, 1i8, -1i8),
        (-1i8, -1i8, 1i8), (-1i8, -1i8, -1i8), (-1i8, 1i8, -1i8), (-1i8, 1i8, -1i8), (-1i8, 1i8, 1i8), (-1i8, -1i8, 1i8),
        (1i8, -1i8, -1i8), (1i8, -1i8, 1i8), (1i8, 1i8, 1i8), (1i8, 1i8, 1i8), (1i8, 1i8, -1i8), (1i8, -1i8, -1i8),
        (-1i8, -1i8, 1i8), (-1i8, 1i8, 1i8), (1i8, 1i8, 1i8), (1i8, 1i8, 1i8), (1i8, -1i8, 1i8), (-1i8, -1i8, 1i8),
        (-1i8, 1i8, -1i8), (1i8, 1i8, -1i8), (1i8, 1i8, 1i8), (1i8, 1i8, 1i8), (-1i8, 1i8, 1i8), (-1i8, 1i8, -1i8),
        (-1i8, -1i8, -1i8), (-1i8, -1i8, 1i8), (1i8, -1i8, -1i8), (1i8, -1i8, -1i8), (-1i8, -1i8, 1i8), (1i8, -1i8, 1i8),
    ]
}

/// Triangle `k` of the skybox cube: its vertices `3k`, `3k + 1`, `3k + 2`.
pub open spec fn cube_triangle(k: int) -> ((i8, i8, i8), (i8, i8, i8), (i8, i8, i8)) {
    (cube_corners()[3 * k], cube_corners()[3 * k + 1], cube_corners()[3 * k + 2])
}

/// Coordinate `axis` (0, 1 or 2) of a corner.
pub open spec fn coord(p: (i8, i8, i8), axis: int) -> i8 {
    if axis == 0 {
        p.0
    } else if axis == 1 {
        p.1
    } else {
        p.2
    }
}

/// The corner of the face `coord(axis) == side` whose other two coordinates,
/// in axis order, are `a` and `b`.
pub open spec fn face_corner(axis: int, side: i8, a: i8, b: i8) -> (i8, i8, i8) {
    if axis == 0 {
        (side, a, b)
    } else if axis == 1 {
        (a, side, b)
    } else {
        (a, b, side)
    }
}

/// `p` is a corner of triangle `t`.
pub open spec fn in_triangle(
    p: (i8, i8, i8),
    t: ((i8, i8, i8), (i8, i8, i8), (i8, i8, i8)),
) -> bool {
    p == t.0 || p == t.1 || p == t.2
}

/// Corner `i` (0, 1 or 2) of triangle `t`.
pub open spec fn triangle_corner(t: ((i8, i8, i8), (i8, i8, i8), (i8, i8, i8)), i: int) -> (
    i8,
    i8,
    i8,
) {
    if i == 0 {
        t.0
    } else if i == 1 {
        t.1
    } else {
        t.2
    }
}

/// The two triangles cover the square face `coord(axis) == side` of the
/// cube: all their corners lie on the face, each has three different
/// corners, together they have all four corners of the face, and the corner
/// that only one of them has is opposite (across the face) to the corner that
/// only the other has, so that they meet along a diagonal and do not overlap.
pub open spec fn covers_face(
    t1: ((i8, i8, i8), (i8, i8, i8), (i8, i8, i8)),
    t2: ((i8, i8, i8), (i8, i8, i8), (i8, i8, i8)),
    axis: int,
    side: i8,
) -> bool {
    &&& forall|i: int|
        0 <= i < 3 ==> coord(#[trigger] triangle_corner(t1, i), axis) == side && coord(
            triangle_corner(t2, i),
            axis,
        ) == side
    &&& t1.0 != t1.1 && t1.1 != t1.2 && t1.0 != t1.2
    &&& t2.0 != t2.1 && t2.1 != t2.2 && t2.0 != t2.2
    &&& forall|a: i8, b: i8|
        (a == -1 || a == 1) && (b == -1 || b == 1) ==> in_triangle(
            #[trigger] face_corner(axis, side, a, b),
            t1,
        ) || in_triangle(face_corner(axis, side, a, b), t2)
    &&& forall|i: int, j: int|
        0 <= i < 3 && 0 <= j < 3 && !in_triangle(#[trigger] triangle_corner(t1, i), t2)
            && !in_triangle(#[trigger] triangle_corner(t2, j), t1) ==> forall|other: int|
            0 <= other < 3 && other != axis ==> coord(triangle_corner(t1, i), other) != coord(
                triangle_corner(t2, j),
                other,
            )
}

/// The skybox cube's 12 triangles cover its surface: triangles `2f` and
/// `2f + 1` cover face `f`, and the six faces are the six different sides of
/// the cube (`z = -1`, `x = -1`, `x = 1`, `z = 1`, `y = 1`, `y = -1`).
pub proof fn lemma_cube_covers_its_faces()
    ensures
        cube_corners().len() == 36,
        covers_face(cube_triangle(0), cube_triangle(1), 2, -1i8),
        covers_face(cube_triangle(2), cube_triangle(3), 0, -1i8),
        covers_face(cube_triangle(4), cube_triangle(5), 0, 1i8),
        covers_face(cube_triangle(6), cube_triangle(7), 2, 1i8),
        covers_face(cube_triangle(8), cube_triangle(9), 1, 1i8),
        covers_face(cube_triangle(10), cube_triangle(11), 1, -1i8),
{
    assert(cube_triangle(0) == ((-1i8, 1i8, -1i8), (-1i8, -1i8, -1i8), (1i8, -1i8, -1i8)));
    assert(cube_triangle(1) == ((1i8, -1i8, -1i8), (1i8, 1i8, -1i8), (-1i8, 1i8, -1i8)));
    assert(cube_triangle(2) == ((-1i8, -1i8, 1i8), (-1i8, -1i8, -1i8), (-1i8, 1i8, -1i8)));
    assert(cube_triangle(3) == ((-1i8, 1i8, -1i8), (-1i8, 1i8, 1i8), (-1i8, -1i8, 1i8)));
    assert(cube_triangle(4) == ((1i8, -1i8, -1i8), (1i8, -1i8, 1i8), (1i8, 1i8, 1i8)));
    assert(cube_triangle(5) == ((1i8, 1i8, 1i8), (1i8, 1i8, -1i8), (1i8, -1i8, -1i8)));
    assert(cube_triangle(6) == ((-1i8, -1i8, 1i8), (-1i8, 1i8, 1i8), (1i8, 1i8, 1i8)));
    assert(cube_triangle(7) == ((1i8, 1i8, 1i8), (1i8, -1i8, 1i8), (-1i8, -1i8, 1i8)));
    assert(cube_triangle(8) == ((-1i8, 1i8, -1i8), (1i8, 1i8, -1i8), (1i8, 1i8, 1i8)));
    assert(cube_triangle(9) == ((1i8, 1i8, 1i8), (-1i8, 1i8, 1i8), (-1i8, 1i8, -1i8)));
    assert(cube_triangle(10) == ((-1i8, -1i8, -1i8), (-1i8, -1i8, 1i8), (1i8, -1i8, -1i8)));
    assert(cube_triangle(11) == ((1i8, -1i8, -1i8), (-1i8, -1i8, 1i8), (1i8, -1i8, 1i8)));
}

/// The skybox cube: its vertices as corner signs and the index of every
/// vertex in order.
pub fn cubemap_cube() -> (r: (Vec<(i8, i8, i8)>, Vec<u16>))
    ensures
        r.0@ == cube_corners(),
        r.1.len() == r.0.len(),
        forall|k: int| 0 <= k < r.1.len() ==> #[trigger] r.1@[k] == k,
{
    let corners: Vec<(i8, i8, i8)> = vec![
        (-1, 1, -1), (-1, -1, -1), (1, -1, -1), (1, -1, -1), (1, 1, -1), (-1, 1, -1i8),
        (-1, -1, 1), (-1, -1, -1), (-1, 1, -1), (-1, 1, -1), (-1, 1, 1), (-1, -1, 1),
        (1, -1, -1), (1, -1, 1), (1, 1, 1), (1, 1, 1), (1, 1, -1), (1, -1, -1),
        (-1, -1, 1), (-1, 1, 1), (1, 1, 1), (1, 1, 1), (1, -1, 1), (-1, -1, 1),
        (-1, 1, -1), (1, 1, -1), (1, 1, 1), (1, 1, 1), (-1, 1, 1), (-1, 1, -1i8),
        (-1, -1, -1), (-1, -1, 1), (1, -1, -1), (1, -1, -1), (-1, -1, 1), (1, -1, 1),
    ];
    let count: u16 = 36;
    let mut indices: Vec<u16> = Vec::new();
    let mut k: u16 = 0;
    while k < count
        invariant
            k <= count,
            count == 36,
            indices.len() == k,
            forall|m: int| 0 <= m < indices.len() ==> #[trigger] indices@[m] == m,
        decreases count - k,
    {
        indices.push(k);
        k = k + 1;
    }
    assert(corners@ =~= cube_corners());
    (corners, indices)
}

} // verus!
