//! The integer side of turning a triangle mesh into a geometry image: the
//! mesh's triangles and edges, the vertex adjacency that the spherical
//! smoothing walks, the sorting of triangles into the eight octants of the
//! parametrized sphere, and the assembly of the sampled image with its
//! mirrored borders.

use vstd::prelude::*;
use std::collections::HashMap;

verus! {

broadcast use vstd::std_specs::hash::group_hash_axioms;

/// The three vertex indices of a triangle.
#[derive(Clone, Copy, Debug, PartialEq, Eq, Structural)]
pub struct Triangle {
    pub x: u32,
    pub y: u32,
    pub z: u32,
}

/// A directed edge between two vertex indices.
#[derive(Clone, Copy, Debug, PartialEq, Eq, Structural)]
pub struct Edge {
    pub x: u32,
    pub y: u32,
}

/// A triangle mesh, as far as its connectivity goes: three vertex indices per
/// face. (Positions and other attributes are floating-point data kept beside it.)
pub struct Mesh {
    pub indices: Vec<u32>,
}

/// The `i`-th triangle of an index list.
pub open spec fn triangle_at(indices: Seq<u32>, i: int) -> Triangle {
    Triangle { x: indices[3 * i], y: indices[3 * i + 1], z: indices[3 * i + 2] }
}

/// The triangles of an index list: one per complete group of three indices.
pub open spec fn triangles_of(indices: Seq<u32>) -> Seq<Triangle> {
    Seq::new((indices.len() / 3) as nat, |i: int| triangle_at(indices, i))
}

/// The three directed edges of a triangle, in order.
pub open spec fn edges_of_triangle(t: Triangle) -> Seq<Edge> {
    seq![Edge { x: t.x, y: t.y }, Edge { x: t.y, y: t.z }, Edge { x: t.z, y: t.x }]
}

/// The directed edges of a list of triangles, three per triangle, in order.
pub open spec fn edges_of(ts: Seq<Triangle>) -> Seq<Edge>
    decreases ts.len(),
{
    if ts.len() == 0 {
        Seq::empty()
    } else {
        edges_of(ts.drop_last()) + edges_of_triangle(ts.last())
    }
}

pub proof fn lemma_edges_of_len(ts: Seq<Triangle>)
    ensures
        edges_of(ts).len() == 3 * ts.len(),
    decreases ts.len(),
{
    if ts.len() > 0 {
        lemma_edges_of_len(ts.drop_last());
    }
}

impl Mesh {
    /// The number of (complete) faces.
    pub fn faces_count(&self) -> (n: usize)
        ensures
            n == self.indices.len() / 3,
    {
        self.indices.len() / 3
    }

    /// The triangles, one per complete group of three indices, in order.
    pub fn triangles(&self) -> (ts: Vec<Triangle>)
        ensures
            ts@ == triangles_of(self.indices@),
    {
        let mut ts: Vec<Triangle> = Vec::new();
        let n = self.indices.len() / 3;
        let mut i: usize = 0;
        while i < n
            invariant
                n == self.indices.len() / 3,
                i <= n,
                ts@ == triangles_of(self.indices@).take(i as int),
            decreases n - i,
        {
            let k: usize = 3 * i;
            ts.push(
                Triangle { x: self.indices[k], y: self.indices[k + 1], z: self.indices[k + 2] },
            );
            proof {
                assert(ts@ =~= triangles_of(self.indices@).take(i + 1));
            }
            i = i + 1;
        }
        proof {
            assert(triangles_of(self.indices@).take(i as int) =~= triangles_of(self.indices@));
        }
        ts
    }

    /// The directed edges of every triangle `(x, y, z)`: `x→y`, `y→z`, `z→x`.
    pub fn edges(&self) -> (es: Vec<Edge>)
        ensures
            es@ == edges_of(triangles_of(self.indices@)),
    {
        let ts = self.triangles();
        let mut es: Vec<Edge> = Vec::new();
        let mut i: usize = 0;
        while i < ts.len()
            invariant
                i <= ts.len(),
                es@ == edges_of(ts@.take(i as int)),
            decreases ts.len() - i,
        {
            let t = ts[i];
            es.push(Edge { x: t.x, y: t.y });
            es.push(Edge { x: t.y, y: t.z });
            es.push(Edge { x: t.z, y: t.x });
            proof {
                assert(ts@.take(i + 1).drop_last() =~= ts@.take(i as int));
                assert(es@ =~= edges_of(ts@.take(i + 1)));
            }
            i = i + 1;
        }
        proof {
            assert(ts@.take(i as int) =~= ts@);
        }
        es
    }
}

// ---------------------------------------------------------------------------
// Vertex adjacency for the spherical smoothing
// ---------------------------------------------------------------------------

/// The key under which the weight of an edge `x→y` is stored: `y·n + x`.
pub open spec fn edge_key(x: int, y: int, n: int) -> int {
    y * n + x
}

/// The weight table holds the key of `j→i`: some edge of `es`, taken in
/// either direction, has that key.
pub open spec fn weighted(es: Seq<Edge>, n: int, i: int, j: int) -> bool {
    exists|k: int|
        0 <= k < es.len() && (edge_key(es[k].x as int, es[k].y as int, n) == edge_key(j, i, n)
            || edge_key(es[k].y as int, es[k].x as int, n) == edge_key(j, i, n))
}

/// The pairs `(i, j)`, `j < m`, whose key `j→i` the weight table holds, by `j`.
pub open spec fn adjacency_row(es: Seq<Edge>, n: int, i: int, m: int) -> Seq<Edge>
    decreases m,
{
    if m <= 0 {
        Seq::empty()
    } else if weighted(es, n, i, m - 1) {
        adjacency_row(es, n, i, m - 1).push(Edge { x: i as u32, y: (m - 1) as u32 })
    } else {
        adjacency_row(es, n, i, m - 1)
    }
}

/// The rows `0..r` of the adjacency, one after the other.
pub open spec fn adjacency_rows(es: Seq<Edge>, n: int, r: int) -> Seq<Edge>
    decreases r,
{
    if r <= 0 {
        Seq::empty()
    } else {
        adjacency_rows(es, n, r - 1) + adjacency_row(es, n, r - 1, n)
    }
}

proof fn lemma_key_fits(x: u32, y: u32, n: usize)
    requires
        n <= 0x1_0000_0000,
    ensures
        (y as int) * (n as int) + (x as int) <= u64::MAX,
{
    assert((y as int) * (n as int) <= 0xffff_ffff * 0x1_0000_0000) by (nonlinear_arith)
        requires
            0 <= y <= 0xffff_ffff,
            0 <= n <= 0x1_0000_0000,
    ;
}

fn to_key(x: u32, y: u32, number_of_vertices: usize) -> (key: u64)
    requires
        number_of_vertices <= 0x1_0000_0000,
    ensures
        key == edge_key(x as int, y as int, number_of_vertices as int),
{
    proof {
        lemma_key_fits(x, y, number_of_vertices);
    }
    (y as u64) * (number_of_vertices as u64) + (x as u64)
}

/// The connectivity that the spherical smoothing uses. The mesh's edges,
/// taken in both directions, are stored in a weight table under the key
/// `y·n + x` (`n` the number of vertices). For every vertex `i` the result
/// gives the number of vertices `j < n` whose key `j→i` is in the table (the
/// vertex's degree), and lists all such pairs `(i, j)`, by `i`, then by `j`.
pub fn vertex_adjacency(mesh: &Mesh, number_of_vertices: usize) -> (r: (Vec<u64>, Vec<Edge>))
    requires
        number_of_vertices <= 0x1_0000_0000,
    ensures
        r.0.len() == number_of_vertices,
        forall|i: int|
            0 <= i < number_of_vertices ==> r.0@[i] == adjacency_row(
                edges_of(triangles_of(mesh.indices@)),
                number_of_vertices as int,
                i,
                number_of_vertices as int,
            ).len(),
        r.1@ == adjacency_rows(
            edges_of(triangles_of(mesh.indices@)),
            number_of_vertices as int,
            number_of_vertices as int,
        ),
{
    let n = number_of_vertices;
    let ghost nn = n as int;
    let edges = mesh.edges();
    let ghost es = edges@;
    let mut weights: HashMap<u64, u32> = HashMap::new();
    let mut k: usize = 0;
    while k < edges.len()
        invariant
            n <= 0x1_0000_0000,
            nn == n,
            edges@ == es,
            k <= es.len(),
            forall|key: u64|
                #![trigger weights@.contains_key(key)]
                weights@.contains_key(key) <==> exists|m: int|
                    0 <= m < k && (edge_key(es[m].x as int, es[m].y as int, nn) == key
                        || edge_key(es[m].y as int, es[m].x as int, nn) == key),
            forall|key: u64| #[trigger] weights@.contains_key(key) ==> weights@[key] == 1,
        decreases es.len() - k,
    {
        let e = edges[k];
        let ghost before = weights@;
        let forward = to_key(e.x, e.y, n);
        let backward = to_key(e.y, e.x, n);
        weights.insert(forward, 1);
        weights.insert(backward, 1);
        proof {
            assert forall|key: u64|
                #![trigger weights@.contains_key(key)]
                weights@.contains_key(key) <==> exists|m: int|
                    0 <= m < k + 1 && (edge_key(es[m].x as int, es[m].y as int, nn) == key
                        || edge_key(es[m].y as int, es[m].x as int, nn) == key) by {
                if weights@.contains_key(key) && key != forward && key != backward {
                    assert(before.contains_key(key));
                }
                if key == forward || key == backward {
                    assert(e == es[k as int]);
                    assert(edge_key(es[k as int].x as int, es[k as int].y as int, nn) == key
                        || edge_key(es[k as int].y as int, es[k as int].x as int, nn) == key);
                }
                if exists|m: int|
                    0 <= m < k + 1 && (edge_key(es[m].x as int, es[m].y as int, nn) == key
                        || edge_key(es[m].y as int, es[m].x as int, nn) == key) {
                    let m = choose|m: int|
                        0 <= m < k + 1 && (edge_key(es[m].x as int, es[m].y as int, nn) == key
                            || edge_key(es[m].y as int, es[m].x as int, nn) == key);
                    if m < k {
                        assert(before.contains_key(key));
                    }
                }
            }
        }
        k = k + 1;
    }
    let mut degrees: Vec<u64> = Vec::with_capacity(n);
    let mut pairs: Vec<Edge> = Vec::new();
    let mut i: usize = 0;
    while i < n
        invariant
            n <= 0x1_0000_0000,
            nn == n,
            edges@ == es,
            forall|key: u64|
                #![trigger weights@.contains_key(key)]
                weights@.contains_key(key) <==> exists|m: int|
                    0 <= m < es.len() && (edge_key(es[m].x as int, es[m].y as int, nn) == key
                        || edge_key(es[m].y as int, es[m].x as int, nn) == key),
            forall|key: u64| #[trigger] weights@.contains_key(key) ==> weights@[key] == 1,
            i <= n,
            degrees.len() == i,
            forall|a: int| 0 <= a < i ==> degrees@[a] == adjacency_row(es, nn, a, nn).len(),
            pairs@ == adjacency_rows(es, nn, i as int),
        decreases n - i,
    {
        let mut current_sum: u64 = 0;
        let ghost row_start = pairs@;
        let mut j: usize = 0;
        while j < n
            invariant
                n <= 0x1_0000_0000,
                nn == n,
                i < n,
                j <= n,
                forall|key: u64|
                    #![trigger weights@.contains_key(key)]
                    weights@.contains_key(key) <==> exists|m: int|
                        0 <= m < es.len() && (edge_key(es[m].x as int, es[m].y as int, nn) == key
                            || edge_key(es[m].y as int, es[m].x as int, nn) == key),
                forall|key: u64| #[trigger] weights@.contains_key(key) ==> weights@[key] == 1,
                current_sum == adjacency_row(es, nn, i as int, j as int).len(),
                pairs@ == row_start + adjacency_row(es, nn, i as int, j as int),
            decreases n - j,
        {
            let key = to_key(j as u32, i as u32, n);
            let hit = match weights.get(&key) {
                Some(v) => *v == 1,
                None => false,
            };
            proof {
                assert(hit == weights@.contains_key(key));
                assert(hit == weighted(es, nn, i as int, j as int));
                assert(adjacency_row(es, nn, i as int, j as int).len() <= j) by {
                    lemma_adjacency_row_len(es, nn, i as int, j as int);
                }
            }
            if hit {
                pairs.push(Edge { x: i as u32, y: j as u32 });
                current_sum = current_sum + 1;
            }
            proof {
                assert(pairs@ =~= row_start + adjacency_row(es, nn, i as int, j + 1));
            }
            j = j + 1;
        }
        degrees.push(current_sum);
        proof {
            assert(pairs@ =~= adjacency_rows(es, nn, i + 1));
        }
        i = i + 1;
    }
    (degrees, pairs)
}

proof fn lemma_adjacency_row_len(es: Seq<Edge>, n: int, i: int, m: int)
    requires
        m >= 0,
    ensures
        adjacency_row(es, n, i, m).len() <= m,
    decreases m,
{
    if m > 0 {
        lemma_adjacency_row_len(es, n, i, m - 1);
    }
}

// ---------------------------------------------------------------------------
// Octant groups
// ---------------------------------------------------------------------------

/// The signs of a parametrized vertex's coordinates: for each axis whether the
/// coordinate is `>= 0` and whether it is `<= 0` (both for a zero).
#[derive(Clone, Copy, Debug, PartialEq, Eq, Structural)]
pub struct VertexSigns {
    pub x_nonneg: bool,
    pub x_nonpos: bool,
    pub y_nonneg: bool,
    pub y_nonpos: bool,
    pub z_nonneg: bool,
    pub z_nonpos: bool,
}

/// Octant `g` (`0..8`) lies on the negative side of x for `g >= 4`, of y for
/// `g % 4 >= 2`, of z for odd `g`; the vertex lies in its closure.
pub open spec fn in_octant(v: VertexSigns, g: int) -> bool {
    &&& (if g >= 4 { v.x_nonpos } else { v.x_nonneg })
    &&& (if g % 4 >= 2 { v.y_nonpos } else { v.y_nonneg })
    &&& (if g % 2 == 1 { v.z_nonpos } else { v.z_nonneg })
}

/// All three corners of the triangle lie in the closed octant `g`.
pub open spec fn triangle_in_octant(signs: Seq<VertexSigns>, t: Triangle, g: int) -> bool {
    &&& in_octant(signs[t.x as int], g)
    &&& in_octant(signs[t.y as int], g)
    &&& in_octant(signs[t.z as int], g)
}

/// The triangle goes into group `g`: it lies in octant `g`, or it lies in no
/// octant at all (then it goes into every group).
pub open spec fn in_group(signs: Seq<VertexSigns>, t: Triangle, g: int) -> bool {
    triangle_in_octant(signs, t, g) || forall|h: int|
        0 <= h < 8 ==> !#[trigger] triangle_in_octant(signs, t, h)
}

/// The triangles of `ts` that go into group `g`, in order.
pub open spec fn group_of(signs: Seq<VertexSigns>, ts: Seq<Triangle>, g: int) -> Seq<Triangle>
    decreases ts.len(),
{
    if ts.len() == 0 {
        Seq::empty()
    } else if in_group(signs, ts.last(), g) {
        group_of(signs, ts.drop_last(), g).push(ts.last())
    } else {
        group_of(signs, ts.drop_last(), g)
    }
}

/// The mesh's triangles sorted into the eight octants of the parametrized sphere.
pub struct TriangleGroups {
    pub groups: [Vec<Triangle>; 8],
}

/// Every vertex index of the mesh has a sign entry.
pub open spec fn signs_cover(mesh: &Mesh, signs: Seq<VertexSigns>) -> bool {
    forall|i: int|
        0 <= i < triangles_of(mesh.indices@).len() ==> {
            &&& (#[trigger] triangles_of(mesh.indices@)[i]).x < signs.len()
            &&& triangles_of(mesh.indices@)[i].y < signs.len()
            &&& triangles_of(mesh.indices@)[i].z < signs.len()
        }
}

fn vertex_in_octant(v: VertexSigns, g: usize) -> (b: bool)
    requires
        g < 8,
    ensures
        b == in_octant(v, g as int),
{
    let x = if g >= 4 {
        v.x_nonpos
    } else {
        v.x_nonneg
    };
    let y = if g % 4 >= 2 {
        v.y_nonpos
    } else {
        v.y_nonneg
    };
    let z = if g % 2 == 1 {
        v.z_nonpos
    } else {
        v.z_nonneg
    };
    x && y && z
}

/// Separates the triangles into eight groups by where they lie on the
/// parametrized sphere: group `g` receives the triangles whose three corners
/// all lie in (the closure of) octant `g`. A triangle with corners in several
/// octants goes into all eight groups, so that no triangle is lost.
pub fn separate_triangle_groups(mesh: &Mesh, signs: &Vec<VertexSigns>) -> (r: TriangleGroups)
    requires
        signs_cover(mesh, signs@),
    ensures
        forall|g: int|
            0 <= g < 8 ==> (#[trigger] r.groups@[g])@ == group_of(
                signs@,
                triangles_of(mesh.indices@),
                g,
            ),
{
    let ts = mesh.triangles();
    let mut g0: Vec<Triangle> = Vec::new();
    let mut g1: Vec<Triangle> = Vec::new();
    let mut g2: Vec<Triangle> = Vec::new();
    let mut g3: Vec<Triangle> = Vec::new();
    let mut g4: Vec<Triangle> = Vec::new();
    let mut g5: Vec<Triangle> = Vec::new();
    let mut g6: Vec<Triangle> = Vec::new();
    let mut g7: Vec<Triangle> = Vec::new();
    let mut i: usize = 0;
    while i < ts.len()
        invariant
            ts@ == triangles_of(mesh.indices@),
            signs_cover(mesh, signs@),
            i <= ts.len(),
            g0@ == group_of(signs@, ts@.take(i as int), 0),
            g1@ == group_of(signs@, ts@.take(i as int), 1),
            g2@ == group_of(signs@, ts@.take(i as int), 2),
            g3@ == group_of(signs@, ts@.take(i as int), 3),
            g4@ == group_of(signs@, ts@.take(i as int), 4),
            g5@ == group_of(signs@, ts@.take(i as int), 5),
            g6@ == group_of(signs@, ts@.take(i as int), 6),
            g7@ == group_of(signs@, ts@.take(i as int), 7),
        decreases ts.len() - i,
    {
        let triangle = ts[i];
        assert(triangle == triangles_of(mesh.indices@)[i as int]);
        let mut found = [false; 8];
        let mut h: usize = 0;
        while h < 8
            invariant
                h <= 8,
                triangle.x < signs.len() && triangle.y < signs.len() && triangle.z < signs.len(),
                forall|m: int| 0 <= m < h ==> found@[m] == triangle_in_octant(signs@, triangle, m),
            decreases 8 - h,
        {
            let hit = vertex_in_octant(signs[triangle.x as usize], h) && vertex_in_octant(
                signs[triangle.y as usize],
                h,
            ) && vertex_in_octant(signs[triangle.z as usize], h);
            found[h] = hit;
            h = h + 1;
        }
        let found_group = found[0] || found[1] || found[2] || found[3] || found[4] || found[5]
            || found[6] || found[7];
        proof {
            if !found_group {
                assert forall|m: int| 0 <= m < 8 implies !#[trigger] triangle_in_octant(
                    signs@,
                    triangle,
                    m,
                ) by {
                    assert(!found@[m]);
                }
            }
            assert(ts@.take(i + 1).drop_last() =~= ts@.take(i as int));
            assert(ts@.take(i + 1).last() == triangle);
        }
        if found[0] || !found_group {
            g0.push(triangle);
        }
        if found[1] || !found_group {
            g1.push(triangle);
        }
        if found[2] || !found_group {
            g2.push(triangle);
        }
        if found[3] || !found_group {
            g3.push(triangle);
        }
        if found[4] || !found_group {
            g4.push(triangle);
        }
        if found[5] || !found_group {
            g5.push(triangle);
        }
        if found[6] || !found_group {
            g6.push(triangle);
        }
        if found[7] || !found_group {
            g7.push(triangle);
        }
        i = i + 1;
    }
    proof {
        assert(ts@.take(i as int) =~= ts@);
    }
    TriangleGroups { groups: [g0, g1, g2, g3, g4, g5, g6, g7] }
}

/// How the octants are numbered: group `g` holds the octant with x >= 0 for
/// `g < 4` and x <= 0 otherwise, y >= 0 for `g` = 0, 1, 4, 5 and y <= 0
/// otherwise, z >= 0 for even `g` and z <= 0 for odd `g`.
pub proof fn lemma_octant_numbering(v: VertexSigns)
    ensures
        in_octant(v, 0) == (v.x_nonneg && v.y_nonneg && v.z_nonneg),
        in_octant(v, 1) == (v.x_nonneg && v.y_nonneg && v.z_nonpos),
        in_octant(v, 2) == (v.x_nonneg && v.y_nonpos && v.z_nonneg),
        in_octant(v, 3) == (v.x_nonneg && v.y_nonpos && v.z_nonpos),
        in_octant(v, 4) == (v.x_nonpos && v.y_nonneg && v.z_nonneg),
        in_octant(v, 5) == (v.x_nonpos && v.y_nonneg && v.z_nonpos),
        in_octant(v, 6) == (v.x_nonpos && v.y_nonpos && v.z_nonneg),
        in_octant(v, 7) == (v.x_nonpos && v.y_nonpos && v.z_nonpos),
{
}

/// The vertex lies strictly on the given sides: negative in x exactly when
/// `nx`, in y exactly when `ny`, in z exactly when `nz`, and zero in none.
pub open spec fn strictly_on_sides(v: VertexSigns, nx: bool, ny: bool, nz: bool) -> bool {
    &&& v.x_nonpos == nx && v.x_nonneg == !nx
    &&& v.y_nonpos == ny && v.y_nonneg == !ny
    &&& v.z_nonpos == nz && v.z_nonneg == !nz
}

/// A triangle whose three corners lie strictly inside one octant goes into
/// that octant's group only: the group `4·[x < 0] + 2·[y < 0] + [z < 0]`.
pub proof fn lemma_triangle_goes_to_its_octant(
    signs: Seq<VertexSigns>,
    t: Triangle,
    nx: bool,
    ny: bool,
    nz: bool,
    g: int,
)
    requires
        t.x < signs.len() && t.y < signs.len() && t.z < signs.len(),
        strictly_on_sides(signs[t.x as int], nx, ny, nz),
        strictly_on_sides(signs[t.y as int], nx, ny, nz),
        strictly_on_sides(signs[t.z as int], nx, ny, nz),
        0 <= g < 8,
    ensures
        group_of(signs, seq![t], g) == if g == (if nx { 4int } else { 0 }) + (if ny { 2int } else {
            0
        }) + (if nz { 1int } else { 0 }) {
            seq![t]
        } else {
            Seq::<Triangle>::empty()
        },
{
    let home = (if nx { 4int } else { 0 }) + (if ny { 2int } else { 0 }) + (if nz { 1int } else { 0 });
    assert(triangle_in_octant(signs, t, home));
    assert(seq![t].drop_last() =~= Seq::<Triangle>::empty());
    assert(seq![t].last() == t);
    assert(seq![t].len() == 1);
    assert(group_of(signs, Seq::<Triangle>::empty(), g) == Seq::<Triangle>::empty());
    assert(group_of(signs, seq![t], g) == if in_group(signs, t, g) {
        group_of(signs, seq![t].drop_last(), g).push(t)
    } else {
        group_of(signs, seq![t].drop_last(), g)
    });
    if g == home {
        assert(in_group(signs, t, g));
        assert(group_of(signs, seq![t], g) =~= seq![t]);
    } else {
        assert(!triangle_in_octant(signs, t, g));
        assert(!in_group(signs, t, g));
        assert(group_of(signs, seq![t], g) =~= Seq::<Triangle>::empty());
    }
}

/// No triangle is lost: every triangle of the mesh lands in at least one group.
pub proof fn lemma_every_triangle_grouped(signs: Seq<VertexSigns>, ts: Seq<Triangle>, i: int)
    requires
        0 <= i < ts.len(),
    ensures
        exists|g: int| 0 <= g < 8 && #[trigger] group_of(signs, ts, g).contains(ts[i]),
    decreases ts.len(),
{
    if i == ts.len() - 1 {
        let t = ts[i];
        if exists|h: int| 0 <= h < 8 && #[trigger] triangle_in_octant(signs, t, h) {
            let h = choose|h: int| 0 <= h < 8 && #[trigger] triangle_in_octant(signs, t, h);
            assert(group_of(signs, ts, h)[group_of(signs, ts, h).len() - 1] == t);
            assert(group_of(signs, ts, h).contains(t));
        } else {
            assert(in_group(signs, t, 0));
            assert(group_of(signs, ts, 0)[group_of(signs, ts, 0).len() - 1] == t);
            assert(group_of(signs, ts, 0).contains(t));
        }
    } else {
        lemma_every_triangle_grouped(signs, ts.drop_last(), i);
        let g = choose|g: int|
            0 <= g < 8 && #[trigger] group_of(signs, ts.drop_last(), g).contains(ts[i]);
        let prev = group_of(signs, ts.drop_last(), g);
        let k = choose|k: int| 0 <= k < prev.len() && prev[k] == ts[i];
        assert(group_of(signs, ts, g)[k] == ts[i]);
        assert(group_of(signs, ts, g).contains(ts[i]));
    }
}

// ---------------------------------------------------------------------------
// Assembling the geometry image
// ---------------------------------------------------------------------------

/// An image of `width × height` pixels, stored row by row.
pub struct Image<P> {
    pub width: u32,
    pub height: u32,
    pub pixels: Vec<P>,
}

/// The index of pixel `(x, y)` in a `g`-wide image.
pub open spec fn at(x: int, y: int, g: int) -> int {
    y * g + x
}

/// `(x, y)` is one of the four corners of a `g × g` image.
pub open spec fn is_corner(x: int, y: int, g: int) -> bool {
    (x == 0 || x == g - 1) && (y == 0 || y == g - 1)
}

/// Pixel `(x, y)` writes its colour to pixel `(a, b)`: to itself, and a border
/// pixel also to its mirror image across the image's middle along the border
/// (a corner to all corners), so that the border of the geometry image is
/// seamless when folded onto the sphere.
pub open spec fn writes_to(x: int, y: int, a: int, b: int, g: int) -> bool {
    ||| (a == x && b == y)
    ||| ((x == 0 || x == g - 1) && a == x && b == g - 1 - y)
    ||| ((y == 0 || y == g - 1) && b == y && a == g - 1 - x)
    ||| (is_corner(x, y, g) && a == g - 1 - x && b == g - 1 - y)
}

/// The colour in hand after the pixels `0..=k` (in row-major order) were
/// sampled: the last pixel's sample, or where it has none (a hole in the mesh)
/// the colour before it; `background` before any pixel.
pub open spec fn color_after<P>(samples: Seq<Option<P>>, background: P, k: int) -> P
    decreases k + 1,
{
    if k < 0 {
        background
    } else {
        match samples[k] {
            Some(c) => c,
            None => color_after(samples, background, k - 1),
        }
    }
}

/// The last of the pixels `0..k` (row-major) that writes to pixel `(a, b)`, or
/// `-1` where none does.
pub open spec fn last_writer(a: int, b: int, g: int, k: int) -> int
    decreases k,
{
    if k <= 0 || g <= 0 {
        -1
    } else if writes_to((k - 1) % g, (k - 1) / g, a, b, g) {
        k - 1
    } else {
        last_writer(a, b, g, k - 1)
    }
}

/// The final colour of pixel `(a, b)` of the `g × g` geometry image.
pub open spec fn final_pixel<P>(samples: Seq<Option<P>>, background: P, g: int, a: int, b: int) -> P {
    let w = last_writer(a, b, g, g * g);
    if w < 0 {
        background
    } else {
        color_after(samples, background, w)
    }
}

/// The number of pixels among `0..k` without a sample.
pub open spec fn missing_samples<P>(samples: Seq<Option<P>>, k: int) -> nat
    decreases k,
{
    if k <= 0 {
        0
    } else if samples[k - 1] is None {
        missing_samples(samples, k - 1) + 1
    } else {
        missing_samples(samples, k - 1)
    }
}

proof fn lemma_at_bounds(x: int, y: int, g: int)
    requires
        0 <= x < g,
        0 <= y < g,
    ensures
        0 <= at(x, y, g) < g * g,
{
    assert(0 <= y * g + x < g * g) by (nonlinear_arith)
        requires
            0 <= x < g,
            0 <= y < g,
    ;
}

proof fn lemma_at_injective(x: int, y: int, a: int, b: int, g: int)
    requires
        0 <= x < g,
        0 <= y < g,
        0 <= a < g,
        0 <= b < g,
        at(x, y, g) == at(a, b, g),
    ensures
        x == a && y == b,
{
    assert(y == b) by (nonlinear_arith)
        requires
            0 <= x < g,
            0 <= a < g,
            y * g + x == b * g + a,
            0 <= y,
            0 <= b,
    ;
}

proof fn lemma_at_div_mod(x: int, y: int, g: int)
    requires
        0 <= x < g,
        0 <= y,
    ensures
        at(x, y, g) % g == x,
        at(x, y, g) / g == y,
{
    vstd::arithmetic::div_mod::lemma_fundamental_div_mod_converse(at(x, y, g), g, y, x);
}

/// Writes `color` to every pixel that pixel `(x, y)` writes to.
fn write_pixel<P: Copy>(img: &mut Vec<P>, x: usize, y: usize, g: usize, color: P)
    requires
        old(img).len() == g * g,
        x < g,
        y < g,
    ensures
        final(img).len() == g * g,
        forall|a: int, b: int|
            0 <= a < g && 0 <= b < g ==> #[trigger] final(img)@[at(a, b, g as int)] == if writes_to(
                x as int,
                y as int,
                a,
                b,
                g as int,
            ) {
                color
            } else {
                old(img)@[at(a, b, g as int)]
            },
{
    let ghost gg = g as int;
    let ghost before = img@;
    proof {
        lemma_at_bounds(x as int, (gg - 1 - y) as int, gg);
        lemma_at_bounds((gg - 1 - x) as int, y as int, gg);
        lemma_at_bounds((gg - 1 - x) as int, (gg - 1 - y) as int, gg);
        lemma_at_bounds(x as int, y as int, gg);
        assert forall|a: int, b: int| 0 <= a < g && 0 <= b < g implies 0 <= #[trigger] at(a, b, gg)
            < g * g by {
            lemma_at_bounds(a, b, gg);
        }
    }
    if x == 0 || x == g - 1 {
        let idx: usize = (g - y - 1) * g + x;
        img.set(idx, color);
    }
    let ghost after_a = img@;
    if y == 0 || y == g - 1 {
        let idx: usize = y * g + (g - x - 1);
        img.set(idx, color);
    }
    let ghost after_b = img@;
    if (x == 0 && y == 0) || (x == g - 1 && y == g - 1) || (x == 0 && y == g - 1) || (x == g - 1
        && y == 0) {
        let idx: usize = (g - y - 1) * g + (g - x - 1);
        img.set(idx, color);
    }
    let ghost after_c = img@;
    let idx: usize = y * g + x;
    img.set(idx, color);
    proof {
        assert forall|a: int, b: int| 0 <= a < g && 0 <= b < g implies #[trigger] img@[at(
            a,
            b,
            gg,
        )] == if writes_to(x as int, y as int, a, b, gg) {
            color
        } else {
            before[at(a, b, gg)]
        } by {
            lemma_at_bounds(a, b, gg);
            if at(a, b, gg) == at(x as int, (gg - 1 - y) as int, gg) {
                lemma_at_injective(a, b, x as int, (gg - 1 - y) as int, gg);
            }
            if at(a, b, gg) == at((gg - 1 - x) as int, y as int, gg) {
                lemma_at_injective(a, b, (gg - 1 - x) as int, y as int, gg);
            }
            if at(a, b, gg) == at((gg - 1 - x) as int, (gg - 1 - y) as int, gg) {
                lemma_at_injective(a, b, (gg - 1 - x) as int, (gg - 1 - y) as int, gg);
            }
            if at(a, b, gg) == at(x as int, y as int, gg) {
                lemma_at_injective(a, b, x as int, y as int, gg);
            }
        }
    }
}

/// Assembles the `g × g` geometry image from one sample per pixel, taken in
/// row-major order (`samples[y·g + x]` for pixel `(x, y)`). A pixel without a
/// sample (a hole in the mesh) keeps the colour of the pixel before it. Each
/// border pixel is also copied to its mirror image along the border, so that
/// the image folds onto the sphere without seams. Returns the image and the
/// number of pixels that had no sample.
pub fn to_image<P: Copy>(samples: &Vec<Option<P>>, size: (u32, u32), background: P) -> (r: (
    Image<P>,
    usize,
))
    requires
        size.0 > 1 && size.1 > 1,
        size.0 % 2 == 1 && size.1 % 2 == 1,
        size.0 == size.1,
        size.0 * size.1 <= u32::MAX,
        samples.len() == size.0 * size.1,
    ensures
        r.0.width == size.0,
        r.0.height == size.1,
        r.0.pixels.len() == size.0 * size.1,
        forall|a: int, b: int|
            0 <= a < size.0 && 0 <= b < size.1 ==> #[trigger] r.0.pixels@[at(a, b, size.0 as int)]
                == final_pixel(samples@, background, size.0 as int, a, b),
        r.1 == missing_samples(samples@, samples.len() as int),
{
    let g: usize = size.0 as usize;
    let ghost gg = g as int;
    let total: usize = g * g;
    let mut gim_data: Vec<P> = Vec::new();
    while gim_data.len() < total
        invariant
            gim_data.len() <= total,
            forall|i: int| 0 <= i < gim_data.len() ==> gim_data@[i] == background,
        decreases total - gim_data.len(),
    {
        gim_data.push(background);
    }
    proof {
        assert forall|a: int, b: int| 0 <= a < g && 0 <= b < g implies #[trigger] gim_data@[at(
            a,
            b,
            gg,
        )] == background by {
            lemma_at_bounds(a, b, gg);
        }
    }
    let mut pixel_color = background;
    let mut errors: usize = 0;
    let mut k: usize = 0;
    let mut y: usize = 0;
    while y < g
        invariant
            g == size.0,
            gg == g,
            g > 1,
            total == g * g,
            samples.len() == total,
            y <= g,
            k == y * g,
            gim_data.len() == total,
            errors == missing_samples(samples@, k as int),
            errors <= k,
            pixel_color == color_after(samples@, background, k - 1),
            forall|a: int, b: int|
                0 <= a < g && 0 <= b < g ==> #[trigger] gim_data@[at(a, b, gg)] == {
                    let w = last_writer(a, b, gg, k as int);
                    if w < 0 {
                        background
                    } else {
                        color_after(samples@, background, w)
                    }
                },
        decreases g - y,
    {
        let mut x: usize = 0;
        while x < g
            invariant
                g == size.0,
                gg == g,
                g > 1,
                total == g * g,
                samples.len() == total,
                y < g,
                x <= g,
                k == y * g + x,
                gim_data.len() == total,
                errors == missing_samples(samples@, k as int),
                errors <= k,
                pixel_color == color_after(samples@, background, k - 1),
                forall|a: int, b: int|
                    0 <= a < g && 0 <= b < g ==> #[trigger] gim_data@[at(a, b, gg)] == {
                        let w = last_writer(a, b, gg, k as int);
                        if w < 0 {
                            background
                        } else {
                            color_after(samples@, background, w)
                        }
                    },
            decreases g - x,
        {
            proof {
                lemma_at_bounds(x as int, y as int, gg);
            }
            match samples[k] {
                Some(color) => {
                    pixel_color = color;
                },
                None => {
                    errors = errors + 1;
                },
            }
            write_pixel(&mut gim_data, x, y, g, pixel_color);
            proof {
                lemma_at_div_mod(x as int, y as int, gg);
                assert forall|a: int, b: int| 0 <= a < g && 0 <= b < g implies #[trigger] gim_data@[at(
                    a,
                    b,
                    gg,
                )] == {
                    let w = last_writer(a, b, gg, k + 1);
                    if w < 0 {
                        background
                    } else {
                        color_after(samples@, background, w)
                    }
                } by {
                    assert(last_writer(a, b, gg, k + 1) == if writes_to(
                        x as int,
                        y as int,
                        a,
                        b,
                        gg,
                    ) {
                        k as int
                    } else {
                        last_writer(a, b, gg, k as int)
                    });
                }
            }
            k = k + 1;
            x = x + 1;
        }
        assert(k == (y + 1) * g) by (nonlinear_arith)
            requires
                k == y * g + x,
                x == g,
        ;
        y = y + 1;
    }
    (Image { width: size.0, height: size.1, pixels: gim_data }, errors)
}

proof fn lemma_last_writer_mirrored(a: int, b: int, a2: int, b2: int, g: int, k: int)
    requires
        forall|x: int, y: int| #[trigger] writes_to(x, y, a, b, g) == writes_to(x, y, a2, b2, g),
    ensures
        last_writer(a, b, g, k) == last_writer(a2, b2, g, k),
    decreases k,
{
    if k > 0 && g > 0 {
        assert(writes_to((k - 1) % g, (k - 1) / g, a, b, g) == writes_to(
            (k - 1) % g,
            (k - 1) / g,
            a2,
            b2,
            g,
        ));
        lemma_last_writer_mirrored(a, b, a2, b2, g, k - 1);
    }
}

/// The geometry image's border is seamless: a pixel on the left or right
/// border has the colour of its mirror image across the horizontal middle, and
/// a pixel on the top or bottom border the colour of its mirror image across
/// the vertical middle, whatever the samples were.
pub proof fn lemma_border_is_seamless<P>(
    samples: Seq<Option<P>>,
    background: P,
    g: int,
    a: int,
    b: int,
)
    requires
        g > 1,
        0 <= a < g,
        0 <= b < g,
    ensures
        (a == 0 || a == g - 1) ==> final_pixel(samples, background, g, a, b) == final_pixel(
            samples,
            background,
            g,
            a,
            g - 1 - b,
        ),
        (b == 0 || b == g - 1) ==> final_pixel(samples, background, g, a, b) == final_pixel(
            samples,
            background,
            g,
            g - 1 - a,
            b,
        ),
{
    if a == 0 || a == g - 1 {
        assert forall|x: int, y: int| #[trigger]
            writes_to(x, y, a, b, g) == writes_to(x, y, a, g - 1 - b, g) by {}
        lemma_last_writer_mirrored(a, b, a, g - 1 - b, g, g * g);
    }
    if b == 0 || b == g - 1 {
        assert forall|x: int, y: int| #[trigger]
            writes_to(x, y, a, b, g) == writes_to(x, y, g - 1 - a, b, g) by {}
        lemma_last_writer_mirrored(a, b, g - 1 - a, b, g, g * g);
    }
}

proof fn lemma_last_writer_interior(a: int, b: int, g: int, k: int)
    requires
        0 < a < g - 1,
        0 < b < g - 1,
        k >= 0,
    ensures
        last_writer(a, b, g, k) == if k > at(a, b, g) {
            at(a, b, g)
        } else {
            -1
        },
    decreases k,
{
    if k > 0 {
        let p = k - 1;
        let x = p % g;
        let y = p / g;
        vstd::arithmetic::div_mod::lemma_fundamental_div_mod(p, g);
        assert(0 <= x < g) by {
            vstd::arithmetic::div_mod::lemma_mod_bound(p, g);
        }
        lemma_at_div_mod(a, b, g);
        assert(p == y * g + x) by {
            vstd::arithmetic::mul::lemma_mul_is_commutative(y, g);
        }
        assert(writes_to(x, y, a, b, g) == (p == at(a, b, g)));
        lemma_last_writer_interior(a, b, g, k - 1);
    }
}

/// A pixel off the border is written by itself alone: it shows the colour in
/// hand when it was sampled (its own sample, or across a hole the colour
/// before it).
pub proof fn lemma_interior_pixel<P>(samples: Seq<Option<P>>, background: P, g: int, a: int, b: int)
    requires
        0 < a < g - 1,
        0 < b < g - 1,
    ensures
        final_pixel(samples, background, g, a, b) == color_after(samples, background, at(a, b, g)),
{
    lemma_at_bounds(a, b, g);
    lemma_last_writer_interior(a, b, g, g * g);
}

proof fn lemma_row_contains(es: Seq<Edge>, n: int, i: int, m: int, j: int)
    requires
        0 <= i < 0x1_0000_0000,
        0 <= j < 0x1_0000_0000,
        0 <= m <= 0x1_0000_0000,
    ensures
        adjacency_row(es, n, i, m).contains(Edge { x: i as u32, y: j as u32 }) <==> (j < m
            && weighted(es, n, i, j)),
        forall|e: Edge| #[trigger] adjacency_row(es, n, i, m).contains(e) ==> e.x == i as u32,
    decreases m,
{
    if m > 0 {
        lemma_row_contains(es, n, i, m - 1, j);
        let prev = adjacency_row(es, n, i, m - 1);
        let e = Edge { x: i as u32, y: j as u32 };
        if weighted(es, n, i, m - 1) {
            let cur = prev.push(Edge { x: i as u32, y: (m - 1) as u32 });
            assert(cur.last() == Edge { x: i as u32, y: (m - 1) as u32 });
            if prev.contains(e) {
                let k = choose|k: int| 0 <= k < prev.len() && prev[k] == e;
                assert(cur[k] == e);
            }
            if cur.contains(e) && !prev.contains(e) {
                let k = choose|k: int| 0 <= k < cur.len() && cur[k] == e;
                assert(k == prev.len());
            }
            if j == m - 1 {
                assert(cur[prev.len() as int] == e);
            }
            assert forall|f: Edge| #[trigger] cur.contains(f) implies f.x == i as u32 by {
                let k = choose|k: int| 0 <= k < cur.len() && cur[k] == f;
                if k < prev.len() {
                    assert(prev.contains(f)) by {
                        assert(prev[k] == f);
                    }
                }
            }
        }
    }
}

proof fn lemma_rows_contains(es: Seq<Edge>, n: int, r: int, i: int, j: int)
    requires
        0 <= i < 0x1_0000_0000,
        0 <= j < 0x1_0000_0000,
        0 <= r <= 0x1_0000_0000,
        0 <= n <= 0x1_0000_0000,
    ensures
        adjacency_rows(es, n, r).contains(Edge { x: i as u32, y: j as u32 }) <==> (i < r
            && j < n && weighted(es, n, i, j)),
    decreases r,
{
    if r > 0 {
        lemma_rows_contains(es, n, r - 1, i, j);
        let prev = adjacency_rows(es, n, r - 1);
        let row = adjacency_row(es, n, r - 1, n);
        let e = Edge { x: i as u32, y: j as u32 };
        lemma_row_contains(es, n, r - 1, n, j);
        if i == r - 1 {
            lemma_row_contains(es, n, i, n, j);
        }
        let all = prev + row;
        if all.contains(e) {
            let k = choose|k: int| 0 <= k < all.len() && all[k] == e;
            if k < prev.len() {
                assert(prev[k] == e);
            } else {
                assert(row[k - prev.len()] == e);
                assert(row.contains(e));
                assert(e.x == (r - 1) as u32);
            }
        }
        if prev.contains(e) {
            let k = choose|k: int| 0 <= k < prev.len() && prev[k] == e;
            assert(all[k] == e);
        }
        if i == r - 1 && j < n && weighted(es, n, i, j) {
            let k = choose|k: int| 0 <= k < row.len() && row[k] == e;
            assert(all[prev.len() + k] == e);
        }
    }
}

proof fn lemma_edge_key_injective(x: int, y: int, a: int, b: int, n: int)
    requires
        0 <= x < n,
        0 <= a < n,
        0 <= y,
        0 <= b,
        edge_key(x, y, n) == edge_key(a, b, n),
    ensures
        x == a && y == b,
{
    assert(y == b) by (nonlinear_arith)
        requires
            0 <= x < n,
            0 <= a < n,
            y * n + x == b * n + a,
            0 <= y,
            0 <= b,
    ;
}

proof fn lemma_edge_endpoints(ts: Seq<Triangle>, n: int)
    requires
        forall|k: int| 0 <= k < ts.len() ==> (#[trigger] ts[k]).x < n && ts[k].y < n && ts[k].z < n,
    ensures
        forall|k: int| 0 <= k < edges_of(ts).len() ==> (#[trigger] edges_of(ts)[k]).x < n
            && edges_of(ts)[k].y < n,
    decreases ts.len(),
{
    if ts.len() > 0 {
        lemma_edge_endpoints(ts.drop_last(), n);
        lemma_edges_of_len(ts.drop_last());
        let t = ts.last();
        assert(t == ts[ts.len() - 1]);
        let es = edges_of(ts);
        let prev = edges_of(ts.drop_last());
        assert forall|k: int| 0 <= k < es.len() implies (#[trigger] es[k]).x < n && es[k].y < n by {
            if k < prev.len() {
                assert(es[k] == prev[k]);
            } else {
                assert(es[k] == edges_of_triangle(t)[k - prev.len()]);
            }
        }
    }
}

/// For a mesh whose vertex indices are all below `n`, the adjacency that
/// `vertex_adjacency` lists is symmetric: `(i, j)` is listed exactly when
/// `(j, i)` is.
pub proof fn lemma_adjacency_symmetric(indices: Seq<u32>, n: int, i: int, j: int)
    requires
        n <= 0x1_0000_0000,
        forall|k: int| 0 <= k < indices.len() ==> #[trigger] indices[k] < n,
        0 <= i < n,
        0 <= j < n,
    ensures
        adjacency_rows(edges_of(triangles_of(indices)), n, n).contains(
            Edge { x: i as u32, y: j as u32 },
        ) == adjacency_rows(edges_of(triangles_of(indices)), n, n).contains(
            Edge { x: j as u32, y: i as u32 },
        ),
{
    let ts = triangles_of(indices);
    assert forall|k: int| 0 <= k < ts.len() implies (#[trigger] ts[k]).x < n && ts[k].y < n
        && ts[k].z < n by {
        assert(indices[3 * k] < n);
        assert(indices[3 * k + 1] < n);
        assert(indices[3 * k + 2] < n);
    }
    lemma_edge_endpoints(ts, n);
    let es = edges_of(ts);
    lemma_rows_contains(es, n, n, i, j);
    lemma_rows_contains(es, n, n, j, i);
    if weighted(es, n, i, j) {
        let k = choose|k: int|
            0 <= k < es.len() && (edge_key(es[k].x as int, es[k].y as int, n) == edge_key(j, i, n)
                || edge_key(es[k].y as int, es[k].x as int, n) == edge_key(j, i, n));
        if edge_key(es[k].x as int, es[k].y as int, n) == edge_key(j, i, n) {
            lemma_edge_key_injective(es[k].x as int, es[k].y as int, j, i, n);
            assert(edge_key(es[k].y as int, es[k].x as int, n) == edge_key(i, j, n));
        } else {
            lemma_edge_key_injective(es[k].y as int, es[k].x as int, j, i, n);
            assert(edge_key(es[k].x as int, es[k].y as int, n) == edge_key(i, j, n));
        }
        assert(weighted(es, n, j, i));
    }
    if weighted(es, n, j, i) {
        let k = choose|k: int|
            0 <= k < es.len() && (edge_key(es[k].x as int, es[k].y as int, n) == edge_key(i, j, n)
                || edge_key(es[k].y as int, es[k].x as int, n) == edge_key(i, j, n));
        if edge_key(es[k].x as int, es[k].y as int, n) == edge_key(i, j, n) {
            lemma_edge_key_injective(es[k].x as int, es[k].y as int, i, j, n);
            assert(edge_key(es[k].y as int, es[k].x as int, n) == edge_key(j, i, n));
        } else {
            lemma_edge_key_injective(es[k].y as int, es[k].x as int, i, j, n);
            assert(edge_key(es[k].x as int, es[k].y as int, n) == edge_key(j, i, n));
        }
        assert(weighted(es, n, i, j));
    }
}

} // verus!
