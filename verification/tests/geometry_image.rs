use parametric_renderer::geometry_image::{
    separate_triangle_groups, to_image, vertex_adjacency, Edge, Mesh, Triangle, VertexSigns,
};

fn signs(x: f32, y: f32, z: f32) -> VertexSigns {
    VertexSigns {
        x_nonneg: x >= 0.0,
        x_nonpos: x <= 0.0,
        y_nonneg: y >= 0.0,
        y_nonpos: y <= 0.0,
        z_nonneg: z >= 0.0,
        z_nonpos: z <= 0.0,
    }
}

#[test]
fn triangles_and_edges() {
    let mesh = Mesh { indices: vec![0, 1, 2, 2, 1, 3, 9] };
    assert_eq!(mesh.faces_count(), 2);
    assert_eq!(
        mesh.triangles(),
        vec![Triangle { x: 0, y: 1, z: 2 }, Triangle { x: 2, y: 1, z: 3 }]
    );
    let edges = mesh.edges();
    assert_eq!(edges.len(), 6);
    assert_eq!(edges[0], Edge { x: 0, y: 1 });
    assert_eq!(edges[1], Edge { x: 1, y: 2 });
    assert_eq!(edges[2], Edge { x: 2, y: 0 });
    assert_eq!(edges[5], Edge { x: 3, y: 2 });
}

#[test]
fn adjacency_of_two_triangles() {
    let mesh = Mesh { indices: vec![0, 1, 2, 2, 1, 3] };
    let (degrees, pairs) = vertex_adjacency(&mesh, 4);
    assert_eq!(degrees, vec![2, 3, 3, 2]);
    let expected = vec![
        (0, 1), (0, 2),
        (1, 0), (1, 2), (1, 3),
        (2, 0), (2, 1), (2, 3),
        (3, 1), (3, 2),
    ];
    let got: Vec<(u32, u32)> = pairs.iter().map(|e| (e.x, e.y)).collect();
    assert_eq!(got, expected);
}

#[test]
fn triangle_groups_by_octant() {
    let mesh = Mesh { indices: vec![0, 1, 2, 0, 1, 3] };
    let signs = vec![
        signs(1.0, 1.0, 1.0),
        signs(0.0, 1.0, 1.0),
        signs(1.0, 0.5, 0.0),
        signs(-1.0, -1.0, -1.0),
    ];
    let groups = separate_triangle_groups(&mesh, &signs);
    // The first triangle lies in octant 0 only (z = 0 also touches octant 1).
    assert_eq!(groups.groups[0], vec![Triangle { x: 0, y: 1, z: 2 }, Triangle { x: 0, y: 1, z: 3 }]);
    assert_eq!(groups.groups[1], vec![Triangle { x: 0, y: 1, z: 3 }]);
    for g in 2..8 {
        assert_eq!(groups.groups[g], vec![Triangle { x: 0, y: 1, z: 3 }]);
    }
}

#[test]
fn geometry_image_mirrors_borders() {
    let g = 3u32;
    // Samples in row-major order; pixel (1, 0) is a hole.
    let samples: Vec<Option<u32>> = vec![
        Some(10), None, Some(12),
        Some(20), Some(21), Some(22),
        Some(30), Some(31), Some(32),
    ];
    let (image, errors) = to_image(&samples, (g, g), 0);
    assert_eq!(errors, 1);
    assert_eq!(image.width, 3);
    assert_eq!(image.height, 3);
    // All four corners carry the last corner's colour.
    assert_eq!(image.pixels, vec![32, 10, 32, 20, 21, 22, 32, 31, 32]);
}

#[test]
fn geometry_image_interior() {
    let samples: Vec<Option<u8>> = (0..25u8).map(Some).collect();
    let (image, errors) = to_image(&samples, (5, 5), 0);
    assert_eq!(errors, 0);
    for y in 1..4usize {
        for x in 1..4usize {
            assert_eq!(image.pixels[y * 5 + x], (y * 5 + x) as u8);
        }
    }
    for y in 0..5usize {
        assert_eq!(image.pixels[y * 5], image.pixels[(4 - y) * 5]);
        assert_eq!(image.pixels[y * 5 + 4], image.pixels[(4 - y) * 5 + 4]);
        assert_eq!(image.pixels[y], image.pixels[4 - y]);
        assert_eq!(image.pixels[20 + y], image.pixels[20 + 4 - y]);
    }
}
