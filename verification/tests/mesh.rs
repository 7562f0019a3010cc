use parametric_renderer::quad_mesh::{cubemap_cube, tesselated_quad};

fn position(grid: (u32, u32), split_count: u32) -> (f32, f32, f32) {
    let q = (split_count + 1) as f32;
    (grid.0 as f32 / q, grid.1 as f32 / q, 0.0)
}

#[test]
fn unit_quad() {
    let (vertices, indices) = tesselated_quad(0);

    assert_eq!(vertices.len(), 4);
    assert_eq!(indices.len(), 6);
    assert_eq!(indices, vec![0, 1, 2, 2, 1, 3]);
    assert_eq!(position(vertices[0], 0), (0.0, 0.0, 0.0));
    assert_eq!(position(vertices[1], 0), (0.0, 1.0, 0.0));
    assert_eq!(position(vertices[2], 0), (1.0, 0.0, 0.0));
    assert_eq!(position(vertices[3], 0), (1.0, 1.0, 0.0));
}

#[test]
fn tesselated_quad_split_once() {
    let (vertices, indices) = tesselated_quad(1);
    assert_eq!(vertices.len(), 9);
    assert_eq!(vertices[4], (1, 1));
    assert_eq!(vertices[5], (1, 2));
    assert_eq!(indices.len(), 24);
    assert_eq!(&indices[0..6], &[0, 1, 3, 3, 1, 4]);
    assert_eq!(&indices[18..24], &[4, 5, 7, 7, 5, 8]);
}

#[test]
fn patch_meshes_have_expected_sizes() {
    // The renderer draws patches of 2, 4, 8, 16 and 32 pixels with size / 2 - 1 splits.
    for size in [2u32, 4, 8, 16, 32] {
        let splits = size / 2 - 1;
        let (vertices, indices) = tesselated_quad(splits);
        let q = (splits + 1) as usize;
        assert_eq!(vertices.len(), (q + 1) * (q + 1));
        assert_eq!(indices.len(), 6 * q * q);
    }
}

#[test]
fn cube_indices_are_sequential() {
    let (corners, indices) = cubemap_cube();
    assert_eq!(corners.len(), 36);
    assert_eq!(corners[0], (-1, 1, -1));
    assert_eq!(corners[35], (1, -1, 1));
    assert_eq!(indices, (0u16..36).collect::<Vec<_>>());
}
