use parametric_renderer::lod::{
    initial_patches, lod_steps, patch_sizes, quad_splits, EncodedPatch, LodStep,
    DOUBLE_NUMBER_OF_ROUNDS, MAX_PATCH_COUNT,
};

#[test]
fn patch_sizes_and_their_quad_splits() {
    let sizes = patch_sizes();
    assert_eq!(sizes, vec![2, 4, 8, 16, 32]);
    assert_eq!(quad_splits(&sizes), vec![0, 1, 3, 7, 15]);
}

#[test]
fn initial_patch_buffer_has_one_patch_per_instance() {
    let buffer = initial_patches(3);
    assert_eq!(buffer.patches_length, 3);
    assert_eq!(buffer.patches_capacity, MAX_PATCH_COUNT);
    assert_eq!(
        buffer.patches,
        vec![
            EncodedPatch { u: 1, v: 1, instance: 0 },
            EncodedPatch { u: 1, v: 1, instance: 1 },
            EncodedPatch { u: 1, v: 1, instance: 2 },
        ]
    );
    assert!(initial_patches(0).patches.is_empty());
}

#[test]
fn lod_schedule_ping_pongs_and_forces_only_the_last_pass() {
    let steps = lod_steps(DOUBLE_NUMBER_OF_ROUNDS);
    assert_eq!(steps.len(), 6 * 4 + 2);
    let mut flag = false;
    let mut passes = Vec::new();
    for step in &steps {
        match step {
            LodStep::ForceRender(f) => flag = *f,
            LodStep::ComputePatches(from) => passes.push((*from, flag)),
            _ => {}
        }
    }
    assert!(!flag);
    assert_eq!(passes.len(), 8);
    for (k, (from, forced)) in passes.iter().enumerate() {
        assert_eq!(*from, k % 2);
        assert_eq!(*forced, k == 7);
    }
    assert_eq!(
        lod_steps(1),
        vec![
            LodStep::ResetPatches(1),
            LodStep::ResetDispatch(1),
            LodStep::ComputePatches(0),
            LodStep::ForceRender(true),
            LodStep::ResetPatches(0),
            LodStep::ResetDispatch(0),
            LodStep::ComputePatches(1),
            LodStep::ForceRender(false),
        ]
    );
    assert!(lod_steps(0).is_empty());
}
