use parametric_renderer::frame::{exits_after, plan_frame, FramePlan, RenderOutcome};
use parametric_renderer::input::{ElementState, WindowInputCollector};
use parametric_renderer::models::{reconcile_keys, update_models};

fn strings(v: &[&str]) -> Vec<String> {
    v.iter().map(|s| s.to_string()).collect()
}

#[test]
fn update_models_sets_changed_appends_and_truncates() {
    let mut models = vec![1, 2, 3];
    update_models(&mut models, &vec![1, 5, 3, 7, 8], &vec![true, false, true]);
    assert_eq!(models, vec![1, 5, 3, 7, 8]);

    let mut models = vec![1, 2, 3, 4];
    update_models(&mut models, &vec![9, 2], &vec![false, true]);
    assert_eq!(models, vec![9, 2]);

    // A position marked unchanged is left as it is.
    let mut models = vec![1, 2];
    update_models(&mut models, &vec![10, 20], &vec![true, false]);
    assert_eq!(models, vec![1, 20]);
}

#[test]
fn reconcile_keeps_outputs_by_key() {
    let old = strings(&["a", "b", "c"]);
    let new = strings(&["c", "d", "a"]);
    assert_eq!(reconcile_keys(&old, &new), vec![Some(2), None, Some(0)]);
    assert_eq!(reconcile_keys(&vec![], &new), vec![None, None, None]);
    assert!(reconcile_keys(&old, &vec![]).is_empty());
}

#[test]
fn frame_plan_follows_input() {
    let mut collector = WindowInputCollector::new();
    collector.handle_keyboard_input(ElementState::Pressed, 25, "p".to_string());
    collector.handle_resize(800, 600);
    let frame = collector.step();
    assert_eq!(
        plan_frame(&frame, false, 25),
        FramePlan::Render { dump_profile: true, resize: Some((800, 600)) }
    );
    assert_eq!(plan_frame(&frame, true, 25), FramePlan::Exit);

    let frame = collector.step();
    assert_eq!(
        plan_frame(&frame, false, 25),
        FramePlan::Render { dump_profile: false, resize: None }
    );

    collector.handle_keyboard_input(ElementState::Pressed, 1, "Escape".to_string());
    assert_eq!(
        plan_frame(&collector.step(), false, 25),
        FramePlan::Render { dump_profile: false, resize: None }
    );
    collector.handle_keyboard_input(ElementState::Released, 1, "Escape".to_string());
    assert_eq!(plan_frame(&collector.step(), false, 25), FramePlan::Exit);
}

#[test]
fn only_out_of_memory_stops_after_rendering() {
    assert!(exits_after(RenderOutcome::OutOfMemory));
    for outcome in [
        RenderOutcome::NoRenderer,
        RenderOutcome::Presented,
        RenderOutcome::SurfaceLost,
        RenderOutcome::OtherError,
    ] {
        assert!(!exits_after(outcome));
    }
}
