use parametric_renderer::camera::{
    freecam_actions, orbitcam_actions, CachedChosenController, ChosenKind,
};
use parametric_renderer::game::{ProfilerSettings, ShaderId, ShaderInfo};
use parametric_renderer::input::{
    capture_request_at, CursorAction, CursorCaptureRequest, WindowCursorCapture,
};
use parametric_renderer::surface::try_resize;
use parametric_renderer::time::{push_frame_time, FRAME_WINDOW};
use parametric_renderer::wasm_abi::{
    has_error, location_span, WasmCompilationMessageType, WasmSourceLocation,
};

#[test]
fn cursor_capture_transitions() {
    let mut state: WindowCursorCapture<(i32, i32)> = WindowCursorCapture::Free;
    assert_eq!(state.update(WindowCursorCapture::Free), CursorAction::Keep);
    assert_eq!(state.update(WindowCursorCapture::LockedAndHidden((3, 4))), CursorAction::Capture);
    assert_eq!(state, WindowCursorCapture::LockedAndHidden((3, 4)));
    assert_eq!(state.update(WindowCursorCapture::LockedAndHidden((5, 6))), CursorAction::Keep);
    assert_eq!(state.update(WindowCursorCapture::Free), CursorAction::Release((5, 6)));
    assert_eq!(state, WindowCursorCapture::Free);
}

#[test]
fn capture_request_remembers_position() {
    assert_eq!(capture_request_at(CursorCaptureRequest::Free, (1, 2)), WindowCursorCapture::Free);
    assert_eq!(
        capture_request_at(CursorCaptureRequest::LockedAndHidden, (1, 2)),
        WindowCursorCapture::LockedAndHidden((1, 2))
    );
}

#[test]
fn chosen_kind_round_trip() {
    for kind in [ChosenKind::Orbitcam, ChosenKind::Freecam] {
        let cached = CachedChosenController::from(kind);
        assert_eq!(ChosenKind::from(cached), kind);
    }
    assert_eq!(CachedChosenController::from(ChosenKind::Freecam), CachedChosenController::Freecam);
}

#[test]
fn controller_actions() {
    let a = freecam_actions(true, false);
    assert!(a.rotate && !a.pan);
    assert_eq!(a.cursor, CursorCaptureRequest::LockedAndHidden);
    assert_eq!(freecam_actions(false, false).cursor, CursorCaptureRequest::Free);
    let b = orbitcam_actions(true, false, true);
    assert!(b.rotate && b.pan);
    let c = orbitcam_actions(false, false, true);
    assert!(!c.rotate && !c.pan);
    assert_eq!(c.cursor, CursorCaptureRequest::Free);
}

#[test]
fn resize_clamps_and_skips_same_size() {
    let mut size = (800, 600);
    assert_eq!(try_resize(&mut size, (800, 600)), None);
    assert_eq!(try_resize(&mut size, (0, 10)), Some((1, 10)));
    assert_eq!(size, (1, 10));
    assert_eq!(try_resize(&mut size, (0, 10)), None);
}

#[test]
fn frame_window_keeps_last_ten() {
    let mut window: Vec<f32> = Vec::new();
    for i in 0..25 {
        push_frame_time(&mut window, i as f32);
        assert!(window.len() <= FRAME_WINDOW);
    }
    assert_eq!(window, (15..25).map(|i| i as f32).collect::<Vec<_>>());
}

#[test]
fn compilation_messages() {
    assert!(!has_error(&vec![WasmCompilationMessageType::Info, WasmCompilationMessageType::Warning]));
    assert!(has_error(&vec![WasmCompilationMessageType::Info, WasmCompilationMessageType::Error]));
    let loc = WasmSourceLocation { line_number: 1, line_position: 2, offset: 5, length: 7 };
    assert_eq!(location_span(loc), (5, 12));
}

#[test]
fn plain_data() {
    assert!(!ProfilerSettings::default().gpu);
    let id = ShaderId("s".to_string());
    assert_eq!(id.clone(), ShaderId("s".to_string()));
    let info = ShaderInfo { label: "l".to_string(), code: "c".to_string() };
    assert_eq!(info.clone().code, "c");
}
