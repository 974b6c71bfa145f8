use mycraft::ui_state::{
    DefaultEguiRenderer, DefaultEguiState, DefaultUiRenderer, DefaultUiState, EguiState, UiState,
};

#[test]
fn egui_state_starts_enabled_and_toggles() {
    let mut state = DefaultEguiState::new();
    assert!(state.is_egui_enabled());
    state.set_egui_enabled(false);
    assert!(!state.is_egui_enabled());
}

#[test]
fn ui_state_starts_enabled_and_toggles() {
    let mut state = DefaultUiState::new();
    assert!(state.is_ui_enabled());
    state.set_ui_enabled(false);
    assert!(!state.is_ui_enabled());
}

#[test]
fn toggle_key_hides_and_shows_window() {
    let mut renderer = DefaultEguiRenderer;
    let mut state = DefaultEguiState::new();
    assert!(renderer.update_visibility(false, &mut state));
    assert!(!renderer.update_visibility(true, &mut state));
    assert!(!state.is_egui_enabled());
    assert!(!renderer.update_visibility(false, &mut state));
    assert!(renderer.update_visibility(true, &mut state));
    let dynamic: &mut dyn EguiState = &mut state;
    assert!(!renderer.update_visibility(true, dynamic));
}

#[test]
fn ui_renderer_toggle() {
    let mut renderer = DefaultUiRenderer;
    let mut state = DefaultUiState::new();
    assert!(!renderer.update_visibility(true, &mut state));
    assert!(renderer.update_visibility(true, &mut state));
}
