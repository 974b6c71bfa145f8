use vstd::prelude::*;

verus! {

/// Whether the immediate-mode UI overlay is shown.
pub trait EguiState {
    /// The visibility flag as a mathematical value.
    spec fn egui_enabled_spec(&self) -> bool;

    /// `true` if the UI should be shown; `false` if it should be hidden.
    fn is_egui_enabled(&self) -> (r: bool)
        ensures
            r == self.egui_enabled_spec(),
    ;

    /// Sets if the UI should be shown.
    fn set_egui_enabled(&mut self, enabled: bool)
        ensures
            final(self).egui_enabled_spec() == enabled,
    ;
}

/// The default implementation of [`EguiState`]: the UI starts visible.
pub struct DefaultEguiState {
    is_egui_enabled: bool,
}

impl DefaultEguiState {
    pub fn new() -> (r: Self)
        ensures
            r.egui_enabled_spec(),
    {
        DefaultEguiState { is_egui_enabled: true }
    }
}

impl EguiState for DefaultEguiState {
    closed spec fn egui_enabled_spec(&self) -> bool {
        self.is_egui_enabled
    }

    fn is_egui_enabled(&self) -> (r: bool) {
        self.is_egui_enabled
    }

    fn set_egui_enabled(&mut self, enabled: bool) {
        self.is_egui_enabled = enabled;
    }
}

/// Whether the UI is shown (the same notion as [`EguiState`], under another name).
pub trait UiState {
    /// The visibility flag as a mathematical value.
    spec fn ui_enabled_spec(&self) -> bool;

    /// `true` if the UI should be shown; `false` if it should be hidden.
    fn is_ui_enabled(&self) -> (r: bool)
        ensures
            r == self.ui_enabled_spec(),
    ;

    /// Sets if the UI should be shown.
    fn set_ui_enabled(&mut self, enabled: bool)
        ensures
            final(self).ui_enabled_spec() == enabled,
    ;
}

/// The default implementation of [`UiState`]: the UI starts visible.
pub struct DefaultUiState {
    is_ui_enabled: bool,
}

impl DefaultUiState {
    pub fn new() -> (r: Self)
        ensures
            r.ui_enabled_spec(),
    {
        DefaultUiState { is_ui_enabled: true }
    }
}

impl UiState for DefaultUiState {
    closed spec fn ui_enabled_spec(&self) -> bool {
        self.is_ui_enabled
    }

    fn is_ui_enabled(&self) -> (r: bool) {
        self.is_ui_enabled
    }

    fn set_ui_enabled(&mut self, enabled: bool) {
        self.is_ui_enabled = enabled;
    }
}

/// The default UI renderer: a window that the backtick key shows and hides.
#[derive(Clone, Copy, Debug, Default)]
pub struct DefaultEguiRenderer;

impl DefaultEguiRenderer {
    /// Applies this frame's press of the toggle key, if any, to the UI state,
    /// and tells whether the window is drawn this frame.
    pub fn update_visibility<S: EguiState + ?Sized>(&mut self, toggle_pressed: bool, ui_state: &mut S) -> (show: bool)
        ensures
            final(ui_state).egui_enabled_spec() == (toggle_pressed != old(ui_state).egui_enabled_spec()),
            show == final(ui_state).egui_enabled_spec(),
    {
        if toggle_pressed {
            let enabled = ui_state.is_egui_enabled();
            ui_state.set_egui_enabled(!enabled);
        }
        ui_state.is_egui_enabled()
    }
}

/// The default UI renderer over [`UiState`]: a window that the backtick key
/// shows and hides.
#[derive(Clone, Copy, Debug, Default)]
pub struct DefaultUiRenderer;

impl DefaultUiRenderer {
    /// Applies this frame's press of the toggle key, if any, to the UI state,
    /// and tells whether the window is drawn this frame.
    pub fn update_visibility<S: UiState + ?Sized>(&mut self, toggle_pressed: bool, ui_state: &mut S) -> (show: bool)
        ensures
            final(ui_state).ui_enabled_spec() == (toggle_pressed != old(ui_state).ui_enabled_spec()),
            show == final(ui_state).ui_enabled_spec(),
    {
        if toggle_pressed {
            let enabled = ui_state.is_ui_enabled();
            ui_state.set_ui_enabled(!enabled);
        }
        ui_state.is_ui_enabled()
    }
}

} // verus!
