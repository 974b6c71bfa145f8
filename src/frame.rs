//! The frame lifecycle: which GPU work the event loop does next, decided from
//! the current state and what just happened. The event loop performs the work
//! and reports back.
use vstd::prelude::*;

verus! {

#[verifier::external_type_specification]
#[verifier::external_body]
pub struct ExTextureFormat(wgpu::TextureFormat);

#[verifier::external_type_specification]
pub struct ExPresentMode(wgpu::PresentMode);

#[verifier::external_type_specification]
pub struct ExCompositeAlphaMode(wgpu::CompositeAlphaMode);

/// Whether a texture format is gamma-corrected (sRGB).
pub uninterp spec fn format_is_srgb(f: wgpu::TextureFormat) -> bool;

pub assume_specification[ wgpu::TextureFormat::is_srgb ](f: &wgpu::TextureFormat) -> (r: bool)
    ensures
        r == format_is_srgb(*f),
;

/// The index of the first sRGB format in `formats`, if any.
pub open spec fn first_srgb(formats: Seq<wgpu::TextureFormat>) -> Option<int> {
    if exists|i: int| 0 <= i < formats.len() && format_is_srgb(formats[i]) {
        Some(choose|i: int| 0 <= i < formats.len() && format_is_srgb(formats[i]) && forall|j: int| 0 <= j < i ==> !format_is_srgb(formats[j]))
    } else {
        None
    }
}

/// The surface format to render to: the first sRGB format offered, else the
/// first format offered.
pub open spec fn chosen_format(formats: Seq<wgpu::TextureFormat>) -> wgpu::TextureFormat
    recommends
        formats.len() > 0,
{
    match first_srgb(formats) {
        Some(i) => formats[i],
        None => formats[0],
    }
}

/// How the surface is configured.
#[derive(Clone, Copy, Debug)]
pub struct SurfaceSettings {
    pub format: wgpu::TextureFormat,
    pub present_mode: wgpu::PresentMode,
    pub alpha_mode: wgpu::CompositeAlphaMode,
    pub width: u32,
    pub height: u32,
    pub desired_maximum_frame_latency: u32,
}

/// The format to render to, from the formats the surface supports: the first
/// sRGB one, else the first one. `None` when the surface supports none.
pub fn choose_surface_format(formats: &Vec<wgpu::TextureFormat>) -> (r: Option<wgpu::TextureFormat>)
    ensures
        formats@.len() == 0 <==> r is None,
        formats@.len() > 0 ==> r == Some(chosen_format(formats@)),
{
    let n = formats.len();
    let mut i: usize = 0;
    while i < n
        invariant
            n == formats@.len(),
            0 <= i <= n,
            forall|j: int| 0 <= j < i ==> !format_is_srgb(formats@[j]),
        decreases n - i,
    {
        if formats[i].is_srgb() {
            proof {
                let k = choose|k: int|
                    0 <= k < formats@.len() && format_is_srgb(formats@[k]) && forall|j: int|
                        0 <= j < k ==> !format_is_srgb(formats@[j]);
                assert(k == i) by {
                    if k < i {
                    } else if k > i {
                    }
                }
            }
            return Some(formats[i]);
        }
        i = i + 1;
    }
    if n == 0 {
        return None;
    }
    Some(formats[0])
}

/// The surface configuration for a surface of the given size that supports
/// `formats`: the chosen format, first-in-first-out presentation, automatic
/// alpha compositing and at most two frames of latency. `None` when the
/// surface supports no format.
pub fn create_surface_config(formats: &Vec<wgpu::TextureFormat>, width: u32, height: u32) -> (r: Option<
    SurfaceSettings,
>)
    ensures
        formats@.len() == 0 <==> r is None,
        r matches Some(s) ==> s == (SurfaceSettings {
            format: chosen_format(formats@),
            present_mode: wgpu::PresentMode::Fifo,
            alpha_mode: wgpu::CompositeAlphaMode::Auto,
            width,
            height,
            desired_maximum_frame_latency: 2,
        }),
{
    match choose_surface_format(formats) {
        None => None,
        Some(format) => Some(
            SurfaceSettings {
                format,
                present_mode: wgpu::PresentMode::Fifo,
                alpha_mode: wgpu::CompositeAlphaMode::Auto,
                width,
                height,
                desired_maximum_frame_latency: 2,
            },
        ),
    }
}

/// Where the frame manager stands.
#[derive(Clone, Copy, Debug, PartialEq, Eq, Structural)]
pub enum FrameState {
    Uninitialized,
    Initialized,
    FrameAcquired,
    FrameRendered,
    FramePresented,
    ShuttingDown,
}

/// What happened, as reported by the event loop.
#[derive(Clone, Copy, Debug, PartialEq, Eq, Structural)]
pub enum FrameEvent {
    RedrawRequested,
    TextureAcquired,
    TextureUnavailable,
    ScenePassSubmitted,
    UiPassEncoded,
    Presented,
}

/// What the event loop does next within a frame.
#[derive(Clone, Copy, Debug, PartialEq, Eq, Structural)]
pub enum RenderStep {
    /// Acquire the next surface texture.
    AcquireTexture,
    /// Clear the texture in a scene pass and submit it.
    RenderScene,
    /// Draw the UI over the same texture, loading what is there.
    RenderUi,
    /// Notify the window, then present the texture.
    Present,
    /// Nothing more this frame.
    Idle,
}

/// A window event, reduced to what the frame manager decides on.
#[derive(Clone, Copy, Debug, PartialEq, Eq, Structural)]
pub enum WindowEventKind {
    Resized { width: u32, height: u32 },
    RedrawRequested,
    CloseRequested,
    Other,
}

/// What the event loop does about a window event.
#[derive(Clone, Copy, Debug, PartialEq, Eq, Structural)]
pub enum EventAction {
    Ignore,
    /// Reconfigure the surface with the current settings.
    Reconfigure,
    /// Request the next redraw, then render a frame.
    Render,
    Exit,
}

/// The GPU objects torn down at shutdown, in the order it happens.
#[derive(Clone, Copy, Debug, PartialEq, Eq, Structural)]
pub enum TeardownStep {
    UiRenderer,
    SurfaceAndDevice,
    Window,
}

/// The next state and step of a frame.
pub open spec fn frame_transition(state: FrameState, event: FrameEvent) -> (FrameState, RenderStep) {
    match (state, event) {
        (FrameState::Initialized, FrameEvent::RedrawRequested) => (FrameState::Initialized, RenderStep::AcquireTexture),
        (FrameState::Initialized, FrameEvent::TextureAcquired) => (FrameState::FrameAcquired, RenderStep::RenderScene),
        (FrameState::Initialized, FrameEvent::TextureUnavailable) => (FrameState::Initialized, RenderStep::Idle),
        (FrameState::FrameAcquired, FrameEvent::ScenePassSubmitted) => (FrameState::FrameRendered, RenderStep::RenderUi),
        (FrameState::FrameRendered, FrameEvent::UiPassEncoded) => (FrameState::FramePresented, RenderStep::Present),
        (FrameState::FramePresented, FrameEvent::Presented) => (FrameState::Initialized, RenderStep::Idle),
        _ => (state, RenderStep::Idle),
    }
}

/// The GPU frame lifecycle: initialization, resizing, the steps of each frame
/// and the order of teardown.
pub struct FrameLifecycle {
    state: FrameState,
    config: Option<SurfaceSettings>,
}

impl FrameLifecycle {
    pub closed spec fn state_spec(&self) -> FrameState {
        self.state
    }

    pub closed spec fn config_spec(&self) -> Option<SurfaceSettings> {
        self.config
    }

    /// The surface is configured exactly in the states between initialization and shutdown.
    pub closed spec fn wf(&self) -> bool {
        match self.state {
            FrameState::Uninitialized => self.config is None,
            FrameState::ShuttingDown => true,
            _ => self.config is Some,
        }
    }

    pub fn new() -> (r: Self)
        ensures
            r.wf(),
            r.state_spec() == FrameState::Uninitialized,
            r.config_spec() is None,
    {
        FrameLifecycle { state: FrameState::Uninitialized, config: None }
    }

    pub fn state(&self) -> (r: FrameState)
        ensures
            r == self.state_spec(),
    {
        self.state
    }

    pub fn is_initialized(&self) -> (r: bool)
        ensures
            r == (self.state_spec() != FrameState::Uninitialized && self.state_spec() != FrameState::ShuttingDown),
    {
        match self.state {
            FrameState::Uninitialized | FrameState::ShuttingDown => false,
            _ => true,
        }
    }

    /// The current surface configuration, once initialized.
    pub fn surface_config(&self) -> (r: Option<SurfaceSettings>)
        ensures
            r == self.config_spec(),
    {
        self.config
    }

    /// Records a successful initialization with the surface configured as
    /// `config`. Does nothing once initialized, or when shutting down.
    pub fn initialized(&mut self, config: SurfaceSettings) -> (r: bool)
        requires
            old(self).wf(),
        ensures
            final(self).wf(),
            r == (old(self).state_spec() == FrameState::Uninitialized),
            r ==> final(self).state_spec() == FrameState::Initialized && final(self).config_spec() == Some(config),
            !r ==> final(self).state_spec() == old(self).state_spec() && final(self).config_spec() == old(
                self,
            ).config_spec(),
    {
        if self.state != FrameState::Uninitialized {
            return false;
        }
        self.state = FrameState::Initialized;
        self.config = Some(config);
        true
    }

    /// Records a failed initialization: the application shuts down.
    pub fn initialization_failed(&mut self)
        requires
            old(self).wf(),
        ensures
            final(self).wf(),
            final(self).state_spec() == FrameState::ShuttingDown,
            final(self).config_spec() == old(self).config_spec(),
    {
        self.state = FrameState::ShuttingDown;
    }

    /// Takes the new window size into the surface configuration. Returns
    /// whether the surface is to be reconfigured; nothing changes before
    /// initialization or during shutdown.
    pub fn resize(&mut self, width: u32, height: u32) -> (r: bool)
        requires
            old(self).wf(),
        ensures
            final(self).wf(),
            final(self).state_spec() == old(self).state_spec(),
            r == (old(self).state_spec() != FrameState::Uninitialized && old(self).state_spec()
                != FrameState::ShuttingDown),
            r ==> final(self).config_spec() == Some(
                SurfaceSettings { width, height, ..old(self).config_spec().unwrap() },
            ),
            !r ==> final(self).config_spec() == old(self).config_spec(),
    {
        if !self.is_initialized() {
            return false;
        }
        match self.config {
            Some(c) => {
                self.config = Some(SurfaceSettings { width, height, ..c });
                true
            },
            None => false,
        }
    }

    /// The next step of the current frame.
    pub fn advance(&mut self, event: FrameEvent) -> (r: RenderStep)
        requires
            old(self).wf(),
        ensures
            final(self).wf(),
            (final(self).state_spec(), r) == frame_transition(old(self).state_spec(), event),
            final(self).config_spec() == old(self).config_spec(),
    {
        match (self.state, event) {
            (FrameState::Initialized, FrameEvent::RedrawRequested) => RenderStep::AcquireTexture,
            (FrameState::Initialized, FrameEvent::TextureAcquired) => {
                self.state = FrameState::FrameAcquired;
                RenderStep::RenderScene
            },
            (FrameState::FrameAcquired, FrameEvent::ScenePassSubmitted) => {
                self.state = FrameState::FrameRendered;
                RenderStep::RenderUi
            },
            (FrameState::FrameRendered, FrameEvent::UiPassEncoded) => {
                self.state = FrameState::FramePresented;
                RenderStep::Present
            },
            (FrameState::FramePresented, FrameEvent::Presented) => {
                self.state = FrameState::Initialized;
                RenderStep::Idle
            },
            _ => RenderStep::Idle,
        }
    }

    /// What to do about a window event. Before initialization, and for an
    /// event the UI consumed, nothing. A resize updates the configuration; a
    /// close request starts the shutdown.
    pub fn on_window_event(&mut self, event: WindowEventKind, consumed_by_ui: bool) -> (r: EventAction)
        requires
            old(self).wf(),
        ensures
            final(self).wf(),
            ({
                let ready = old(self).state_spec() != FrameState::Uninitialized && old(self).state_spec()
                    != FrameState::ShuttingDown;
                if !ready || consumed_by_ui {
                    r == EventAction::Ignore && final(self).state_spec() == old(self).state_spec()
                        && final(self).config_spec() == old(self).config_spec()
                } else {
                    match event {
                        WindowEventKind::Resized { width, height } => r == EventAction::Reconfigure
                            && final(self).state_spec() == old(self).state_spec() && final(self).config_spec()
                            == Some(SurfaceSettings { width, height, ..old(self).config_spec().unwrap() }),
                        WindowEventKind::RedrawRequested => r == EventAction::Render && final(self).state_spec()
                            == old(self).state_spec() && final(self).config_spec() == old(self).config_spec(),
                        WindowEventKind::CloseRequested => r == EventAction::Exit && final(self).state_spec()
                            == FrameState::ShuttingDown && final(self).config_spec() == old(self).config_spec(),
                        WindowEventKind::Other => r == EventAction::Ignore && final(self).state_spec()
                            == old(self).state_spec() && final(self).config_spec() == old(self).config_spec(),
                    }
                }
            }),
    {
        if !self.is_initialized() || consumed_by_ui {
            return EventAction::Ignore;
        }
        match event {
            WindowEventKind::Resized { width, height } => {
                self.resize(width, height);
                EventAction::Reconfigure
            },
            WindowEventKind::RedrawRequested => EventAction::Render,
            WindowEventKind::CloseRequested => {
                self.state = FrameState::ShuttingDown;
                EventAction::Exit
            },
            WindowEventKind::Other => EventAction::Ignore,
        }
    }

    /// Starts the shutdown and gives the teardown order: the UI renderer
    /// first, then the surface with the device and queue, then the window.
    pub fn shutdown(&mut self) -> (r: Vec<TeardownStep>)
        requires
            old(self).wf(),
        ensures
            final(self).wf(),
            final(self).state_spec() == FrameState::ShuttingDown,
            r@ == seq![TeardownStep::UiRenderer, TeardownStep::SurfaceAndDevice, TeardownStep::Window],
    {
        self.state = FrameState::ShuttingDown;
        let mut r: Vec<TeardownStep> = Vec::new();
        r.push(TeardownStep::UiRenderer);
        r.push(TeardownStep::SurfaceAndDevice);
        r.push(TeardownStep::Window);
        r
    }
}

} // verus!
