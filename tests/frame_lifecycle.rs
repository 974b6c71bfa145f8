use mycraft::frame::{
    choose_surface_format, create_surface_config, EventAction, FrameEvent, FrameLifecycle,
    FrameState, RenderStep, TeardownStep, WindowEventKind,
};
use wgpu::{CompositeAlphaMode, PresentMode, TextureFormat};

fn initialized(width: u32, height: u32) -> FrameLifecycle {
    let mut f = FrameLifecycle::new();
    let config = create_surface_config(
        &vec![TextureFormat::Bgra8Unorm, TextureFormat::Bgra8UnormSrgb],
        width,
        height,
    )
    .unwrap();
    assert!(f.initialized(config));
    f
}

#[test]
fn resize_updates_surface_configuration() {
    let mut f = initialized(800, 600);
    assert!(f.resize(1024, 768));
    let config = f.surface_config().unwrap();
    assert_eq!(config.width, 1024);
    assert_eq!(config.height, 768);
    assert_eq!(config.format, TextureFormat::Bgra8UnormSrgb);
    assert_eq!(f.state(), FrameState::Initialized);
}

#[test]
fn resize_before_initialization_does_nothing() {
    let mut f = FrameLifecycle::new();
    assert!(!f.resize(1024, 768));
    assert!(f.surface_config().is_none());
    assert!(!f.is_initialized());
}

#[test]
fn srgb_format_is_preferred() {
    let formats = vec![TextureFormat::Rgba8Unorm, TextureFormat::Rgba8UnormSrgb, TextureFormat::Bgra8UnormSrgb];
    assert_eq!(choose_surface_format(&formats), Some(TextureFormat::Rgba8UnormSrgb));
    let formats = vec![TextureFormat::Rgba16Float, TextureFormat::Bgra8Unorm];
    assert_eq!(choose_surface_format(&formats), Some(TextureFormat::Rgba16Float));
    assert_eq!(choose_surface_format(&vec![]), None);
}

#[test]
fn surface_config_choices() {
    let config = create_surface_config(&vec![TextureFormat::Bgra8Unorm], 800, 600).unwrap();
    assert_eq!(config.format, TextureFormat::Bgra8Unorm);
    assert_eq!(config.present_mode, PresentMode::Fifo);
    assert_eq!(config.alpha_mode, CompositeAlphaMode::Auto);
    assert_eq!(config.desired_maximum_frame_latency, 2);
    assert_eq!((config.width, config.height), (800, 600));
    assert!(create_surface_config(&vec![], 800, 600).is_none());
}

#[test]
fn initialization_happens_once() {
    let mut f = initialized(800, 600);
    let other = create_surface_config(&vec![TextureFormat::Rgba8Unorm], 10, 10).unwrap();
    assert!(!f.initialized(other));
    assert_eq!(f.surface_config().unwrap().width, 800);
}

#[test]
fn failed_initialization_shuts_down() {
    let mut f = FrameLifecycle::new();
    f.initialization_failed();
    assert_eq!(f.state(), FrameState::ShuttingDown);
    assert_eq!(f.on_window_event(WindowEventKind::RedrawRequested, false), EventAction::Ignore);
}

#[test]
fn frame_steps_in_order() {
    let mut f = initialized(800, 600);
    assert_eq!(f.advance(FrameEvent::RedrawRequested), RenderStep::AcquireTexture);
    assert_eq!(f.advance(FrameEvent::TextureAcquired), RenderStep::RenderScene);
    assert_eq!(f.state(), FrameState::FrameAcquired);
    assert_eq!(f.advance(FrameEvent::UiPassEncoded), RenderStep::Idle);
    assert_eq!(f.advance(FrameEvent::ScenePassSubmitted), RenderStep::RenderUi);
    assert_eq!(f.state(), FrameState::FrameRendered);
    assert_eq!(f.advance(FrameEvent::UiPassEncoded), RenderStep::Present);
    assert_eq!(f.state(), FrameState::FramePresented);
    assert_eq!(f.advance(FrameEvent::Presented), RenderStep::Idle);
    assert_eq!(f.state(), FrameState::Initialized);
}

#[test]
fn unavailable_texture_abandons_frame() {
    let mut f = initialized(800, 600);
    assert_eq!(f.advance(FrameEvent::RedrawRequested), RenderStep::AcquireTexture);
    assert_eq!(f.advance(FrameEvent::TextureUnavailable), RenderStep::Idle);
    assert_eq!(f.state(), FrameState::Initialized);
    assert_eq!(f.advance(FrameEvent::RedrawRequested), RenderStep::AcquireTexture);
}

#[test]
fn no_frame_before_initialization() {
    let mut f = FrameLifecycle::new();
    assert_eq!(f.advance(FrameEvent::RedrawRequested), RenderStep::Idle);
    assert_eq!(f.on_window_event(WindowEventKind::RedrawRequested, false), EventAction::Ignore);
}

#[test]
fn window_events_dispatch() {
    let mut f = initialized(800, 600);
    assert_eq!(f.on_window_event(WindowEventKind::Resized { width: 640, height: 480 }, true), EventAction::Ignore);
    assert_eq!(f.surface_config().unwrap().width, 800);
    assert_eq!(
        f.on_window_event(WindowEventKind::Resized { width: 640, height: 480 }, false),
        EventAction::Reconfigure
    );
    assert_eq!(f.surface_config().unwrap().height, 480);
    assert_eq!(f.on_window_event(WindowEventKind::RedrawRequested, false), EventAction::Render);
    assert_eq!(f.on_window_event(WindowEventKind::Other, false), EventAction::Ignore);
    assert_eq!(f.on_window_event(WindowEventKind::CloseRequested, false), EventAction::Exit);
    assert_eq!(f.state(), FrameState::ShuttingDown);
}

#[test]
fn teardown_order() {
    let mut f = initialized(800, 600);
    assert_eq!(
        f.shutdown(),
        vec![TeardownStep::UiRenderer, TeardownStep::SurfaceAndDevice, TeardownStep::Window]
    );
    assert_eq!(f.state(), FrameState::ShuttingDown);
}
