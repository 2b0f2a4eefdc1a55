use wave_core::engine::{EngineEvent, WaveEngine};

#[test]
fn new_engine_is_idle_on_the_blank_page() {
    let engine = WaveEngine::new();
    assert_eq!(engine.get_url(), "about:blank");
    assert!(!engine.is_loading());
}

#[test]
fn load_url_takes_the_serialised_address() {
    let mut engine = WaveEngine::new();
    engine.dispatch(EngineEvent::LoadUrl("https://Example.com".to_string()));
    assert_eq!(engine.get_url(), "https://example.com/");
    assert!(engine.is_loading());
}

#[test]
fn load_url_tries_the_default_scheme() {
    let mut engine = WaveEngine::new();
    engine.load_url("example.com/path");
    assert_eq!(engine.get_url(), "https://example.com/path");
    assert!(engine.is_loading());
}

#[test]
fn unreadable_address_changes_nothing() {
    let mut engine = WaveEngine::new();
    engine.load_url("");
    assert_eq!(engine.get_url(), "about:blank");
    assert!(!engine.is_loading());
    engine.load_url("https://first.example/");
    engine.load_url(" ");
    assert_eq!(engine.get_url(), "https://first.example/");
    assert!(engine.is_loading());
}

#[test]
fn other_events_leave_the_address() {
    let mut engine = WaveEngine::new();
    engine.load_url("about:home");
    assert_eq!(engine.get_url(), "about:home");
    for event in [
        EngineEvent::Resize { width: 800, height: 600 },
        EngineEvent::InputClick { x: 3, y: 4 },
        EngineEvent::InputKey { keycode: 13 },
        EngineEvent::Back,
        EngineEvent::Forward,
        EngineEvent::Refresh,
        EngineEvent::Stop,
    ] {
        engine.dispatch(event);
        assert_eq!(engine.get_url(), "about:home");
        assert!(engine.is_loading());
    }
    engine.resize(1, 1);
    assert_eq!(engine.get_url(), "about:home");
}

#[test]
fn navigate_prefers_the_address_as_given() {
    let mut engine = WaveEngine::new();
    engine.navigate(Some("a:1".to_string()), Some("b:2".to_string()));
    assert_eq!(engine.get_url(), "a:1");
    engine.navigate(None, Some("b:2".to_string()));
    assert_eq!(engine.get_url(), "b:2");
    engine.navigate(None, None);
    assert_eq!(engine.get_url(), "b:2");
    assert!(engine.is_loading());
}
