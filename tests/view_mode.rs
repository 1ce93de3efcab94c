use fresh::view_mode::{handle_toggle_compose_mode, SplitViewState, ViewMode};

fn source_state() -> SplitViewState {
    SplitViewState {
        view_mode: ViewMode::Source,
        line_wrap_enabled: true,
        show_line_numbers: true,
        compose_width: None,
        has_view_transform: false,
    }
}

#[test]
fn toggling_source_enters_compose_without_wrap_or_numbers() {
    let mut view = Some(source_state());
    assert_eq!(handle_toggle_compose_mode(&mut view, true, true), ViewMode::Compose);
    let vs = view.unwrap();
    assert_eq!(vs.view_mode, ViewMode::Compose);
    assert!(!vs.line_wrap_enabled);
    assert!(!vs.show_line_numbers);
}

#[test]
fn toggling_compose_restores_defaults_and_drops_layout() {
    let mut view = Some(SplitViewState {
        view_mode: ViewMode::Compose,
        line_wrap_enabled: false,
        show_line_numbers: false,
        compose_width: Some(80),
        has_view_transform: true,
    });
    assert_eq!(handle_toggle_compose_mode(&mut view, false, true), ViewMode::Source);
    assert_eq!(
        view,
        Some(SplitViewState {
            view_mode: ViewMode::Source,
            line_wrap_enabled: false,
            show_line_numbers: true,
            compose_width: None,
            has_view_transform: false,
        })
    );
}

#[test]
fn split_without_settings_reports_compose_and_stays_empty() {
    let mut view: Option<SplitViewState> = None;
    assert_eq!(handle_toggle_compose_mode(&mut view, true, true), ViewMode::Compose);
    assert!(view.is_none());
}
