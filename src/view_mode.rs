//! Switching a split between the source view and the compose view.
use vstd::prelude::*;

verus! {

/// How a split shows its buffer.
#[derive(Clone, Copy, Debug, PartialEq, Eq, Structural)]
pub enum ViewMode {
    /// The text as it is, with the user's wrap and line-number settings.
    Source,
    /// The text laid out for prose by a view transform, without line numbers.
    Compose,
}

/// The view settings of one split.
#[derive(Clone, Copy, Debug, PartialEq, Eq, Structural)]
pub struct SplitViewState {
    pub view_mode: ViewMode,
    pub line_wrap_enabled: bool,
    pub show_line_numbers: bool,
    /// The width that compose mode lays text out in, if set.
    pub compose_width: Option<u16>,
    /// Whether a view transform is installed.
    pub has_view_transform: bool,
}

/// The mode that a toggle switches to from `current` (a split without settings
/// counts as being in source mode).
pub open spec fn toggled_mode(current: Option<ViewMode>) -> ViewMode {
    match current {
        Some(ViewMode::Compose) => ViewMode::Source,
        _ => ViewMode::Compose,
    }
}

/// The settings of a split switched to `mode`: compose mode turns built-in wrapping
/// and line numbers off (the compose layout wraps by itself); source mode drops the
/// compose width and view transform and restores the user's defaults.
pub open spec fn with_mode(vs: SplitViewState, mode: ViewMode, default_wrap: bool, default_line_numbers: bool) -> SplitViewState {
    match mode {
        ViewMode::Compose => SplitViewState {
            view_mode: mode,
            line_wrap_enabled: false,
            show_line_numbers: false,
            ..vs
        },
        ViewMode::Source => SplitViewState {
            view_mode: mode,
            line_wrap_enabled: default_wrap,
            show_line_numbers: default_line_numbers,
            compose_width: None,
            has_view_transform: false,
        },
    }
}

/// Toggles the active split between compose and source mode, given the user's
/// default wrap and line-number settings. Returns the mode switched to; a split
/// without settings is left as it is.
pub fn handle_toggle_compose_mode(
    view: &mut Option<SplitViewState>,
    default_wrap: bool,
    default_line_numbers: bool,
) -> (r: ViewMode)
    ensures
        r == toggled_mode(
            match *old(view) {
                Some(vs) => Some(vs.view_mode),
                None => None,
            },
        ),
        *final(view) == match *old(view) {
            Some(vs) => Some(with_mode(vs, r, default_wrap, default_line_numbers)),
            None => None,
        },
{
    let current = match view {
        Some(vs) => vs.view_mode,
        None => ViewMode::Source,
    };
    let mode = match current {
        ViewMode::Compose => ViewMode::Source,
        _ => ViewMode::Compose,
    };
    if let Some(vs) = view {
        vs.view_mode = mode;
        vs.line_wrap_enabled = match mode {
            ViewMode::Compose => false,
            ViewMode::Source => default_wrap,
        };
        match mode {
            ViewMode::Compose => {
                vs.show_line_numbers = false;
            },
            ViewMode::Source => {
                vs.compose_width = None;
                vs.has_view_transform = false;
                vs.show_line_numbers = default_line_numbers;
            },
        }
    }
    mode
}

} // verus!
