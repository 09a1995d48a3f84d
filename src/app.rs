//! The application shell's decisions: what an input asks for, and which
//! fullscreen mode a request leads to.

use vstd::prelude::*;

verus! {

/// What to do after an input.
#[derive(Clone, Copy, Debug, PartialEq, Eq, Structural)]
pub enum Action {
    /// Keep running.
    Continue,
    /// Change the window's fullscreen state.
    Fullscreen(Fullscreen),
    /// Shut down.
    Quit,
}

/// Requested changes of the window's fullscreen state.
#[derive(Clone, Copy, Debug, PartialEq, Eq, Structural)]
pub enum Fullscreen {
    /// Switch to fullscreen.
    On,
    /// Return to a window.
    Off,
    /// Switch between the two.
    Toggle,
}

/// The fullscreen state of a window.
#[derive(Clone, Copy, Debug, PartialEq, Eq, Structural)]
pub enum FullscreenMode {
    /// A window.
    Off,
    /// Fullscreen at the display's own mode.
    True,
    /// Borderless fullscreen over the desktop.
    Desktop,
}

/// The state a request leads to from `current`: switching on keeps desktop
/// fullscreen if the window is in it and otherwise prefers true fullscreen;
/// toggling leaves any fullscreen for a window, and a window for true fullscreen.
pub open spec fn fullscreen_target(f: Fullscreen, current: FullscreenMode) -> FullscreenMode {
    match f {
        Fullscreen::On => if current == FullscreenMode::Desktop {
            FullscreenMode::Desktop
        } else {
            FullscreenMode::True
        },
        Fullscreen::Off => FullscreenMode::Off,
        Fullscreen::Toggle => if current == FullscreenMode::Off {
            FullscreenMode::True
        } else {
            FullscreenMode::Off
        },
    }
}

/// The fullscreen state that request `f` leads to from `current`.
pub fn next_fullscreen(f: Fullscreen, current: FullscreenMode) -> (r: FullscreenMode)
    ensures
        r == fullscreen_target(f, current),
{
    match f {
        Fullscreen::On => if current == FullscreenMode::Desktop {
            FullscreenMode::Desktop
        } else {
            FullscreenMode::True
        },
        Fullscreen::Off => FullscreenMode::Off,
        Fullscreen::Toggle => match current {
            FullscreenMode::True => FullscreenMode::Off,
            FullscreenMode::Desktop => FullscreenMode::Off,
            FullscreenMode::Off => FullscreenMode::True,
        },
    }
}

/// An application: its state, its root widget, and the title of the message box
/// that errors are shown in, if they are to be shown.
#[derive(Debug)]
pub struct App<W, S> {
    state: S,
    root_widget: W,
    error_message_box: Option<&'static str>,
}

impl<W, S> App<W, S> {
    pub closed spec fn spec_state(&self) -> S {
        self.state
    }

    pub closed spec fn spec_root_widget(&self) -> W {
        self.root_widget
    }

    pub closed spec fn spec_error_message_box(&self) -> Option<&'static str> {
        self.error_message_box
    }

    /// An application with the given state and root widget, showing no error box.
    pub fn new(state: S, root_widget: W) -> (a: Self)
        ensures
            a.spec_state() == state,
            a.spec_root_widget() == root_widget,
            a.spec_error_message_box() is None,
    {
        App { state, root_widget, error_message_box: None }
    }

    /// The same application, showing errors in a message box with the given title.
    pub fn with_error_message_box(self, window_title: &'static str) -> (a: Self)
        ensures
            a.spec_state() == self.spec_state(),
            a.spec_root_widget() == self.spec_root_widget(),
            a.spec_error_message_box() == Some(window_title),
    {
        App { error_message_box: Some(window_title), ..self }
    }

    /// The title of the error message box, if errors are to be shown in one.
    pub fn error_message_box(&self) -> (r: Option<&'static str>)
        ensures
            r == self.spec_error_message_box(),
    {
        self.error_message_box
    }

    /// The state and the root widget, to be run.
    pub fn into_parts(self) -> (r: (S, W))
        ensures
            r == (self.spec_state(), self.spec_root_widget()),
    {
        (self.state, self.root_widget)
    }
}

} // verus!
