//! The quit-confirmation popup's key dispatch: while the popup is open, a
//! confirmation or the unconditional quit key ends the session, a cancel
//! closes the popup, and every other key does nothing.

use vstd::prelude::*;

verus! {

/// The keys the quit step tells apart.
#[derive(Debug, Clone, Copy, PartialEq, Eq, Structural)]
pub enum InputKey {
    /// `q`: asks to quit, which opens the confirmation popup.
    RequestQuit,
    /// Ctrl-C: quits unconditionally.
    Quit,
    /// `y` or Enter in a popup.
    PopupConfirm,
    /// `n`, Esc or `q` in a popup.
    PopupCancel,
    /// Moves the cursor down.
    Down,
    /// Moves the cursor up.
    Up,
}

/// Whether the session should end and whether the confirmation popup is
/// open.
#[derive(Debug, Clone, Copy, PartialEq, Eq, Structural)]
pub struct QuitState {
    pub should_quit: bool,
    pub quit_confirm_open: bool,
}

impl QuitState {
    /// A running session with the popup closed.
    pub fn new() -> (r: QuitState)
        ensures
            !r.should_quit,
            !r.quit_confirm_open,
    {
        QuitState { should_quit: false, quit_confirm_open: false }
    }

    /// Asking to quit opens the confirmation popup; the session keeps
    /// running.
    pub fn request_quit(self) -> (r: QuitState)
        ensures
            r.quit_confirm_open,
            r.should_quit == self.should_quit,
    {
        QuitState { should_quit: self.should_quit, quit_confirm_open: true }
    }

    /// One key while the popup is open: a confirmation or Ctrl-C quits and
    /// closes the popup, a cancel closes it, any other key changes nothing.
    pub fn handle_quit_confirm_key(self, key: InputKey) -> (r: QuitState)
        ensures
            match key {
                InputKey::PopupConfirm | InputKey::Quit => r.should_quit && !r.quit_confirm_open,
                InputKey::PopupCancel => r.should_quit == self.should_quit && !r.quit_confirm_open,
                _ => r == self,
            },
    {
        match key {
            InputKey::PopupConfirm | InputKey::Quit => QuitState { should_quit: true, quit_confirm_open: false },
            InputKey::PopupCancel => QuitState { should_quit: self.should_quit, quit_confirm_open: false },
            _ => self,
        }
    }
}

} // verus!
