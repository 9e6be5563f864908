//! The flags shared between the tray icon's thread and the window.
use vstd::prelude::*;
use std::sync::Arc;
use std::sync::atomic::AtomicBool;
use std::sync::atomic::Ordering;

verus! {

/// Requests from the tray to the window, and whether the window is shown.
#[derive(Clone)]
pub struct TrayState {
    pub show_requested: Arc<AtomicBool>,
    pub hide_requested: Arc<AtomicBool>,
    pub quit_requested: Arc<AtomicBool>,
    pub window_visible: Arc<AtomicBool>,
}

impl TrayState {
    /// No request pending; the window is shown.
    pub fn new() -> Self {
        TrayState {
            show_requested: Arc::new(AtomicBool::new(false)),
            hide_requested: Arc::new(AtomicBool::new(false)),
            quit_requested: Arc::new(AtomicBool::new(false)),
            window_visible: Arc::new(AtomicBool::new(true)),
        }
    }

    /// A click on the tray icon: hides a shown window, shows a hidden one.
    /// Returns whether the window was shown before.
    pub fn toggle_window(&self) -> bool {
        let currently_visible = self.window_visible.load(Ordering::Acquire);
        if currently_visible {
            self.window_visible.store(false, Ordering::Release);
            self.hide_requested.store(true, Ordering::Release);
        } else {
            self.window_visible.store(true, Ordering::Release);
            self.show_requested.store(true, Ordering::Release);
        }
        currently_visible
    }

    /// The menu's "Show": marks the window shown and asks to show it.
    pub fn request_show(&self) {
        self.window_visible.store(true, Ordering::Release);
        self.show_requested.store(true, Ordering::Release);
    }

    /// The menu's "Quit": asks the application to quit.
    pub fn request_quit(&self) {
        self.quit_requested.store(true, Ordering::Release);
    }
}

} // verus!
