//! Deduplicates window visibility notifications so image caches are released
//! once per occlusion and rebuilt only after the window is visible again.

use vstd::prelude::*;

verus! {

/// The memory transition associated with a native visibility notification.
#[derive(Clone, Copy, Debug, PartialEq, Eq, Structural)]
pub enum VisibilityChange {
    Unchanged,
    Release,
    Restore,
}

/// Remembers whether the window was last seen visible.
pub struct WindowMemoryState {
    visible: bool,
}

impl Default for WindowMemoryState {
    fn default() -> (state: Self)
        ensures
            state.is_visible(),
    {
        WindowMemoryState { visible: true }
    }
}

impl WindowMemoryState {
    pub closed spec fn is_visible(&self) -> bool {
        self.visible
    }

    /// Records a visibility notification: nothing happens when it repeats
    /// the current state; hiding releases memory and showing restores it.
    pub fn update(&mut self, visible: bool) -> (change: VisibilityChange)
        ensures
            final(self).is_visible() == visible,
            change == (if old(self).is_visible() == visible {
                VisibilityChange::Unchanged
            } else if visible {
                VisibilityChange::Restore
            } else {
                VisibilityChange::Release
            }),
    {
        if self.visible == visible {
            return VisibilityChange::Unchanged;
        }
        self.visible = visible;
        if visible {
            VisibilityChange::Restore
        } else {
            VisibilityChange::Release
        }
    }
}

} // verus!
