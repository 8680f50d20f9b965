//! The host: the demo registry beside the three built-in panels.

use vstd::prelude::*;

use crate::demos::Demos;

verus! {

/// Whether each of the built-in panels is shown.
pub struct OpenWindows {
    pub settings: bool,
    pub inspection: bool,
    pub memory: bool,
}

impl Default for OpenWindows {
    fn default() -> (r: OpenWindows)
        ensures
            !r.settings && !r.inspection && !r.memory,
    {
        OpenWindows::none()
    }
}

impl OpenWindows {
    /// All built-in panels hidden.
    pub fn none() -> (r: OpenWindows)
        ensures
            !r.settings && !r.inspection && !r.memory,
    {
        OpenWindows { settings: false, inspection: false, memory: false }
    }

    /// Takes what the user did to the built-in panels' checklist: each flag
    /// flips exactly when its box was clicked (settings, inspection, memory).
    pub fn apply_clicks(&mut self, clicked: (bool, bool, bool))
        ensures
            final(self).settings == (old(self).settings != clicked.0),
            final(self).inspection == (old(self).inspection != clicked.1),
            final(self).memory == (old(self).memory != clicked.2),
    {
        self.settings = self.settings != clicked.0;
        self.inspection = self.inspection != clicked.1;
        self.memory = self.memory != clicked.2;
    }
}

/// The demo registry and the built-in panels' flags: all the state that the
/// window host keeps from one frame to the next.
pub struct DemoWindows {
    pub open_windows: OpenWindows,
    pub demos: Demos,
}

impl DemoWindows {
    /// A host over `demos` with every built-in panel hidden.
    pub fn new(demos: Demos) -> (r: DemoWindows)
        ensures
            r.demos == demos,
            !r.open_windows.settings && !r.open_windows.inspection && !r.open_windows.memory,
    {
        DemoWindows { open_windows: OpenWindows::none(), demos }
    }
}

} // verus!
