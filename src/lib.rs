//! A registry of demo panels: which demos exist, which of them are open, and
//! how the open set is toggled, drawn and persisted.

pub mod demos;
pub mod text_order;
mod ui;
pub mod visibility;
pub mod windows;

pub use demos::{Demo, Demos};
pub use text_order::compare_names;
pub use visibility::{set_open, VisibilitySet};
pub use windows::{DemoWindows, OpenWindows};
