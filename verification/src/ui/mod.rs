//! The panels: what each holds, and what a press, a key or an event does to it.
//!
//! A panel cannot open a file or toggle another panel: it asks for that with an intent.
use vstd::prelude::*;

pub mod breadcrumbs;
pub mod debug_panel;
pub mod editor_view;
pub mod explorer_panel;
pub mod find_widget;
pub mod terminal_panel;

verus! {

/// What a panel asks of the editor.
pub enum Intent<T> {
    /// Open a file and place the caret at a line, from 1, and a byte of it.
    OpenFile { path: T, line: usize, col: usize },
    /// Open a settings file.
    OpenSettings { path: T },
    /// Read every open document anew.
    ReloadOpenDocs,
    Redraw,
    DebugStart { config: usize },
    DebugContinue,
    DebugPause,
    DebugStepOver,
    DebugStepIn,
    DebugStepOut,
    DebugStop,
    DebugAttachProcess,
    DebugSelectConfig { config: usize },
    DebugSelectFrame { id: i64 },
    DebugExpandVar { var_ref: i64 },
}

} // verus!
