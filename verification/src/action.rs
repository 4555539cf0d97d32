//! The messages the outer event loop sends: navigation, editing, search and
//! prompt updates. The reducer that interprets them lives outside this crate.

use vstd::prelude::*;

use crate::state::{Page, StatusMessage};
use crate::value::Value;

verus! {

/// One message from the event loop.
#[non_exhaustive]
pub enum Action {
    SetCurrentPage { page: Page },
    NavBack,
    NavSelect,
    NavUp,
    NavDown,
    NavMoveDown,
    NavMoveUp,
    NavTop,
    NavGoto { path: String },
    NavBottom,
    DocumentReplaceCurrent { value: Value },
    Undo,
    Redo,
    Snapshot,
    SearchUp,
    SearchDown,
    SearchSetValue { value: String },
    SearchSetAllPaths,
    ImportPromptSetValue { value: String },
    ExportPromptSetValue { value: String },
    /// Show a status message, optionally for only so many milliseconds.
    SetStatus { message: StatusMessage, timeout: Option<u64> },
}

} // verus!
