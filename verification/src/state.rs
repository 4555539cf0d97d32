//! The interactive session's state: the document, the navigation position,
//! the search box, the prompts, the undo history and the status line. The
//! key-event loop and the reducer that drive it live outside this crate.

pub mod index;

use vstd::prelude::*;

use crate::string_map::StringMap;
use crate::value::Value;

verus! {

broadcast use vstd::seq::group_seq_axioms;

/// The address of the document root.
pub const ROOT_PATH: &'static str = "#";

/// Everything a session shows and edits.
pub struct State {
    pub file_name: String,
    pub doc: Value,
    pub current_page: Page,
    pub undo_stack: Vec<UndoAction>,
    pub redo_stack: Vec<UndoAction>,
    pub nav_state: Nav,
    pub search_state: Search,
    pub import_prompt_state: ImportPrompt,
    pub export_prompt_state: ExportPrompt,
    pub status: Status,
}

/// One undoable edit.
pub enum UndoAction {
    /// The node at `path` was replaced; `value` restores it.
    ReplaceCurrent { path: String, value: Value },
    /// Two children of the node at `path` swapped places.
    SwapIndicies { path: String, from: usize, to: usize },
}

/// What the status line says.
pub enum StatusMessage {
    Info(String),
    Warn(String),
    Error(String),
    Empty,
}

/// The status line and how long it stays, in milliseconds.
pub struct Status {
    pub message: StatusMessage,
    pub timeout: Option<u64>,
}

impl State {
    /// A fresh session on a just-loaded document.
    pub fn new(doc: Value, file_name: String) -> (r: State)
        ensures
            r.doc == doc,
            r.file_name == file_name,
            r.current_page is Nav,
            r.undo_stack@.len() == 0,
            r.redo_stack@.len() == 0,
            r.nav_state.current.path@ == ROOT_PATH@,
            r.nav_state.current.selected == 0,
            r.nav_state.history@.len() == 0,
            r.search_state.value@.len() == 0,
            r.search_state.filtered_paths@.len() == 0,
            r.search_state.all_paths@.len() == 0,
            r.search_state.selected == 0,
            r.import_prompt_state.value@.len() == 0,
            r.export_prompt_state.value@.len() == 0,
            r.status.message is Empty,
            r.status.timeout is None,
    {
        State {
            file_name,
            doc,
            current_page: Page::Nav,
            undo_stack: Vec::new(),
            redo_stack: Vec::new(),
            nav_state: Nav {
                current: Step { selected: 0, path: ROOT_PATH.to_owned() },
                history: Vec::new(),
            },
            search_state: Search {
                value: String::new(),
                filtered_paths: Vec::new(),
                all_paths: StringMap::new(),
                selected: 0,
            },
            import_prompt_state: ImportPrompt { value: String::new() },
            export_prompt_state: ExportPrompt { value: String::new() },
            status: Status { message: StatusMessage::Empty, timeout: None },
        }
    }
}

/// One navigation step: a path and which of its children is selected.
pub struct Step {
    pub path: String,
    pub selected: usize,
}

/// Where navigation stands and how it got there.
pub struct Nav {
    pub current: Step,
    pub history: Vec<Step>,
}

/// The search box: its text, the known universe and the ranked matches.
pub struct Search {
    pub value: String,
    pub all_paths: StringMap<usize>,
    pub filtered_paths: Vec<String>,
    pub selected: usize,
}

/// The import prompt's pending text.
pub struct ImportPrompt {
    pub value: String,
}

/// The export prompt's pending text.
pub struct ExportPrompt {
    pub value: String,
}

/// Which page the session shows.
#[derive(Clone, Copy)]
pub enum Page {
    Nav,
    Search,
    ImportPrompt,
    ExportPrompt,
}

} // verus!
