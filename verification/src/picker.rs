//! Choosing the parent folder through a native dialog.

use vstd::prelude::*;
use vstd::string::*;
use crate::messages::{no_selection_message, no_selection_text};

verus! {

/// The title of the folder dialog.
pub open spec fn dialog_title_text() -> Seq<char> {
    "Select Parent Folder"@
}

/// The title under which the folder dialog is shown.
pub fn dialog_title() -> (title: String)
    ensures
        title@ == dialog_title_text(),
{
    "Select Parent Folder".to_owned()
}

/// Turns what the folder dialog yielded into the handler's answer.
///
/// `picked` is the chosen folder's path as text, or `None` if the user
/// closed the dialog without choosing. A choice is handed on unchanged; a
/// cancelled dialog is a failure with its message, not a fault.
pub fn select_folder(picked: Option<String>) -> (result: Result<String, String>)
    ensures
        match picked {
            Some(path) => result == Ok::<String, String>(path),
            None => result matches Err(message) && message@ == no_selection_text(),
        },
{
    match picked {
        Some(path) => Ok(path),
        None => Err(no_selection_message()),
    }
}

} // verus!
