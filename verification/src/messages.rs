//! The texts by which the handlers report a failure to the user interface.

use vstd::prelude::*;
use vstd::string::*;

verus! {

/// Text for a folder dialog that was closed without a choice.
pub open spec fn no_selection_text() -> Seq<char> {
    "No folder selected"@
}

/// Text for a path that names nothing on the file system.
pub open spec fn path_not_found_text() -> Seq<char> {
    "Path does not exist"@
}

/// Text for a path that names something other than a directory.
pub open spec fn not_a_directory_text() -> Seq<char> {
    "Path is not a directory"@
}

/// Text for a directory whose enumeration could not begin; the operating
/// system's own words follow the colon unchanged.
pub open spec fn read_failed_text(os_error: Seq<char>) -> Seq<char> {
    "Failed to read directory: "@ + os_error
}

/// Text for a launcher process that could not be created; the operating
/// system's own words follow the colon unchanged.
pub open spec fn open_failed_text(os_error: Seq<char>) -> Seq<char> {
    "Failed to open file: "@ + os_error
}

/// The message for a folder dialog that was closed without a choice.
pub fn no_selection_message() -> (message: String)
    ensures
        message@ == no_selection_text(),
{
    "No folder selected".to_owned()
}

/// The message for a path that names nothing on the file system.
pub fn path_not_found_message() -> (message: String)
    ensures
        message@ == path_not_found_text(),
{
    "Path does not exist".to_owned()
}

/// The message for a path that names something other than a directory.
pub fn not_a_directory_message() -> (message: String)
    ensures
        message@ == not_a_directory_text(),
{
    "Path is not a directory".to_owned()
}

/// The message for a directory whose enumeration could not begin.
pub fn read_failed_message(os_error: &str) -> (message: String)
    ensures
        message@ == read_failed_text(os_error@),
{
    "Failed to read directory: ".to_owned().concat(os_error)
}

/// The message for a launcher process that could not be created.
pub fn open_failed_message(os_error: &str) -> (message: String)
    ensures
        message@ == open_failed_text(os_error@),
{
    "Failed to open file: ".to_owned().concat(os_error)
}

} // verus!
