//! Decision logic of a small desktop file browser: which folder a picker
//! dialog yielded, how the children of a directory are split into sorted
//! folder and file lists, and how a file is handed to the operating system's
//! default application.
//!
//! Nothing here touches the file system, a dialog or a process. Callers
//! observe the outside world, hand the observations in as plain values and
//! act on what comes back. Every function is verified against its contract.
//!
//! - [`picker`]: what the folder dialog yielded.
//! - [`listing`]: the children of a directory as two sorted name lists, and
//!   the laws that hold of such a listing.
//! - [`opener`]: the launcher of each platform and the outcome of starting it.
//! - [`messages`]: the texts of the failures.
//! - [`name_order`], [`code_points`], [`sorting`]: the order of names, what it
//!   means over characters, and the sort that establishes it.

pub mod code_points;
pub mod listing;
pub mod messages;
pub mod name_order;
pub mod opener;
pub mod picker;
pub mod sorting;

pub use listing::{read_directory, ChildEntry, DirContents};
pub use opener::{launch_command, open_file, LaunchCommand, LaunchOutcome, Platform};
pub use picker::{dialog_title, select_folder};
