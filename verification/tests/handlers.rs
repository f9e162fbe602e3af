use folder_browser::messages::{
    no_selection_message, not_a_directory_message, open_failed_message, path_not_found_message,
    read_failed_message,
};
use folder_browser::opener::{launch_command, open_file, LaunchCommand, LaunchOutcome, Platform};
use folder_browser::picker::{dialog_title, select_folder};

fn command(platform: Platform, path: &str) -> LaunchCommand {
    match launch_command(platform, path) {
        Some(command) => command,
        None => panic!("no launcher for {:?}", platform),
    }
}

#[test]
fn chosen_folder_is_handed_on() {
    assert_eq!(select_folder(Some("/home/user/Documents".to_string())), Ok("/home/user/Documents".to_string()));
}

#[test]
fn chosen_folder_is_not_altered() {
    assert_eq!(select_folder(Some(String::new())), Ok(String::new()));
    assert_eq!(select_folder(Some("C:\\Users\\\u{e9}".to_string())), Ok("C:\\Users\\\u{e9}".to_string()));
}

#[test]
fn dismissed_dialog_is_a_failure() {
    assert_eq!(select_folder(None), Err("No folder selected".to_string()));
}

#[test]
fn dialog_has_its_title() {
    assert_eq!(dialog_title(), "Select Parent Folder");
}

#[test]
fn linux_opens_with_xdg_open() {
    let command = command(Platform::Linux, "/tmp/report.pdf");
    assert_eq!(command.program, "xdg-open");
    assert_eq!(command.args, vec!["/tmp/report.pdf"]);
}

#[test]
fn macos_opens_with_open() {
    let command = command(Platform::MacOs, "/Users/me/notes.txt");
    assert_eq!(command.program, "open");
    assert_eq!(command.args, vec!["/Users/me/notes.txt"]);
}

#[test]
fn windows_opens_through_the_shell() {
    let command = command(Platform::Windows, "C:\\docs\\a b.txt");
    assert_eq!(command.program, "cmd");
    assert_eq!(command.args, vec!["/C", "start", "", "C:\\docs\\a b.txt"]);
}

#[test]
fn other_platforms_have_no_launcher() {
    assert!(launch_command(Platform::Other, "/tmp/x").is_none());
}

#[test]
fn path_is_passed_as_given() {
    let command = command(Platform::Linux, "");
    assert_eq!(command.args, vec![""]);
    let command = command_for_missing();
    assert_eq!(command.args, vec!["/does/not/exist"]);
}

fn command_for_missing() -> LaunchCommand {
    command(Platform::MacOs, "/does/not/exist")
}

#[test]
fn started_launcher_is_success() {
    assert_eq!(open_file(LaunchOutcome::Started), Ok(()));
}

#[test]
fn no_launcher_is_success() {
    assert_eq!(open_file(LaunchOutcome::NotAttempted), Ok(()));
}

#[test]
fn failed_launcher_carries_the_system_text() {
    assert_eq!(
        open_file(LaunchOutcome::Failed("No such file or directory (os error 2)".to_string())),
        Err("Failed to open file: No such file or directory (os error 2)".to_string())
    );
}

#[test]
fn failed_launcher_with_empty_text() {
    assert_eq!(open_file(LaunchOutcome::Failed(String::new())), Err("Failed to open file: ".to_string()));
}

#[test]
fn messages_have_their_texts() {
    assert_eq!(no_selection_message(), "No folder selected");
    assert_eq!(path_not_found_message(), "Path does not exist");
    assert_eq!(not_a_directory_message(), "Path is not a directory");
    assert_eq!(read_failed_message("boom"), "Failed to read directory: boom");
    assert_eq!(open_failed_message("boom"), "Failed to open file: boom");
}

#[test]
fn system_text_is_appended_unchanged() {
    assert_eq!(read_failed_message("  \u{e9}: x\n"), "Failed to read directory:   \u{e9}: x\n");
    assert_eq!(open_failed_message("a: b: c"), "Failed to open file: a: b: c");
}
