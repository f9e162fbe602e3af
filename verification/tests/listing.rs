use folder_browser::listing::{read_directory, ChildEntry, DirContents};

fn dir(name: &str) -> Option<ChildEntry> {
    Some(ChildEntry { name: name.to_string(), is_dir: true, is_file: false })
}

fn file(name: &str) -> Option<ChildEntry> {
    Some(ChildEntry { name: name.to_string(), is_dir: false, is_file: true })
}

fn special(name: &str) -> Option<ChildEntry> {
    Some(ChildEntry { name: name.to_string(), is_dir: false, is_file: false })
}

fn list(children: Vec<Option<ChildEntry>>) -> DirContents {
    match read_directory(true, true, Ok(children)) {
        Ok(listing) => listing,
        Err(message) => panic!("no listing: {}", message),
    }
}

fn failure(result: Result<DirContents, String>) -> String {
    match result {
        Ok(listing) => panic!("a listing where a failure was due: {:?}", listing),
        Err(message) => message,
    }
}

#[test]
fn lists_folders_and_files_apart_and_sorted() {
    let listing = list(vec![file("b.txt"), dir("A"), file("a.txt")]);
    assert_eq!(listing.folders, vec!["A"]);
    assert_eq!(listing.files, vec!["a.txt", "b.txt"]);
}

#[test]
fn empty_directory_gives_two_empty_lists() {
    let listing = list(Vec::new());
    assert!(listing.folders.is_empty());
    assert!(listing.files.is_empty());
}

#[test]
fn missing_path_is_reported() {
    let message = failure(read_directory(false, false, Err("No such file or directory".to_string())));
    assert_eq!(message, "Path does not exist");
}

#[test]
fn missing_path_wins_over_every_other_observation() {
    let message = failure(read_directory(false, true, Ok(vec![file("a")])));
    assert_eq!(message, "Path does not exist");
}

#[test]
fn regular_file_is_not_a_directory() {
    let message = failure(read_directory(true, false, Err("Not a directory".to_string())));
    assert_eq!(message, "Path is not a directory");
}

#[test]
fn not_a_directory_wins_over_the_scan() {
    let message = failure(read_directory(true, false, Ok(vec![dir("d")])));
    assert_eq!(message, "Path is not a directory");
}

#[test]
fn failed_scan_carries_the_system_text() {
    let message = failure(read_directory(true, true, Err("Permission denied (os error 13)".to_string())));
    assert_eq!(message, "Failed to read directory: Permission denied (os error 13)");
}

#[test]
fn failed_scan_with_empty_text() {
    let message = failure(read_directory(true, true, Err(String::new())));
    assert_eq!(message, "Failed to read directory: ");
}

#[test]
fn unreadable_children_are_skipped() {
    let listing = list(vec![None, file("kept"), None, dir("also"), None]);
    assert_eq!(listing.folders, vec!["also"]);
    assert_eq!(listing.files, vec!["kept"]);
}

#[test]
fn children_that_are_neither_are_skipped() {
    let listing = list(vec![special("socket"), file("f"), special("dangling-link"), dir("d")]);
    assert_eq!(listing.folders, vec!["d"]);
    assert_eq!(listing.files, vec!["f"]);
}

#[test]
fn only_skipped_children_give_empty_lists() {
    let listing = list(vec![None, special("fifo"), None]);
    assert!(listing.folders.is_empty());
    assert!(listing.files.is_empty());
}

#[test]
fn directory_wins_where_both_hold() {
    let both = Some(ChildEntry { name: "odd".to_string(), is_dir: true, is_file: true });
    let listing = list(vec![both]);
    assert_eq!(listing.folders, vec!["odd"]);
    assert!(listing.files.is_empty());
}

#[test]
fn same_name_may_stand_in_both_lists() {
    let listing = list(vec![file("x"), dir("x")]);
    assert_eq!(listing.folders, vec!["x"]);
    assert_eq!(listing.files, vec!["x"]);
}

#[test]
fn repeated_names_are_kept() {
    let listing = list(vec![file("b"), file("a"), file("b"), file("a")]);
    assert_eq!(listing.files, vec!["a", "a", "b", "b"]);
}

#[test]
fn upper_case_comes_before_lower_case() {
    let listing = list(vec![file("b"), file("B"), file("a"), file("A"), file("_"), file("0")]);
    assert_eq!(listing.files, vec!["0", "A", "B", "_", "a", "b"]);
}

#[test]
fn prefix_comes_before_its_extension() {
    let listing = list(vec![dir("abc"), dir("ab"), dir(""), dir("a")]);
    assert_eq!(listing.folders, vec!["", "a", "ab", "abc"]);
}

#[test]
fn names_outside_ascii_follow_their_bytes() {
    let listing = list(vec![file("\u{e9}t\u{e9}"), file("zebra"), file("\u{4e2d}"), file("\u{1f600}"), file("e")]);
    assert_eq!(listing.files, vec!["e", "zebra", "\u{e9}t\u{e9}", "\u{4e2d}", "\u{1f600}"]);
}

#[test]
fn listing_does_not_depend_on_enumeration_order() {
    let one = list(vec![file("n"), dir("m"), None, file("a"), dir("z"), special("s"), dir("b")]);
    let two = list(vec![dir("b"), special("s"), dir("z"), file("a"), None, dir("m"), file("n")]);
    assert_eq!(one.folders, two.folders);
    assert_eq!(one.files, two.files);
    assert_eq!(one.folders, vec!["b", "m", "z"]);
    assert_eq!(one.files, vec!["a", "n"]);
}

#[test]
fn repeated_listing_is_identical() {
    let children = || vec![file("q"), dir("w"), file("e"), dir("r"), file("t")];
    let first = list(children());
    let second = list(children());
    assert_eq!(first.folders, second.folders);
    assert_eq!(first.files, second.files);
}

#[test]
fn every_listed_child_appears_exactly_once() {
    let mut children = Vec::new();
    for i in 0..50u32 {
        children.push(file(&format!("file-{}", (i * 37) % 50)));
        children.push(dir(&format!("dir-{}", (i * 13) % 50)));
        children.push(special(&format!("other-{}", i)));
        children.push(None);
    }
    let listing = list(children);
    assert_eq!(listing.folders.len(), 50);
    assert_eq!(listing.files.len(), 50);
    let mut folders: Vec<String> = (0..50u32).map(|i| format!("dir-{}", i)).collect();
    let mut files: Vec<String> = (0..50u32).map(|i| format!("file-{}", i)).collect();
    folders.sort();
    files.sort();
    assert_eq!(listing.folders, folders);
    assert_eq!(listing.files, files);
}
