//! Listing the immediate children of a directory: folders and files apart,
//! each list in ascending name order.

use vstd::multiset::*;
use vstd::prelude::*;
use vstd::seq_lib::*;
use crate::messages::{
    not_a_directory_message, not_a_directory_text, path_not_found_message, path_not_found_text,
    read_failed_message, read_failed_text,
};
use crate::sorting::{is_sorting_of, lemma_sorted_names_unique, sort_names};

verus! {

/// One child of a directory, as it was observed while the directory was
/// enumerated: its name (the last path component only) and what the path
/// turned out to be. A broken link or a device is neither directory nor file.
#[derive(Debug)]
pub struct ChildEntry {
    pub name: String,
    pub is_dir: bool,
    pub is_file: bool,
}

/// The mathematical value of a [`ChildEntry`].
pub struct ChildEntryView {
    pub name: Seq<char>,
    pub is_dir: bool,
    pub is_file: bool,
}

impl View for ChildEntry {
    type V = ChildEntryView;

    open spec fn view(&self) -> ChildEntryView {
        ChildEntryView { name: self.name@, is_dir: self.is_dir, is_file: self.is_file }
    }
}

impl DeepView for ChildEntry {
    type V = ChildEntryView;

    open spec fn deep_view(&self) -> ChildEntryView {
        self@
    }
}

/// The two name lists that describe a directory.
#[derive(Debug)]
pub struct DirContents {
    pub folders: Vec<String>,
    pub files: Vec<String>,
}

/// The mathematical value of a [`DirContents`].
pub struct DirContentsView {
    pub folders: Seq<Seq<char>>,
    pub files: Seq<Seq<char>>,
}

impl View for DirContents {
    type V = DirContentsView;

    open spec fn view(&self) -> DirContentsView {
        DirContentsView { folders: self.folders.deep_view(), files: self.files.deep_view() }
    }
}

/// The child goes to the folder list: it could be read and is a directory.
pub open spec fn lists_as_folder(child: Option<ChildEntryView>) -> bool {
    child matches Some(c) && c.is_dir
}

/// The child goes to the file list: it could be read, is no directory, and
/// is a regular file.
pub open spec fn lists_as_file(child: Option<ChildEntryView>) -> bool {
    child matches Some(c) && !c.is_dir && c.is_file
}

/// The name under which a child is listed.
pub open spec fn listed_name(child: Option<ChildEntryView>) -> Seq<char> {
    match child {
        Some(c) => c.name,
        None => Seq::empty(),
    }
}

/// The names of the children that `wanted` selects, in enumeration order.
pub open spec fn names_where(
    children: Seq<Option<ChildEntryView>>,
    wanted: spec_fn(Option<ChildEntryView>) -> bool,
) -> Seq<Seq<char>> {
    children.filter(wanted).map_values(|child: Option<ChildEntryView>| listed_name(child))
}

/// [`lists_as_folder`] as a predicate value.
pub open spec fn folders_wanted() -> spec_fn(Option<ChildEntryView>) -> bool {
    |child: Option<ChildEntryView>| lists_as_folder(child)
}

/// [`lists_as_file`] as a predicate value.
pub open spec fn files_wanted() -> spec_fn(Option<ChildEntryView>) -> bool {
    |child: Option<ChildEntryView>| lists_as_file(child)
}

/// The names of the children that are directories, in enumeration order.
pub open spec fn folder_names(children: Seq<Option<ChildEntryView>>) -> Seq<Seq<char>> {
    names_where(children, folders_wanted())
}

/// The names of the children that are regular files, in enumeration order.
pub open spec fn file_names(children: Seq<Option<ChildEntryView>>) -> Seq<Seq<char>> {
    names_where(children, files_wanted())
}

/// `listing` is the listing of a directory with these children: its folder
/// list is the sorting of the directories' names, its file list the sorting
/// of the regular files' names. Children that are neither, or that could not
/// be read, appear in no list.
pub open spec fn is_listing_of(
    listing: DirContentsView,
    children: Seq<Option<ChildEntryView>>,
) -> bool {
    &&& is_sorting_of(listing.folders, folder_names(children))
    &&& is_sorting_of(listing.files, file_names(children))
}

/// Why a directory cannot be listed, if it cannot: the checks in the order
/// in which they are made. `None` means that the listing is owed.
pub open spec fn read_failure(exists: bool, is_dir: bool, scan_error: Option<Seq<char>>) -> Option<
    Seq<char>,
> {
    if !exists {
        Some(path_not_found_text())
    } else if !is_dir {
        Some(not_a_directory_text())
    } else {
        match scan_error {
            Some(os_error) => Some(read_failed_text(os_error)),
            None => None,
        }
    }
}

/// The operating system's error text of a scan that could not begin.
pub open spec fn scan_error(scan: Result<Vec<Option<ChildEntry>>, String>) -> Option<Seq<char>> {
    match scan {
        Ok(_) => None,
        Err(os_error) => Some(os_error@),
    }
}

/// Appending one child appends its name if the child is wanted, and
/// nothing otherwise.
proof fn lemma_names_where_push(
    children: Seq<Option<ChildEntryView>>,
    child: Option<ChildEntryView>,
    wanted: spec_fn(Option<ChildEntryView>) -> bool,
)
    ensures
        names_where(children.push(child), wanted) == if wanted(child) {
            names_where(children, wanted).push(listed_name(child))
        } else {
            names_where(children, wanted)
        },
{
    reveal(Seq::filter);
    let grown = children.push(child);
    assert(grown.drop_last() =~= children);
    assert(grown.last() == child);
    if wanted(child) {
        assert(grown.filter(wanted) == children.filter(wanted).push(child));
        assert(names_where(grown, wanted) =~= names_where(children, wanted).push(
            listed_name(child),
        ));
    } else {
        assert(grown.filter(wanted) == children.filter(wanted));
    }
}

/// Splits the children that were read into folder names and file names.
fn split_children(children: Vec<Option<ChildEntry>>) -> (lists: (Vec<String>, Vec<String>))
    ensures
        lists.0.deep_view() == folder_names(children.deep_view()),
        lists.1.deep_view() == file_names(children.deep_view()),
{
    let mut folders: Vec<String> = Vec::new();
    let mut files: Vec<String> = Vec::new();
    let ghost items = children@;
    let ghost all = children.deep_view();
    proof {
        reveal(Seq::filter);
        assert(all.take(0) =~= Seq::empty());
        assert(folders.deep_view() =~= folder_names(all.take(0)));
        assert(files.deep_view() =~= file_names(all.take(0)));
    }
    for child in it: children
        invariant
            it.seq() == items,
            all.len() == items.len(),
            forall|k: int| 0 <= k < items.len() ==> all[k] == (#[trigger] items[k]).deep_view(),
            folders.deep_view() == folder_names(all.take(it.index() as int)),
            files.deep_view() == file_names(all.take(it.index() as int)),
    {
        let ghost seen = all.take(it.index() as int);
        let ghost old_folders = folders.deep_view();
        let ghost old_files = files.deep_view();
        proof {
            assert(child.deep_view() == all[it.index() as int]);
            assert(all.take(it.index() + 1) =~= seen.push(child.deep_view()));
            lemma_names_where_push(seen, child.deep_view(), folders_wanted());
            lemma_names_where_push(seen, child.deep_view(), files_wanted());
        }
        match child {
            Some(entry) => {
                if entry.is_dir {
                    folders.push(entry.name);
                    proof {
                        assert(folders.deep_view() =~= old_folders.push(entry.name@));
                    }
                } else if entry.is_file {
                    files.push(entry.name);
                    proof {
                        assert(files.deep_view() =~= old_files.push(entry.name@));
                    }
                }
            },
            None => {},
        }
    }
    proof {
        assert(all.take(all.len() as int) =~= all);
    }
    (folders, files)
}

/// The children that a scan yielded; none where it could not begin.
pub open spec fn scanned_children(scan: Result<Vec<Option<ChildEntry>>, String>) -> Seq<
    Option<ChildEntryView>,
> {
    match scan {
        Ok(children) => children.deep_view(),
        Err(_) => Seq::empty(),
    }
}

/// Lists the contents of a directory from what was observed of it.
///
/// `exists` and `is_dir` say what the path was found to be. `scan` is the
/// outcome of enumerating it: the operating system's error text if the
/// enumeration could not begin, else one item per child, `None` standing
/// for a child that could not be read.
///
/// The checks are made in a fixed order, and the first that fails decides
/// the message. Where all pass, the listing holds every directory's name in
/// `folders` and every regular file's name in `files`, both sorted; there
/// is no partial result.
pub fn read_directory(
    exists: bool,
    is_dir: bool,
    scan: Result<Vec<Option<ChildEntry>>, String>,
) -> (result: Result<DirContents, String>)
    ensures
        match result {
            Ok(listing) => {
                &&& read_failure(exists, is_dir, scan_error(scan)) is None
                &&& is_listing_of(listing@, scanned_children(scan))
            },
            Err(message) => read_failure(exists, is_dir, scan_error(scan)) == Some(message@),
        },
{
    if !exists {
        return Err(path_not_found_message());
    }
    if !is_dir {
        return Err(not_a_directory_message());
    }
    match scan {
        Ok(children) => {
            let (folders, files) = split_children(children);
            Ok(DirContents { folders: sort_names(folders), files: sort_names(files) })
        },
        Err(os_error) => Err(read_failed_message(os_error.as_str())),
    }
}

/// A directory has one listing: two listings of the same children are equal.
pub proof fn lemma_listing_unique(
    children: Seq<Option<ChildEntryView>>,
    first: DirContentsView,
    second: DirContentsView,
)
    requires
        is_listing_of(first, children),
        is_listing_of(second, children),
    ensures
        first == second,
{
    lemma_sorted_names_unique(first.folders, second.folders);
    lemma_sorted_names_unique(first.files, second.files);
}

/// A child that `wanted` selects and that bears `name` stands at `at`.
pub open spec fn bears_at(
    children: Seq<Option<ChildEntryView>>,
    wanted: spec_fn(Option<ChildEntryView>) -> bool,
    name: Seq<char>,
    at: int,
) -> bool {
    0 <= at < children.len() && wanted(children[at]) && listed_name(children[at]) == name
}

/// A name is among the selected names exactly if a selected child bears it.
proof fn lemma_names_where_contains(
    children: Seq<Option<ChildEntryView>>,
    wanted: spec_fn(Option<ChildEntryView>) -> bool,
    name: Seq<char>,
)
    ensures
        names_where(children, wanted).contains(name) <==> exists|at: int|
            bears_at(children, wanted, name, at),
    decreases children.len(),
{
    if children.len() == 0 {
        reveal(Seq::filter);
        assert(names_where(children, wanted) =~= Seq::empty());
    } else {
        let front = children.drop_last();
        let child = children.last();
        assert(children =~= front.push(child));
        lemma_names_where_push(front, child, wanted);
        lemma_names_where_contains(front, wanted, name);
        let selected = names_where(children, wanted);
        if selected.contains(name) {
            let i: int = choose|i: int| 0 <= i < selected.len() && selected[i] == name;
            if wanted(child) && i == selected.len() - 1 {
                assert(bears_at(children, wanted, name, children.len() - 1));
            } else {
                assert(names_where(front, wanted)[i] == name);
                let at: int = choose|at: int| bears_at(front, wanted, name, at);
                assert(bears_at(children, wanted, name, at));
            }
        }
        if exists|at: int| bears_at(children, wanted, name, at) {
            let at: int = choose|at: int| bears_at(children, wanted, name, at);
            if at == children.len() - 1 {
                assert(selected[selected.len() - 1] == name);
            } else {
                assert(bears_at(front, wanted, name, at));
                let i: int = choose|i: int|
                    0 <= i < names_where(front, wanted).len() && names_where(front, wanted)[i]
                        == name;
                assert(selected[i] == name);
            }
        }
    }
}

/// The listing holds the children and nothing else: a name stands in the
/// folder list exactly if a directory among the children bears it, and in
/// the file list exactly if a regular file does; and each list is as long
/// as there are such children.
pub proof fn lemma_listing_holds_the_children(
    children: Seq<Option<ChildEntryView>>,
    listing: DirContentsView,
)
    requires
        is_listing_of(listing, children),
    ensures
        forall|name: Seq<char>| #[trigger]
            listing.folders.contains(name) <==> exists|at: int|
                bears_at(children, folders_wanted(), name, at),
        forall|name: Seq<char>| #[trigger]
            listing.files.contains(name) <==> exists|at: int|
                bears_at(children, files_wanted(), name, at),
        listing.folders.len() == children.filter(folders_wanted()).len(),
        listing.files.len() == children.filter(files_wanted()).len(),
{
    broadcast use {group_to_multiset_ensures, group_multiset_axioms};

    assert forall|name: Seq<char>| #[trigger]
        listing.folders.contains(name) <==> exists|at: int|
            bears_at(children, folders_wanted(), name, at) by {
        lemma_names_where_contains(children, folders_wanted(), name);
        assert(listing.folders.to_multiset().count(name) == folder_names(
            children,
        ).to_multiset().count(name));
    }
    assert forall|name: Seq<char>| #[trigger]
        listing.files.contains(name) <==> exists|at: int|
            bears_at(children, files_wanted(), name, at) by {
        lemma_names_where_contains(children, files_wanted(), name);
        assert(listing.files.to_multiset().count(name) == file_names(
            children,
        ).to_multiset().count(name));
    }
    to_multiset_len(listing.folders);
    to_multiset_len(folder_names(children));
    to_multiset_len(listing.files);
    to_multiset_len(file_names(children));
}

/// Every child could be read and is a directory or a regular file.
pub open spec fn all_listed(children: Seq<Option<ChildEntryView>>) -> bool {
    forall|at: int|
        0 <= at < children.len() ==> lists_as_folder(#[trigger] children[at]) || lists_as_file(
            children[at],
        )
}

/// Where every child is listed, the two selections are as long together as
/// the enumeration.
proof fn lemma_all_listed_len(children: Seq<Option<ChildEntryView>>)
    requires
        all_listed(children),
    ensures
        folder_names(children).len() + file_names(children).len() == children.len(),
    decreases children.len(),
{
    if children.len() == 0 {
        reveal(Seq::filter);
    } else {
        let front = children.drop_last();
        let child = children.last();
        assert(children =~= front.push(child));
        assert(all_listed(front)) by {
            assert forall|at: int| 0 <= at < front.len() implies lists_as_folder(
                #[trigger] front[at],
            ) || lists_as_file(front[at]) by {
                assert(front[at] == children[at]);
            }
        }
        lemma_all_listed_len(front);
        lemma_names_where_push(front, child, folders_wanted());
        lemma_names_where_push(front, child, files_wanted());
    }
}

/// In a directory that holds only directories and regular files, all of
/// them readable, the two lists together are the children: a name stands in
/// one of the lists exactly if a child bears it, and the lists are as long
/// together as there are children.
pub proof fn lemma_listing_covers_all_children(
    children: Seq<Option<ChildEntryView>>,
    listing: DirContentsView,
)
    requires
        is_listing_of(listing, children),
        all_listed(children),
    ensures
        forall|name: Seq<char>|
            (#[trigger] listing.folders.contains(name) || #[trigger] listing.files.contains(name))
                <==> exists|at: int|
                0 <= at < children.len() && listed_name(#[trigger] children[at]) == name,
        listing.folders.len() + listing.files.len() == children.len(),
{
    lemma_listing_holds_the_children(children, listing);
    lemma_all_listed_len(children);
    to_multiset_len(listing.folders);
    to_multiset_len(folder_names(children));
    to_multiset_len(listing.files);
    to_multiset_len(file_names(children));
    assert forall|name: Seq<char>|
        (#[trigger] listing.folders.contains(name) || #[trigger] listing.files.contains(name))
            <==> exists|at: int|
            0 <= at < children.len() && listed_name(#[trigger] children[at]) == name by {
        if listing.folders.contains(name) {
            let at: int = choose|at: int| bears_at(children, folders_wanted(), name, at);
            assert(listed_name(children[at]) == name);
        }
        if listing.files.contains(name) {
            let at: int = choose|at: int| bears_at(children, files_wanted(), name, at);
            assert(listed_name(children[at]) == name);
        }
        if exists|at: int| 0 <= at < children.len() && listed_name(#[trigger] children[at]) == name {
            let at: int = choose|at: int|
                0 <= at < children.len() && listed_name(#[trigger] children[at]) == name;
            if lists_as_folder(children[at]) {
                assert(bears_at(children, folders_wanted(), name, at));
            } else {
                assert(bears_at(children, files_wanted(), name, at));
            }
        }
    }
}

/// What one child adds to the names that `wanted` selects.
spec fn share(child: Option<ChildEntryView>, wanted: spec_fn(Option<ChildEntryView>) -> bool) -> Multiset<
    Seq<char>,
> {
    if wanted(child) {
        Multiset::singleton(listed_name(child))
    } else {
        Multiset::empty()
    }
}

/// Selecting names from two runs of children, one after the other, gives
/// the names of the first run followed by those of the second.
proof fn lemma_names_where_concat(
    front: Seq<Option<ChildEntryView>>,
    back: Seq<Option<ChildEntryView>>,
    wanted: spec_fn(Option<ChildEntryView>) -> bool,
)
    ensures
        names_where(front + back, wanted) == names_where(front, wanted) + names_where(
            back,
            wanted,
        ),
{
    Seq::filter_distributes_over_add(front, back, wanted);
    assert(names_where(front + back, wanted) =~= names_where(front, wanted) + names_where(
        back,
        wanted,
    ));
}

/// Taking one child out of the enumeration takes out its share of the names.
proof fn lemma_names_where_remove(
    children: Seq<Option<ChildEntryView>>,
    at: int,
    wanted: spec_fn(Option<ChildEntryView>) -> bool,
)
    requires
        0 <= at < children.len(),
    ensures
        names_where(children, wanted).to_multiset() == names_where(
            children.remove(at),
            wanted,
        ).to_multiset().add(share(children[at], wanted)),
{
    let front = children.take(at);
    let back = children.skip(at + 1);
    let child = children[at];
    assert(children =~= front.push(child) + back);
    assert(children.remove(at) =~= front + back);
    lemma_names_where_concat(front.push(child), back, wanted);
    lemma_names_where_concat(front, back, wanted);
    lemma_names_where_push(front, child, wanted);
    lemma_multiset_commutative(names_where(front.push(child), wanted), names_where(back, wanted));
    lemma_multiset_commutative(names_where(front, wanted), names_where(back, wanted));
    if wanted(child) {
        to_multiset_build(names_where(front, wanted), listed_name(child));
    }
    assert(names_where(children, wanted).to_multiset() =~= names_where(
        children.remove(at),
        wanted,
    ).to_multiset().add(share(child, wanted)));
}

/// The names selected from an enumeration do not depend on its order, as
/// far as only their number of occurrences is concerned.
proof fn lemma_names_where_permutation(
    first: Seq<Option<ChildEntryView>>,
    second: Seq<Option<ChildEntryView>>,
    wanted: spec_fn(Option<ChildEntryView>) -> bool,
)
    requires
        first.to_multiset() == second.to_multiset(),
    ensures
        names_where(first, wanted).to_multiset() == names_where(second, wanted).to_multiset(),
    decreases first.len(),
{
    broadcast use {group_to_multiset_ensures, group_multiset_axioms};

    to_multiset_len(first);
    to_multiset_len(second);
    if first.len() == 0 {
        assert(first =~= second);
    } else {
        let last: int = first.len() - 1;
        let child = first[last];
        assert(first.contains(child));
        assert(second.to_multiset().count(child) > 0);
        assert(second.contains(child));
        let at: int = choose|at: int| 0 <= at < second.len() && second[at] == child;
        assert(first.remove(last).to_multiset() =~= second.remove(at).to_multiset());
        lemma_names_where_permutation(first.remove(last), second.remove(at), wanted);
        lemma_names_where_remove(first, last, wanted);
        lemma_names_where_remove(second, at, wanted);
    }
}

/// The listing does not depend on the order in which the operating system
/// enumerates the children: two enumerations that hold the same children
/// equally often have the same listing.
pub proof fn lemma_listing_ignores_enumeration_order(
    first_scan: Seq<Option<ChildEntryView>>,
    second_scan: Seq<Option<ChildEntryView>>,
    first: DirContentsView,
    second: DirContentsView,
)
    requires
        first_scan.to_multiset() == second_scan.to_multiset(),
        is_listing_of(first, first_scan),
        is_listing_of(second, second_scan),
    ensures
        first == second,
{
    lemma_names_where_permutation(first_scan, second_scan, folders_wanted());
    lemma_names_where_permutation(first_scan, second_scan, files_wanted());
    lemma_sorted_names_unique(first.folders, second.folders);
    lemma_sorted_names_unique(first.files, second.files);
}

} // verus!
