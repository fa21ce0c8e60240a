//! Bounded upward search for the directory that marks a project.

use vstd::prelude::*;
use crate::text::{extension_of, has_extension, same_text};

verus! {

/// What a directory entry is, following symbolic links.
pub enum EntryKind {
    File,
    Dir,
    Other,
}

/// One entry of a directory listing: its name and what it is.
pub struct DirEntryInfo {
    pub name: String,
    pub kind: EntryKind,
}

/// The entries directly inside one directory. A directory that could not be
/// read is described by an empty listing.
pub struct DirListing {
    pub entries: Vec<DirEntryInfo>,
}

/// The kinds of project that can be detected, in order of priority.
pub enum Ecosystem {
    Rust,
    Python,
    Go,
}

/// What the search looks for in a directory.
pub enum Marker {
    /// A `project_info.toml` file.
    ProjectInfo,
    /// The marker of an ecosystem.
    Project(Ecosystem),
}

/// The directory holds an entry called `name`, of any kind.
pub open spec fn lists(l: DirListing, name: Seq<char>) -> bool {
    exists|i: int| 0 <= i < l.entries@.len() && (#[trigger] l.entries@[i]).name@ == name
}

/// The directory holds a subdirectory called `name`.
pub open spec fn lists_dir(l: DirListing, name: Seq<char>) -> bool {
    exists|i: int|
        0 <= i < l.entries@.len() && (#[trigger] l.entries@[i]).name@ == name
            && l.entries@[i].kind is Dir
}

/// The directory directly holds a file whose extension is `ext`.
pub open spec fn lists_file_with_extension(l: DirListing, ext: Seq<char>) -> bool {
    exists|i: int|
        0 <= i < l.entries@.len() && (#[trigger] l.entries@[i]).kind is File && extension_of(
            l.entries@[i].name@,
        ) == Some(ext)
}

impl Ecosystem {
    /// The extension of the ecosystem's source files.
    pub open spec fn source_extension(self) -> Seq<char> {
        match self {
            Ecosystem::Rust => "rs"@,
            Ecosystem::Python => "py"@,
            Ecosystem::Go => "go"@,
        }
    }

    /// The extension of the ecosystem's source files.
    pub fn extension(&self) -> (r: &'static str)
        ensures
            r@ == self.source_extension(),
    {
        match self {
            Ecosystem::Rust => "rs",
            Ecosystem::Python => "py",
            Ecosystem::Go => "go",
        }
    }

    /// The ecosystem's name, for messages.
    pub open spec fn name_spec(self) -> Seq<char> {
        match self {
            Ecosystem::Rust => "Rust"@,
            Ecosystem::Python => "Python"@,
            Ecosystem::Go => "Go"@,
        }
    }

    /// The ecosystem's name, for messages.
    pub fn display_name(&self) -> (r: &'static str)
        ensures
            r@ == self.name_spec(),
    {
        match self {
            Ecosystem::Rust => "Rust",
            Ecosystem::Python => "Python",
            Ecosystem::Go => "Go",
        }
    }
}

/// Whether the marker is present in the directory that `l` lists:
/// - a project information file: `project_info.toml`;
/// - Rust: `Cargo.toml` and a `src` subdirectory;
/// - Python: `requirements.txt`, or `setup.py`, or a `.py` file directly inside;
/// - Go: `go.mod`, or a `src` subdirectory.
pub open spec fn marker_holds(m: Marker, l: DirListing) -> bool {
    match m {
        Marker::ProjectInfo => lists(l, "project_info.toml"@),
        Marker::Project(Ecosystem::Rust) => lists(l, "Cargo.toml"@) && lists_dir(l, "src"@),
        Marker::Project(Ecosystem::Python) => lists(l, "requirements.txt"@) || lists(
            l,
            "setup.py"@,
        ) || lists_file_with_extension(l, "py"@),
        Marker::Project(Ecosystem::Go) => lists(l, "go.mod"@) || lists_dir(l, "src"@),
    }
}

/// The number of directories a search looks at: the start and two ancestors.
pub const SEARCH_DEPTH: usize = 3;

/// The result of searching `chain` from position `i` on: the first position
/// below the search depth whose directory has the marker.
pub open spec fn located_from(m: Marker, chain: Seq<DirListing>, i: int) -> Option<int>
    decreases SEARCH_DEPTH - i,
{
    if i < 0 || i >= SEARCH_DEPTH || i >= chain.len() {
        None
    } else if marker_holds(m, chain[i]) {
        Some(i)
    } else {
        located_from(m, chain, i + 1)
    }
}

/// Where the search for `m` along `chain` ends: `chain[0]` is the starting
/// directory and each next element the parent of the one before; the chain
/// stops at the filesystem root.
pub open spec fn located(m: Marker, chain: Seq<DirListing>) -> Option<int> {
    located_from(m, chain, 0)
}

/// Whether the directory holds an entry called `name`.
fn has_entry(l: &DirListing, name: &str) -> (r: bool)
    ensures
        r == lists(*l, name@),
{
    let mut i: usize = 0;
    while i < l.entries.len()
        invariant
            i <= l.entries@.len(),
            forall|j: int| 0 <= j < i ==> (#[trigger] l.entries@[j]).name@ != name@,
        decreases l.entries@.len() - i,
    {
        if same_text(l.entries[i].name.as_str(), name) {
            return true;
        }
        i = i + 1;
    }
    false
}

/// Whether the directory holds a subdirectory called `name`.
fn has_dir(l: &DirListing, name: &str) -> (r: bool)
    ensures
        r == lists_dir(*l, name@),
{
    let mut i: usize = 0;
    while i < l.entries.len()
        invariant
            i <= l.entries@.len(),
            forall|j: int|
                0 <= j < i ==> !((#[trigger] l.entries@[j]).name@ == name@
                    && l.entries@[j].kind is Dir),
        decreases l.entries@.len() - i,
    {
        let e = &l.entries[i];
        if let EntryKind::Dir = e.kind {
            if same_text(e.name.as_str(), name) {
                return true;
            }
        }
        i = i + 1;
    }
    false
}

/// Whether the directory directly holds a file whose extension is `ext`.
pub fn has_file_with_extension(l: &DirListing, ext: &str) -> (r: bool)
    ensures
        r == lists_file_with_extension(*l, ext@),
{
    let mut i: usize = 0;
    while i < l.entries.len()
        invariant
            i <= l.entries@.len(),
            forall|j: int|
                0 <= j < i ==> !((#[trigger] l.entries@[j]).kind is File && extension_of(
                    l.entries@[j].name@,
                ) == Some(ext@)),
        decreases l.entries@.len() - i,
    {
        let e = &l.entries[i];
        if let EntryKind::File = e.kind {
            if has_extension(e.name.as_str(), ext) {
                return true;
            }
        }
        i = i + 1;
    }
    false
}

/// Whether the directory directly holds a `.py` file (subdirectories are not
/// looked into).
pub fn has_python_file_in_top_level(l: &DirListing) -> (r: bool)
    ensures
        r == lists_file_with_extension(*l, "py"@),
{
    has_file_with_extension(l, "py")
}

/// Whether the marker is present in the directory that `l` lists.
pub fn marker_present(m: &Marker, l: &DirListing) -> (r: bool)
    ensures
        r == marker_holds(*m, *l),
{
    match m {
        Marker::ProjectInfo => has_entry(l, "project_info.toml"),
        Marker::Project(Ecosystem::Rust) => has_entry(l, "Cargo.toml") && has_dir(l, "src"),
        Marker::Project(Ecosystem::Python) => {
            has_entry(l, "requirements.txt") || has_entry(l, "setup.py")
                || has_python_file_in_top_level(l)
        },
        Marker::Project(Ecosystem::Go) => has_entry(l, "go.mod") || has_dir(l, "src"),
    }
}

/// Searches the starting directory `chain[0]` and its ancestors, at most
/// three directories, closest first, and returns the position of the first
/// one that has the marker.
pub fn locate(m: &Marker, chain: &Vec<DirListing>) -> (r: Option<usize>)
    ensures
        r matches Some(i) ==> located(*m, chain@) == Some(i as int),
        r is None ==> located(*m, chain@) is None,
        match r {
            Some(i) => i < SEARCH_DEPTH && i < chain@.len() && marker_holds(*m, chain@[i as int]) && forall|
                j: int,
            | 0 <= j < i ==> !marker_holds(*m, #[trigger] chain@[j]),
            None => forall|j: int|
                0 <= j < chain@.len() && j < SEARCH_DEPTH ==> !marker_holds(*m, #[trigger] chain@[j]),
        },
{
    let mut i: usize = 0;
    while i < SEARCH_DEPTH && i < chain.len()
        invariant
            i <= SEARCH_DEPTH,
            i <= chain@.len(),
            located(*m, chain@) == located_from(*m, chain@, i as int),
            forall|j: int| 0 <= j < i ==> !marker_holds(*m, #[trigger] chain@[j]),
        decreases SEARCH_DEPTH - i,
    {
        if marker_present(m, &chain[i]) {
            return Some(i);
        }
        i = i + 1;
    }
    None
}

/// Searches upward from `chain[0]` for `project_info.toml`.
pub fn find_project_info_toml(chain: &Vec<DirListing>) -> (r: Option<usize>)
    ensures
        r matches Some(i) ==> located(Marker::ProjectInfo, chain@) == Some(i as int),
        r is None ==> located(Marker::ProjectInfo, chain@) is None,
{
    locate(&Marker::ProjectInfo, chain)
}

/// Searches upward from `chain[0]` for a Rust project: `Cargo.toml` beside a
/// `src` directory.
pub fn find_rust_project(chain: &Vec<DirListing>) -> (r: Option<usize>)
    ensures
        r matches Some(i) ==> located(Marker::Project(Ecosystem::Rust), chain@) == Some(i as int),
        r is None ==> located(Marker::Project(Ecosystem::Rust), chain@) is None,
{
    locate(&Marker::Project(Ecosystem::Rust), chain)
}

/// Searches upward from `chain[0]` for a Python project: `requirements.txt`,
/// `setup.py`, or a `.py` file at the top level.
pub fn find_python_project(chain: &Vec<DirListing>) -> (r: Option<usize>)
    ensures
        r matches Some(i) ==> located(Marker::Project(Ecosystem::Python), chain@) == Some(
            i as int,
        ),
        r is None ==> located(Marker::Project(Ecosystem::Python), chain@) is None,
{
    locate(&Marker::Project(Ecosystem::Python), chain)
}

/// Searches upward from `chain[0]` for a Go project: `go.mod` or a `src`
/// directory.
pub fn find_go_project(chain: &Vec<DirListing>) -> (r: Option<usize>)
    ensures
        r matches Some(i) ==> located(Marker::Project(Ecosystem::Go), chain@) == Some(i as int),
        r is None ==> located(Marker::Project(Ecosystem::Go), chain@) is None,
{
    locate(&Marker::Project(Ecosystem::Go), chain)
}

/// The project that a run picks: the first ecosystem, in the order Rust,
/// Python, Go, whose search from `chain[0]` succeeds, with where it succeeded.
pub open spec fn detected(chain: Seq<DirListing>) -> Option<(Ecosystem, int)> {
    if let Some(i) = located(Marker::Project(Ecosystem::Rust), chain) {
        Some((Ecosystem::Rust, i))
    } else if let Some(i) = located(Marker::Project(Ecosystem::Python), chain) {
        Some((Ecosystem::Python, i))
    } else if let Some(i) = located(Marker::Project(Ecosystem::Go), chain) {
        Some((Ecosystem::Go, i))
    } else {
        None
    }
}

/// Tries each ecosystem in order of priority, each search starting again at
/// `chain[0]`, and stops at the first that finds its marker.
pub fn detect_project(chain: &Vec<DirListing>) -> (r: Option<(Ecosystem, usize)>)
    ensures
        r matches Some((e, i)) ==> detected(chain@) == Some((e, i as int)),
        r is None ==> detected(chain@) is None,
{
    if let Some(i) = find_rust_project(chain) {
        return Some((Ecosystem::Rust, i));
    }
    if let Some(i) = find_python_project(chain) {
        return Some((Ecosystem::Python, i));
    }
    if let Some(i) = find_go_project(chain) {
        return Some((Ecosystem::Go, i));
    }
    None
}

} // verus!
