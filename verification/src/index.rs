//! The module table: which file holds each module of a crate.

use vstd::prelude::*;
use vstd::string::*;
use crate::path::{child_path, copy_path, ModPath, PathView};
use crate::syntax::{Attribute, DirEntry, Item, SourceFile};
use crate::table::PathMap;
use crate::text::{same_text, texts};

verus! {

/// Where a module is found: the file that holds its text, and the module
/// that this file stands for. A module with a body inside another module's
/// file is found in that file.
#[derive(Debug)]
pub struct Location<'a> {
    pub file: &'a SourceFile,
    pub group: ModPath,
}

/// A location as contracts see it.
pub struct LocationView {
    pub file: SourceFile,
    pub group: PathView,
}

impl<'a> View for Location<'a> {
    type V = LocationView;

    open spec fn view(&self) -> LocationView {
        LocationView { file: *self.file, group: texts(self.group@) }
    }
}

/// What is known of the modules of a crate: where each is found, how each was
/// declared visible, and which macros are exported.
#[derive(Debug)]
pub struct ModIndex<'a> {
    pub locations: PathMap<Location<'a>>,
    pub visibility: PathMap<String>,
    pub macros: Vec<String>,
}

/// A module index as contracts see it.
pub struct Index {
    pub locations: Map<PathView, LocationView>,
    pub visibility: Map<PathView, Seq<char>>,
    pub macros: Seq<Seq<char>>,
}

impl<'a> View for ModIndex<'a> {
    type V = Index;

    open spec fn view(&self) -> Index {
        Index {
            locations: self.locations@,
            visibility: self.visibility@,
            macros: texts(self.macros@),
        }
    }
}

/// A file's name without its last three characters, the extension.
pub open spec fn stem(name: Seq<char>) -> Seq<char> {
    if name.len() >= 3 {
        name.take(name.len() - 3)
    } else {
        Seq::empty()
    }
}

/// The module that a file named `name` in the directory of module `path`
/// stands for: the directory's module itself where the file is called `mod`
/// or `lib`, else the module in it that is called as the file is.
pub open spec fn file_module(path: PathView, name: Seq<char>) -> PathView {
    if stem(name) == "mod"@ || stem(name) == "lib"@ {
        path
    } else {
        path.push(stem(name))
    }
}

/// Whether the attribute is a plain `#[macro_export]`.
pub open spec fn is_export(a: Attribute) -> bool {
    !a.inner && a.path@ == "macro_export"@ && a.arguments@.len() == 0
}

/// Whether one of the attributes exports the macro that carries it.
pub open spec fn exported(attributes: Seq<Attribute>) -> bool {
    exists|i: int| 0 <= i < attributes.len() && is_export(#[trigger] attributes[i])
}

/// The index after the declarations `items` of module `path`, which stand in
/// `file`, the file of module `group`: every module declared gets its
/// visibility noted, every module declared with a body is found in `file`,
/// and every exported macro is listed.
pub open spec fn index_items(
    items: Seq<Item>,
    path: PathView,
    file: SourceFile,
    group: PathView,
    ix: Index,
) -> Index
    decreases items,
{
    if items.len() == 0 {
        ix
    } else {
        let before = index_items(items.drop_last(), path, file, group, ix);
        match items.last() {
            Item::Mod { name, visibility, body, .. } => {
                let here = path.push(name@);
                let noted = Index {
                    visibility: before.visibility.insert(here, visibility@),
                    ..before
                };
                match body {
                    Some(inner) => index_items(
                        inner@,
                        here,
                        file,
                        group,
                        Index {
                            locations: noted.locations.insert(here, LocationView { file, group }),
                            ..noted
                        },
                    ),
                    None => noted,
                }
            },
            Item::Macro { ident: Some(name), attributes } => if exported(attributes@) {
                Index { macros: before.macros.push(name@), ..before }
            } else {
                before
            },
            _ => before,
        }
    }
}

/// The index after the file named `name`, found in the directory of module `path`.
pub open spec fn index_file(name: Seq<char>, source: SourceFile, path: PathView, ix: Index) -> Index {
    let here = file_module(path, name);
    index_items(
        source.items@,
        here,
        source,
        here,
        Index {
            locations: ix.locations.insert(here, LocationView { file: source, group: here }),
            ..ix
        },
    )
}

/// Whether an entry of a directory is passed over: at the top of the
/// crate's sources (`top`) the entry called `bin` is. What it holds are
/// programs of their own.
pub open spec fn is_left_out(top: bool, name: Seq<char>) -> bool {
    top && name == "bin"@
}

/// Whether an entry of a directory is passed over.
pub fn left_out(top: bool, name: &str) -> (r: bool)
    ensures
        r == is_left_out(top, name@),
{
    top && same_text(name, "bin")
}

/// The index after all that the directory of module `path` holds, but for
/// what is passed over. A directory inside it is the module of its name.
pub open spec fn index_entries(entries: Seq<DirEntry>, path: PathView, top: bool, ix: Index) -> Index
    decreases entries,
{
    if entries.len() == 0 {
        ix
    } else {
        let before = index_entries(entries.drop_last(), path, top, ix);
        match entries.last() {
            DirEntry::Dir { name, entries: inner } => if is_left_out(top, name@) {
                before
            } else {
                index_entries(inner@, path.push(name@), false, before)
            },
            DirEntry::File { name, source } => if is_left_out(top, name@) {
                before
            } else {
                index_file(name@, source, path, before)
            },
        }
    }
}

/// Whether one of the attributes exports the macro that carries it.
fn is_exported(attributes: &Vec<Attribute>) -> (r: bool)
    ensures
        r == exported(attributes@),
{
    let mut i: usize = 0;
    while i < attributes.len()
        invariant
            i <= attributes.len(),
            forall|j: int| 0 <= j < i ==> !is_export(#[trigger] attributes[j]),
        decreases attributes.len() - i,
    {
        let a = &attributes[i];
        if !a.inner && same_text(a.path.as_str(), "macro_export") && a.arguments.as_str().is_empty() {
            return true;
        }
        i += 1;
    }
    false
}

/// Enters the declarations `items` of module `path` into the index.
fn scan_items<'a>(
    items: &Vec<Item>,
    path: &ModPath,
    file: &'a SourceFile,
    group: &ModPath,
    ix: &mut ModIndex<'a>,
)
    ensures
        final(ix)@ == index_items(items@, texts(path@), *file, texts(group@), old(ix)@),
    decreases items,
{
    let ghost start = ix@;
    let mut i: usize = 0;
    while i < items.len()
        invariant
            i <= items.len(),
            ix@ == index_items(items@.take(i as int), texts(path@), *file, texts(group@), start),
        decreases items.len() - i,
    {
        assert(items@.take(i + 1).drop_last() == items@.take(i as int));
        assert(items@.take(i + 1).last() == items@[i as int]);
        match &items[i] {
            Item::Mod { name, visibility, body, .. } => {
                let here = child_path(path.as_slice(), name.as_str());
                ix.visibility.insert(copy_path(here.as_slice()), visibility.clone());
                match body {
                    Some(inner) => {
                        ix.locations.insert(
                            copy_path(here.as_slice()),
                            Location { file, group: copy_path(group.as_slice()) },
                        );
                        scan_items(inner, &here, file, group, ix);
                    },
                    None => {},
                }
            },
            Item::Macro { ident: Some(name), attributes } => {
                if is_exported(attributes) {
                    let ghost before = texts(ix.macros@);
                    ix.macros.push(name.clone());
                    assert(texts(ix.macros@) == before.push(name@));
                }
            },
            _ => {},
        }
        i += 1;
    }
    assert(items@.take(items.len() as int) == items@);
}

/// The module that a file stands for.
fn module_of_file(path: &ModPath, name: &str) -> (r: ModPath)
    ensures
        texts(r@) == file_module(texts(path@), name@),
{
    let n = name.unicode_len();
    let short = if n >= 3 {
        name.substring_char(0, n - 3)
    } else {
        ""
    };
    proof {
        reveal_strlit("");
        assert(short@ == stem(name@));
    }
    if same_text(short, "mod") || same_text(short, "lib") {
        copy_path(path.as_slice())
    } else {
        child_path(path.as_slice(), short)
    }
}

/// Enters a file and its declarations into the index.
fn scan_file<'a>(name: &str, source: &'a SourceFile, path: &ModPath, ix: &mut ModIndex<'a>)
    ensures
        final(ix)@ == index_file(name@, *source, texts(path@), old(ix)@),
{
    let here = module_of_file(path, name);
    ix.locations.insert(
        copy_path(here.as_slice()),
        Location { file: source, group: copy_path(here.as_slice()) },
    );
    scan_items(&source.items, &here, source, &here, ix);
}

/// Enters all that a directory holds into the index.
pub(crate) fn scan_entries<'a>(entries: &'a Vec<DirEntry>, path: &ModPath, top: bool, ix: &mut ModIndex<'a>)
    ensures
        final(ix)@ == index_entries(entries@, texts(path@), top, old(ix)@),
    decreases entries,
{
    let ghost start = ix@;
    let mut i: usize = 0;
    while i < entries.len()
        invariant
            i <= entries.len(),
            ix@ == index_entries(entries@.take(i as int), texts(path@), top, start),
        decreases entries.len() - i,
    {
        assert(entries@.take(i + 1).drop_last() == entries@.take(i as int));
        assert(entries@.take(i + 1).last() == entries@[i as int]);
        match &entries[i] {
            DirEntry::Dir { name, entries: inner } => {
                if !left_out(top, name.as_str()) {
                    let here = child_path(path.as_slice(), name.as_str());
                    scan_entries(inner, &here, false, ix);
                }
            },
            DirEntry::File { name, source } => {
                if !left_out(top, name.as_str()) {
                    scan_file(name.as_str(), source, path, ix);
                }
            },
        }
        i += 1;
    }
    assert(entries@.take(entries.len() as int) == entries@);
}

} // verus!
