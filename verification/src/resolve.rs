//! What an import names, and which modules the imports of a module lead to.

use itertools::Itertools;
use vstd::prelude::*;
use vstd::string::*;
use crate::error::{Error, Failure};
use crate::index::{Index, Location, LocationView, ModIndex};
use crate::path::{child_path, copy_path, first_seen, paths, ModPath, PathView};
use crate::syntax::{Item, SourceFile, UseTree};
use crate::table::PathMap;
use crate::text::{has_text, same_text, texts};

verus! {

/// Takes one name of an import into account. `acc` is the module reached so
/// far. The root keyword leads to the crate's own name, `self` stays where it
/// is, `super` goes one module up, and any other name goes one module down.
/// There is no way up from the top.
pub open spec fn canonical_step(acc: Option<PathView>, name: Seq<char>, crate_name: Seq<char>) -> Option<
    PathView,
> {
    match acc {
        None => None,
        Some(p) => if name == "crate"@ {
            Some(p.push(crate_name))
        } else if name == "self"@ {
            Some(p)
        } else if name == "super"@ {
            if p.len() == 0 {
                None
            } else {
                Some(p.drop_last())
            }
        } else {
            Some(p.push(name))
        },
    }
}

/// Where the names of `path` lead from `acc`.
pub open spec fn canonical_from(acc: Option<PathView>, path: PathView, crate_name: Seq<char>) -> Option<
    PathView,
>
    decreases path.len(),
{
    if path.len() == 0 {
        acc
    } else {
        canonical_step(canonical_from(acc, path.drop_last(), crate_name), path.last(), crate_name)
    }
}

/// Whether an import is written relative to the module in which it stands.
pub open spec fn is_relative(path: PathView) -> bool {
    path.len() > 0 && (path[0] == "self"@ || path[0] == "super"@)
}

/// The path that an import written in module `at` names, from the crate's
/// name down; `None` where the import climbs above the top.
pub open spec fn canonical(path: PathView, at: PathView, crate_name: Seq<char>) -> Option<PathView> {
    canonical_from(
        Some(
            if is_relative(path) {
                at
            } else {
                Seq::empty()
            },
        ),
        path,
        crate_name,
    )
}

/// The length of the longest beginning of `path`, of `n` names at most, for
/// which the table has a location; zero where it has none.
pub open spec fn matched(table: Map<PathView, LocationView>, path: PathView, n: int) -> int
    decreases n,
{
    if n <= 0 {
        0
    } else if table.contains_key(path.take(n)) {
        n
    } else {
        matched(table, path, n - 1)
    }
}

/// Where the longest known beginning of `path` is found.
pub open spec fn prefix_location(table: Map<PathView, LocationView>, path: PathView) -> Option<
    LocationView,
> {
    let n = matched(table, path, path.len() as int);
    if n > 0 {
        Some(table[path.take(n)])
    } else {
        None
    }
}

/// Where no longer beginning is known, `matched` finds the known one.
proof fn lemma_matched_down(table: Map<PathView, LocationView>, path: PathView, n: int, k: int)
    requires
        0 < n <= k,
        table.contains_key(path.take(n)),
        forall|m: int| n < m <= k ==> !table.contains_key(#[trigger] path.take(m)),
    ensures
        matched(table, path, k) == n,
    decreases k - n,
{
    if k > n {
        lemma_matched_down(table, path, n, k - 1);
    }
}

/// A path that names a thing inside a known module is found where the
/// nearest known module around that thing is.
pub proof fn lemma_nearest_ancestor(table: Map<PathView, LocationView>, path: PathView, n: int)
    requires
        0 < n <= path.len(),
        table.contains_key(path.take(n)),
        forall|m: int| n < m <= path.len() ==> !table.contains_key(#[trigger] path.take(m)),
    ensures
        prefix_location(table, path) == Some(table[path.take(n)]),
{
    lemma_matched_down(table, path, n, path.len() as int);
}

/// Where the module is found that holds what `path`, written in module `at`,
/// names. A path may name a thing inside a module, so the longest beginning
/// that is a known module counts. Where no beginning is one, the path is
/// taken as an import and tried once more in its canonical form.
pub open spec fn located(
    table: Map<PathView, LocationView>,
    path: PathView,
    at: PathView,
    crate_name: Seq<char>,
) -> Result<LocationView, Failure> {
    match prefix_location(table, path) {
        Some(found) => Ok(found),
        None => match canonical(path, at, crate_name) {
            None => Err(Failure::MalformedRelativeImport { path }),
            Some(full) => match prefix_location(table, full) {
                Some(found) => Ok(found),
                None => Err(Failure::UnresolvedImport { path }),
            },
        },
    }
}

/// The paths that an import tree names, each behind `prefix`. A wildcard
/// names the module that it stands in.
pub open spec fn tree_paths(tree: UseTree, prefix: PathView) -> Seq<PathView>
    decreases tree,
{
    match tree {
        UseTree::Path { ident, tree: rest } => tree_paths(*rest, prefix.push(ident.name@)),
        UseTree::Name { ident } => seq![prefix.push(ident.name@)],
        UseTree::Rename { ident } => seq![prefix.push(ident.name@)],
        UseTree::Glob => seq![prefix],
        UseTree::Group { items } => group_paths(items@, prefix),
    }
}

/// The paths that the trees of a group name.
pub open spec fn group_paths(trees: Seq<UseTree>, prefix: PathView) -> Seq<PathView>
    decreases trees,
{
    if trees.len() == 0 {
        Seq::empty()
    } else {
        group_paths(trees.drop_last(), prefix) + tree_paths(trees.last(), prefix)
    }
}

/// The paths that the imports among `items` name, those in the bodies of
/// modules included, in the order of the text.
pub open spec fn use_paths(items: Seq<Item>) -> Seq<PathView>
    decreases items,
{
    if items.len() == 0 {
        Seq::empty()
    } else {
        let before = use_paths(items.drop_last());
        match items.last() {
            Item::Use { tree } => before + tree_paths(tree, Seq::empty()),
            Item::Mod { body: Some(inner), .. } => before + use_paths(inner@),
            _ => before,
        }
    }
}

/// Appends the paths that an import tree names.
fn collect_tree(tree: &UseTree, prefix: &ModPath, buf: &mut Vec<ModPath>)
    ensures
        paths(final(buf)@) == paths(old(buf)@) + tree_paths(*tree, texts(prefix@)),
    decreases tree,
{
    let ghost start = paths(buf@);
    match tree {
        UseTree::Path { ident, tree: rest } => {
            let longer = child_path(prefix.as_slice(), ident.name.as_str());
            collect_tree(rest, &longer, buf);
        },
        UseTree::Name { ident } => {
            buf.push(child_path(prefix.as_slice(), ident.name.as_str()));
            assert(paths(buf@) == start.push(texts(prefix@).push(ident.name@)));
        },
        UseTree::Rename { ident } => {
            buf.push(child_path(prefix.as_slice(), ident.name.as_str()));
            assert(paths(buf@) == start.push(texts(prefix@).push(ident.name@)));
        },
        UseTree::Glob => {
            buf.push(copy_path(prefix.as_slice()));
            assert(paths(buf@) == start.push(texts(prefix@)));
        },
        UseTree::Group { items } => {
            collect_group(items, prefix, buf);
        },
    }
}

/// Appends the paths that the trees of a group name.
fn collect_group(trees: &Vec<UseTree>, prefix: &ModPath, buf: &mut Vec<ModPath>)
    ensures
        paths(final(buf)@) == paths(old(buf)@) + group_paths(trees@, texts(prefix@)),
    decreases trees,
{
    let ghost start = paths(buf@);
    let mut i: usize = 0;
    while i < trees.len()
        invariant
            i <= trees.len(),
            paths(buf@) == start + group_paths(trees@.take(i as int), texts(prefix@)),
        decreases trees.len() - i,
    {
        assert(trees@.take(i + 1).drop_last() == trees@.take(i as int));
        assert(trees@.take(i + 1).last() == trees@[i as int]);
        collect_tree(&trees[i], prefix, buf);
        i += 1;
    }
    assert(trees@.take(trees.len() as int) == trees@);
}

/// Appends the paths that the imports among `items` name.
fn collect_uses(items: &Vec<Item>, buf: &mut Vec<ModPath>)
    ensures
        paths(final(buf)@) == paths(old(buf)@) + use_paths(items@),
    decreases items,
{
    let ghost start = paths(buf@);
    let mut i: usize = 0;
    while i < items.len()
        invariant
            i <= items.len(),
            paths(buf@) == start + use_paths(items@.take(i as int)),
        decreases items.len() - i,
    {
        assert(items@.take(i + 1).drop_last() == items@.take(i as int));
        assert(items@.take(i + 1).last() == items@[i as int]);
        match &items[i] {
            Item::Use { tree } => {
                let top: ModPath = Vec::new();
                assert(texts(top@) == Seq::<Seq<char>>::empty());
                collect_tree(tree, &top, buf);
            },
            Item::Mod { body: Some(inner), .. } => {
                collect_uses(inner, buf);
            },
            _ => {},
        }
        i += 1;
    }
    assert(items@.take(items.len() as int) == items@);
}

/// Lists the paths that the imports of a file name.
pub fn visit_use_file(file: &SourceFile) -> (r: Vec<ModPath>)
    ensures
        paths(r@) == use_paths(file.items@),
{
    let mut buf: Vec<ModPath> = Vec::new();
    collect_uses(&file.items, &mut buf);
    buf
}

/// Whether an import stays inside the crate: it begins with the crate's
/// name or with one of the words `crate`, `self`, `super`.
pub open spec fn is_local(path: PathView, crate_name: Seq<char>) -> bool {
    path.len() > 0 && (path[0] == crate_name || path[0] == "crate"@ || path[0] == "self"@ || path[0]
        == "super"@)
}

/// Whether an import that is not followed is worth a warning: it leads out
/// of the crate, and not into `std` or `core`.
pub open spec fn is_warned(path: PathView, crate_name: Seq<char>) -> bool {
    path.len() > 0 && !is_local(path, crate_name) && path[0] != "std"@ && path[0] != "core"@
}

/// Those of `raws` that stay inside the crate, in order.
pub open spec fn local_paths(raws: Seq<PathView>, crate_name: Seq<char>) -> Seq<PathView>
    decreases raws.len(),
{
    if raws.len() == 0 {
        Seq::empty()
    } else if is_local(raws.last(), crate_name) {
        local_paths(raws.drop_last(), crate_name).push(raws.last())
    } else {
        local_paths(raws.drop_last(), crate_name)
    }
}

/// The first names of those of `raws` that are worth a warning, in order.
pub open spec fn warned_roots(raws: Seq<PathView>, crate_name: Seq<char>) -> Seq<Seq<char>>
    decreases raws.len(),
{
    if raws.len() == 0 {
        Seq::empty()
    } else if is_warned(raws.last(), crate_name) {
        warned_roots(raws.drop_last(), crate_name).push(raws.last()[0])
    } else {
        warned_roots(raws.drop_last(), crate_name)
    }
}

/// What becomes of one import written in module `at`: the module to visit
/// for it, or none where the import leads out of the crate or names an
/// exported macro at the root.
pub open spec fn import_target(ix: Index, crate_name: Seq<char>, raw: PathView, at: PathView) -> Result<
    Option<PathView>,
    Failure,
> {
    match canonical(raw, at, crate_name) {
        None => Err(Failure::MalformedRelativeImport { path: raw }),
        Some(full) => if !is_local(full, crate_name) {
            Ok(None)
        } else if full.len() == 2 && ix.macros.contains(full[1]) {
            Ok(None)
        } else {
            match located(ix.locations, full, at, crate_name) {
                Ok(found) => Ok(Some(found.group)),
                Err(e) => Err(e),
            }
        },
    }
}

/// The modules to visit for the imports `raws` written in module `at`, in
/// order; the first import that cannot be resolved gives the error.
pub open spec fn import_targets(ix: Index, crate_name: Seq<char>, raws: Seq<PathView>, at: PathView) -> Result<
    Seq<PathView>,
    Failure,
>
    decreases raws.len(),
{
    if raws.len() == 0 {
        Ok(Seq::empty())
    } else {
        match import_targets(ix, crate_name, raws.drop_last(), at) {
            Err(e) => Err(e),
            Ok(before) => match import_target(ix, crate_name, raws.last(), at) {
                Err(e) => Err(e),
                Ok(None) => Ok(before),
                Ok(Some(target)) => Ok(before.push(target)),
            },
        }
    }
}

/// The first names of the imports among `raws` that lead out of the crate
/// and are worth a warning, as far as the imports can be made canonical.
pub open spec fn import_warnings(crate_name: Seq<char>, raws: Seq<PathView>, at: PathView) -> Seq<
    Seq<char>,
>
    decreases raws.len(),
{
    if raws.len() == 0 {
        Seq::empty()
    } else {
        let before = import_warnings(crate_name, raws.drop_last(), at);
        match canonical(raws.last(), at, crate_name) {
            Some(full) => if is_warned(full, crate_name) {
                before.push(full[0])
            } else {
                before
            },
            None => before,
        }
    }
}

/// The modules that module `path` leads to by its imports, each once, in the
/// order of their first mention.
pub open spec fn imports_of(ix: Index, crate_name: Seq<char>, path: PathView) -> Result<
    Seq<PathView>,
    Failure,
> {
    match located(ix.locations, path, path, crate_name) {
        Err(e) => Err(e),
        Ok(found) => match import_targets(ix, crate_name, use_paths(found.file.items@), path) {
            Err(e) => Err(e),
            Ok(targets) => Ok(first_seen(targets)),
        },
    }
}

/// The warnings that the imports of module `path` give rise to.
pub open spec fn warnings_of(ix: Index, crate_name: Seq<char>, path: PathView) -> Seq<Seq<char>> {
    match located(ix.locations, path, path, crate_name) {
        Err(e) => Seq::empty(),
        Ok(found) => import_warnings(crate_name, use_paths(found.file.items@), path),
    }
}

/// `Itertools::unique` hands on each item of the iterator the first time it
/// comes, and leaves out an item equal to one that came before. So the
/// result holds the paths of `list` in their order, each once.
#[verifier::external_body]
pub(crate) fn unique_paths(list: Vec<ModPath>) -> (r: Vec<ModPath>)
    ensures
        paths(r@) == first_seen(paths(list@)),
{
    list.into_iter().unique().collect()
}

/// An import that climbs too far at some name stays too far up.
proof fn lemma_canonical_stuck(acc: Option<PathView>, path: PathView, i: int, crate_name: Seq<char>)
    requires
        0 <= i <= path.len(),
        canonical_from(acc, path.take(i), crate_name) is None,
    ensures
        canonical_from(acc, path, crate_name) is None,
    decreases path.len() - i,
{
    if i == path.len() {
        assert(path.take(i) == path);
    } else {
        assert(path.take(i + 1).drop_last() == path.take(i));
        lemma_canonical_stuck(acc, path, i + 1, crate_name);
    }
}

/// Looks up the longest beginning of `path` that the table knows.
fn find_prefix<'a, 'b>(table: &'b PathMap<Location<'a>>, path: &[String]) -> (r: Option<&'b Location<'a>>)
    ensures
        match prefix_location(table@, texts(path@)) {
            Some(v) => r matches Some(l) && l@ == v,
            None => r is None,
        },
{
    let mut i: usize = path.len();
    while i > 0
        invariant
            i <= path.len(),
            matched(table@, texts(path@), path.len() as int) == matched(table@, texts(path@), i as int),
        decreases i,
    {
        let (head, _) = path.split_at(i);
        assert(texts(head@) == texts(path@).take(i as int));
        match table.get(head) {
            Some(l) => {
                return Some(l);
            },
            None => {},
        }
        i -= 1;
    }
    None
}

/// An error among the first imports is the error of them all.
proof fn lemma_targets_stuck(ix: Index, crate_name: Seq<char>, raws: Seq<PathView>, i: int, at: PathView)
    requires
        0 <= i <= raws.len(),
        import_targets(ix, crate_name, raws.take(i), at) is Err,
    ensures
        import_targets(ix, crate_name, raws, at) == import_targets(ix, crate_name, raws.take(i), at),
    decreases raws.len() - i,
{
    if i == raws.len() {
        assert(raws.take(i) == raws);
    } else {
        assert(raws.take(i + 1).drop_last() == raws.take(i));
        lemma_targets_stuck(ix, crate_name, raws, i + 1, at);
    }
}

/// The path that an import written in module `at` names, from the
/// crate's name down.
pub fn canonicalize(crate_name: &str, path: &[String], at: &[String]) -> (r: Result<ModPath, Error>)
    ensures
        match canonical(texts(path@), texts(at@), crate_name@) {
            Some(full) => r matches Ok(p) && texts(p@) == full,
            None => r matches Err(e) && e@ == (Failure::MalformedRelativeImport {
                path: texts(path@),
            }),
        },
{
    let relative = path.len() > 0 && (same_text(path[0].as_str(), "self") || same_text(
        path[0].as_str(),
        "super",
    ));
    proof {
        if path.len() > 0 {
            assert(texts(path@)[0] == path[0]@);
        }
    }
    let mut res: ModPath = if relative {
        copy_path(at)
    } else {
        Vec::new()
    };
    let ghost seed = Some(texts(res@));
    let ghost name = crate_name@;
    proof {
        if !relative {
            assert(texts(res@) == Seq::<Seq<char>>::empty());
        }
        assert(relative == is_relative(texts(path@)));
        assert(texts(path@).take(0).len() == 0);
    }
    let mut i: usize = 0;
    while i < path.len()
        invariant
            i <= path.len(),
            name == crate_name@,
            canonical(texts(path@), texts(at@), name) == canonical_from(seed, texts(path@), name),
            canonical_from(seed, texts(path@).take(i as int), name) == Some(texts(res@)),
        decreases path.len() - i,
    {
        let word = path[i].as_str();
        let ghost before = texts(res@);
        assert(texts(path@).take(i + 1).drop_last() == texts(path@).take(i as int));
        assert(texts(path@).take(i + 1).last() == word@);
        if same_text(word, "crate") {
            res.push(crate_name.to_owned());
            assert(texts(res@) == before.push(name));
        } else if same_text(word, "self") {
        } else if same_text(word, "super") {
            if res.len() == 0 {
                proof {
                    assert(canonical_from(seed, texts(path@).take(i + 1), name)
                        == canonical_step(Some(before), word@, name));
                    lemma_canonical_stuck(seed, texts(path@), i + 1, name);
                }
                return Err(Error::MalformedRelativeImport { path: copy_path(path) });
            }
            res.pop();
            assert(texts(res@) == before.drop_last());
        } else {
            res.push(word.to_owned());
            assert(texts(res@) == before.push(word@));
        }
        i += 1;
    }
    assert(texts(path@).take(path.len() as int) == texts(path@));
    Ok(res)
}

/// Where the module is found that holds what `mod_path`, written in
/// module `at`, names.
pub fn find_mod_file<'a, 'b>(
    index: &'b ModIndex<'a>,
    crate_name: &str,
    mod_path: &[String],
    at: &[String],
) -> (r: Result<&'b Location<'a>, Error>)
    ensures
        match located(index@.locations, texts(mod_path@), texts(at@), crate_name@) {
            Ok(v) => r matches Ok(l) && l@ == v,
            Err(e) => r matches Err(x) && x@ == e,
        },
{
    match find_prefix(&index.locations, mod_path) {
        Some(l) => Ok(l),
        None => {
            match canonicalize(crate_name, mod_path, at) {
                Err(e) => Err(e),
                Ok(full) => match find_prefix(&index.locations, full.as_slice()) {
                    Some(l) => Ok(l),
                    None => Err(Error::UnresolvedImport { path: copy_path(mod_path) }),
                },
            }
        },
    }
}

/// Lists the modules that module `path` leads to by its imports, and the
/// first names of the imports that lead out of the crate and are worth a
/// warning.
pub fn visit_use(index: &ModIndex, crate_name: &str, path: &[String]) -> (r: Result<
    (Vec<ModPath>, Vec<String>),
    Error,
>)
    ensures
        match imports_of(index@, crate_name@, texts(path@)) {
            Ok(targets) => r matches Ok(found) && paths(found.0@) == targets && texts(found.1@)
                == warnings_of(index@, crate_name@, texts(path@)),
            Err(e) => r matches Err(x) && x@ == e,
        },
{
    let file = match find_mod_file(index, crate_name, path, path) {
        Ok(l) => l.file,
        Err(e) => {
            return Err(e);
        },
    };
    let raws = visit_use_file(file);
    let ghost ix = index@;
    let ghost name = crate_name@;
    let ghost at = texts(path@);
    let mut targets: Vec<ModPath> = Vec::new();
    let mut skipped: Vec<String> = Vec::new();
    proof {
        assert(paths(targets@) == Seq::<PathView>::empty());
        assert(texts(skipped@) == Seq::<Seq<char>>::empty());
        assert(paths(raws@).take(0).len() == 0);
    }
    let mut i: usize = 0;
    while i < raws.len()
        invariant
            i <= raws.len(),
            ix == index@,
            name == crate_name@,
            at == texts(path@),
            located(ix.locations, at, at, name) matches Ok(found) && use_paths(found.file.items@)
                == paths(raws@),
            import_targets(ix, name, paths(raws@).take(i as int), at) == Ok::<Seq<PathView>, Failure>(
                paths(targets@),
            ),
            texts(skipped@) == import_warnings(name, paths(raws@).take(i as int), at),
        decreases raws.len() - i,
    {
        let raw = &raws[i];
        assert(paths(raws@).take(i + 1).drop_last() == paths(raws@).take(i as int));
        assert(paths(raws@).take(i + 1).last() == texts(raw@));
        let full = match canonicalize(crate_name, raw.as_slice(), path) {
            Ok(p) => p,
            Err(e) => {
                proof {
                    assert(import_target(ix, name, texts(raw@), at) is Err);
                    assert(import_targets(ix, name, paths(raws@).take(i + 1), at) is Err);
                    lemma_targets_stuck(ix, name, paths(raws@), i + 1, at);
                }
                return Err(e);
            },
        };
        let local = full.len() > 0 && (same_text(full[0].as_str(), crate_name)
            || same_text(full[0].as_str(), "crate") || same_text(full[0].as_str(), "self")
            || same_text(full[0].as_str(), "super"));
        proof {
            if full.len() > 0 {
                assert(texts(full@)[0] == full[0]@);
            }
            if full.len() > 1 {
                assert(texts(full@)[1] == full[1]@);
            }
        }
        if !local {
            if full.len() > 0 && !same_text(full[0].as_str(), "std") && !same_text(
                full[0].as_str(),
                "core",
            ) {
                let ghost before = texts(skipped@);
                skipped.push(full[0].clone());
                assert(texts(skipped@) == before.push(full[0]@));
            }
        } else if full.len() == 2 && has_text(index.macros.as_slice(), full[1].as_str()) {
        } else {
            match find_mod_file(index, crate_name, full.as_slice(), path) {
                Ok(l) => {
                    let ghost before = paths(targets@);
                    targets.push(copy_path(l.group.as_slice()));
                    assert(paths(targets@) == before.push(texts(l.group@)));
                },
                Err(e) => {
                    proof {
                        assert(import_target(ix, name, texts(raw@), at) is Err);
                        assert(import_targets(ix, name, paths(raws@).take(i + 1), at) is Err);
                        lemma_targets_stuck(ix, name, paths(raws@), i + 1, at);
                    }
                    return Err(e);
                },
            }
        }
        i += 1;
    }
    assert(paths(raws@).take(raws.len() as int) == paths(raws@));
    Ok((unique_paths(targets), skipped))
}

/// An import that names an exported macro at the root of the crate leads
/// to no module: the macro is known everywhere in the bundle.
pub proof fn lemma_macro_import_not_followed(
    ix: Index,
    crate_name: Seq<char>,
    raw: PathView,
    at: PathView,
)
    requires
        canonical(raw, at, crate_name) matches Some(full) && full.len() == 2 && ix.macros.contains(
            full[1],
        ),
    ensures
        import_target(ix, crate_name, raw, at) == Ok::<Option<PathView>, Failure>(None),
{
}

/// Whether none of the names is the root keyword.
pub open spec fn no_root_keyword(path: PathView) -> bool {
    forall|i: int| 0 <= i < path.len() ==> #[trigger] path[i] != "crate"@
}

/// Whether a name is one of the words that an import may begin with in
/// place of a name.
pub open spec fn is_keyword(name: Seq<char>) -> bool {
    name == "crate"@ || name == "self"@ || name == "super"@
}

/// The root keyword is neither `self` nor `super`.
proof fn lemma_root_keyword()
    ensures
        "crate"@ != "self"@,
        "crate"@ != "super"@,
{
    reveal_strlit("crate");
    reveal_strlit("self");
    reveal_strlit("super");
    assert("crate"@.len() != "self"@.len());
    assert("crate"@[0] != "super"@[0]);
}

/// The first name of an import can be taken into account first.
proof fn lemma_canonical_front(
    acc: Option<PathView>,
    first: Seq<char>,
    rest: PathView,
    crate_name: Seq<char>,
)
    ensures
        canonical_from(acc, seq![first] + rest, crate_name) == canonical_from(
            canonical_step(acc, first, crate_name),
            rest,
            crate_name,
        ),
    decreases rest.len(),
{
    let whole = seq![first] + rest;
    if rest.len() == 0 {
        assert(whole.drop_last() == Seq::<Seq<char>>::empty());
        assert(whole.last() == first);
        assert(canonical_from(acc, whole.drop_last(), crate_name) == acc);
    } else {
        assert(whole.drop_last() == seq![first] + rest.drop_last());
        assert(whole.last() == rest.last());
        lemma_canonical_front(acc, first, rest.drop_last(), crate_name);
    }
}

/// An import without the root keyword leads to the same module when the
/// module it starts from lies deeper: only the way down to it is longer.
proof fn lemma_canonical_under(
    outside: PathView,
    acc: PathView,
    rest: PathView,
    inner: Seq<char>,
    outer: Seq<char>,
)
    requires
        no_root_keyword(rest),
        canonical_from(Some(acc), rest, inner) is Some,
    ensures
        canonical_from(Some(outside + acc), rest, outer) == Some(
            outside + canonical_from(Some(acc), rest, inner)->Some_0,
        ),
    decreases rest.len(),
{
    if rest.len() > 0 {
        let front = rest.drop_last();
        let name = rest.last();
        assert(name == rest[rest.len() - 1]);
        assert(no_root_keyword(front)) by {
            assert forall|i: int| 0 <= i < front.len() implies #[trigger] front[i] != "crate"@ by {
                assert(front[i] == rest[i]);
            }
        }
        lemma_canonical_under(outside, acc, front, inner, outer);
        let x = canonical_from(Some(acc), front, inner)->Some_0;
        if name == "self"@ {
        } else if name == "super"@ {
            assert((outside + x).drop_last() == outside + x.drop_last());
        } else {
            assert((outside + x).push(name) == outside + x.push(name));
        }
    }
}

/// Where a rewritten import leads in the bundle.
proof fn lemma_rewritten(rest: PathView, at: PathView, root: Seq<char>, outer: Seq<char>)
    requires
        !is_keyword(root),
        no_root_keyword(rest),
        canonical_from(Some(seq![root]), rest, root) is Some,
    ensures
        canonical(seq!["crate"@, root] + rest, at, outer) == Some(
            seq![outer] + canonical_from(Some(seq![root]), rest, root)->Some_0,
        ),
{
    lemma_root_keyword();
    let empty = Seq::<Seq<char>>::empty();
    let path = seq!["crate"@, root] + rest;
    assert(path == seq!["crate"@] + (seq![root] + rest));
    assert(path[0] == "crate"@);
    assert(!is_relative(path));
    lemma_canonical_front(Some(empty), "crate"@, seq![root] + rest, outer);
    assert(canonical_step(Some(empty), "crate"@, outer) == Some(empty.push(outer)));
    lemma_canonical_front(Some(empty.push(outer)), root, rest, outer);
    assert(canonical_step(Some(empty.push(outer)), root, outer) == Some(empty.push(outer).push(root)));
    assert(empty.push(outer).push(root) == seq![outer] + seq![root]);
    lemma_canonical_under(seq![outer], seq![root], rest, root, outer);
}

/// An import inside the crate that begins with the root keyword names,
/// once it is rewritten, in the bundle what it named in the crate.
///
/// In the crate called `root` the import `crate::rest` names the module
/// `p`, counted from `root`. In the bundle the crate is a module called
/// `root` at the top of a crate `outer`, and the import reads
/// `crate::root::rest`: it names `outer::p`, which is that module.
pub proof fn lemma_internal_rewrite(
    rest: PathView,
    at: PathView,
    at_bundled: PathView,
    root: Seq<char>,
    outer: Seq<char>,
)
    requires
        !is_keyword(root),
        no_root_keyword(rest),
        canonical(seq!["crate"@] + rest, at, root) is Some,
    ensures
        canonical(seq!["crate"@, root] + rest, at_bundled, outer) == Some(
            seq![outer] + canonical(seq!["crate"@] + rest, at, root)->Some_0,
        ),
{
    lemma_root_keyword();
    let empty = Seq::<Seq<char>>::empty();
    let path = seq!["crate"@] + rest;
    assert(path[0] == "crate"@);
    assert(!is_relative(path));
    lemma_canonical_front(Some(empty), "crate"@, rest, root);
    assert(canonical_step(Some(empty), "crate"@, root) == Some(empty.push(root)));
    assert(empty.push(root) == seq![root]);
    lemma_rewritten(rest, at_bundled, root, outer);
}

/// An import of the entry file that begins with the crate's name names,
/// once it is rewritten, in the bundle what it named before.
///
/// Beside the crate called `root` the import `root::rest` names the module
/// `p` of that crate, counted from `root`. In the bundle the crate is a
/// module called `root` at the top of the crate `outer` of the entry file,
/// and the import reads `crate::root::rest`: it names `outer::p`.
pub proof fn lemma_external_rewrite(
    rest: PathView,
    at: PathView,
    at_bundled: PathView,
    root: Seq<char>,
    outer: Seq<char>,
)
    requires
        !is_keyword(root),
        no_root_keyword(rest),
        canonical(seq![root] + rest, at, root) is Some,
    ensures
        canonical(seq!["crate"@, root] + rest, at_bundled, outer) == Some(
            seq![outer] + canonical(seq![root] + rest, at, root)->Some_0,
        ),
{
    let empty = Seq::<Seq<char>>::empty();
    let path = seq![root] + rest;
    assert(path[0] == root);
    assert(!is_relative(path));
    lemma_canonical_front(Some(empty), root, rest, root);
    assert(canonical_step(Some(empty), root, root) == Some(empty.push(root)));
    assert(empty.push(root) == seq![root]);
    lemma_rewritten(rest, at_bundled, root, outer);
}

} // verus!
