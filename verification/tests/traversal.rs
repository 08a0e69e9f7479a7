use auto_bundle::compile::{compile, compile_entry, join_bundle};
use auto_bundle::error::Error;
use auto_bundle::path::{rank_path, rank_text, same_path, sort_dedup, ModPath, Rank};
use auto_bundle::syntax::{Attribute, DirEntry, Ident, Item, Position, SourceFile, UseTree};
use auto_bundle::table::PathMap;
use auto_bundle::resolve::visit_use_file;
use auto_bundle::traverse::Traverse;

fn spot(line: usize, column: usize) -> Position {
    Position { line, column }
}

fn name_at(name: &str, line: usize, column: usize) -> Ident {
    Ident { name: name.to_string(), start: spot(line, column), end: spot(line, column + name.chars().count()) }
}

fn path_of(names: &[&str]) -> ModPath {
    names.iter().map(|n| n.to_string()).collect()
}

fn chain(names: &[&str], line: usize, column: usize) -> UseTree {
    let mut columns = Vec::new();
    let mut c = column;
    for n in names {
        columns.push(c);
        c += n.chars().count() + 2;
    }
    let last = names.len() - 1;
    let mut tree = UseTree::Name { ident: name_at(names[last], line, columns[last]) };
    for i in (0..last).rev() {
        tree = UseTree::Path { ident: name_at(names[i], line, columns[i]), tree: Box::new(tree) };
    }
    tree
}

fn uses(names: &[&str], line: usize) -> Item {
    Item::Use { tree: chain(names, line, 4) }
}

fn module_pointer(visibility: &str, name: &str, line: usize) -> Item {
    let lead = if visibility.is_empty() { 0 } else { visibility.chars().count() + 1 };
    Item::Mod {
        name: name.to_string(),
        visibility: visibility.to_string(),
        start: spot(line, 0),
        end: spot(line, lead + 5 + name.chars().count()),
        body: None,
    }
}

fn source(location: &str, content: &str, items: Vec<Item>) -> SourceFile {
    SourceFile { location: location.to_string(), content: content.to_string(), items }
}

fn in_file(name: &str, source: SourceFile) -> DirEntry {
    DirEntry::File { name: name.to_string(), source }
}

fn in_dir(name: &str, entries: Vec<DirEntry>) -> DirEntry {
    DirEntry::Dir { name: name.to_string(), entries }
}

fn export() -> Attribute {
    Attribute { inner: false, path: "macro_export".to_string(), arguments: String::new() }
}

/// src/lib.rs, src/a/mod.rs, src/a/deep.rs, src/b.rs, src/lonely.rs, src/bin/tool.rs
fn sample_tree() -> Vec<DirEntry> {
    let lib = source(
        "src/lib.rs",
        "pub mod a;\nmod b;\npub mod lonely;\n#[macro_export]\nmacro_rules! shout { () => {} }\n",
        vec![
            module_pointer("pub", "a", 1),
            module_pointer("", "b", 2),
            module_pointer("pub", "lonely", 3),
            Item::Macro { ident: Some("shout".to_string()), attributes: vec![export()] },
        ],
    );
    let a = source(
        "src/a/mod.rs",
        "pub mod deep;\nuse super::b::helper;\nuse std::fmt;\nuse serde::Serialize;\npub fn widget() {}\n",
        vec![module_pointer("pub", "deep", 1), uses(&["super", "b", "helper"], 2), uses(&["std", "fmt"], 3), uses(&["serde", "Serialize"], 4)],
    );
    let deep = source(
        "src/a/deep.rs",
        "use crate::shout;\nuse crate::a::widget;\nuse self::inner::x;\npub mod inner { pub fn x() {} }\n",
        vec![
            uses(&["crate", "shout"], 1),
            uses(&["crate", "a", "widget"], 2),
            uses(&["self", "inner", "x"], 3),
            Item::Mod { name: "inner".to_string(), visibility: "pub".to_string(), start: spot(4, 0), end: spot(4, 31), body: Some(vec![]) },
        ],
    );
    let b = source("src/b.rs", "pub fn helper() {}\n", vec![]);
    let lonely = source("src/lonely.rs", "use crate::a::deep;\n", vec![uses(&["crate", "a", "deep"], 1)]);
    let tool = source("src/bin/tool.rs", "use nothing::at_all;\n", vec![uses(&["nothing", "at_all"], 1)]);
    vec![
        in_dir("a", vec![in_file("mod.rs", a), in_file("deep.rs", deep)]),
        in_file("b.rs", b),
        in_dir("bin", vec![in_file("tool.rs", tool)]),
        in_file("lib.rs", lib),
        in_file("lonely.rs", lonely),
    ]
}

fn entry_file(content: &str, items: Vec<Item>) -> SourceFile {
    source("src/main.rs", content, items)
}

fn scanned(tree: &Vec<DirEntry>) -> Traverse<'_> {
    let entry = entry_file("", vec![]);
    let mut t = Traverse::new(tree, "mylib", &entry, &path_of(&["main"]));
    t.scan_mods();
    t
}

#[test]
fn names_are_ordered_by_their_characters() {
    assert_eq!(rank_text("abc", "abd"), Rank::Before);
    assert_eq!(rank_text("abc", "abc"), Rank::Same);
    assert_eq!(rank_text("b", "abc"), Rank::After);
    assert_eq!(rank_text("ab", "abc"), Rank::Before);
    assert_eq!(rank_text("", "a"), Rank::Before);
    assert_eq!(rank_text("Z", "a"), Rank::Before);
    assert_eq!(rank_text("é", "z"), Rank::After);
}

#[test]
fn paths_are_ordered_name_by_name() {
    assert_eq!(rank_path(&path_of(&["a"]), &path_of(&["a", "b"])), Rank::Before);
    assert_eq!(rank_path(&path_of(&["a", "b"]), &path_of(&["a", "b"])), Rank::Same);
    assert_eq!(rank_path(&path_of(&["a", "c"]), &path_of(&["a", "b", "z"])), Rank::After);
    assert_eq!(rank_path(&path_of(&["a", "b"]), &path_of(&["ab"])), Rank::Before);
    assert_eq!(rank_path(&path_of(&[]), &path_of(&[])), Rank::Same);
    assert!(same_path(&path_of(&["a", "b"]), &path_of(&["a", "b"])));
    assert!(!same_path(&path_of(&["a", "b"]), &path_of(&["a"])));
    assert!(!same_path(&path_of(&["a", "b"]), &path_of(&["a", "c"])));
}

#[test]
fn path_order_is_that_of_the_standard_library() {
    let samples = [path_of(&["x", "a"]), path_of(&["x"]), path_of(&["x", "a", "b"]), path_of(&["x", "ab"]), path_of(&["w", "z"]), path_of(&[])];
    for p in &samples {
        for q in &samples {
            let expected = match p.cmp(q) {
                std::cmp::Ordering::Less => Rank::Before,
                std::cmp::Ordering::Equal => Rank::Same,
                std::cmp::Ordering::Greater => Rank::After,
            };
            assert_eq!(rank_path(p, q), expected);
        }
    }
}

#[test]
fn sorting_puts_a_module_before_what_it_holds() {
    let list = vec![path_of(&["x", "b"]), path_of(&["x", "a", "c"]), path_of(&["x"]), path_of(&["x", "a"]), path_of(&["x", "b"]), path_of(&["x", "a", "b"])];
    let mut expected = list.clone();
    expected.sort();
    expected.dedup();
    assert_eq!(sort_dedup(&list), expected);
    assert_eq!(
        sort_dedup(&list),
        vec![path_of(&["x"]), path_of(&["x", "a"]), path_of(&["x", "a", "b"]), path_of(&["x", "a", "c"]), path_of(&["x", "b"])]
    );
    assert_eq!(sort_dedup(&vec![]), Vec::<ModPath>::new());
}

#[test]
fn a_later_entry_replaces_an_earlier_one() {
    let mut map: PathMap<String> = PathMap::new();
    assert_eq!(map.get(&path_of(&["a"])), None);
    map.insert(path_of(&["a"]), "one".to_string());
    map.insert(path_of(&["a", "b"]), "two".to_string());
    map.insert(path_of(&["a"]), "three".to_string());
    assert_eq!(map.get(&path_of(&["a"])), Some(&"three".to_string()));
    assert_eq!(map.get(&path_of(&["a", "b"])), Some(&"two".to_string()));
    assert_eq!(map.get(&path_of(&["b"])), None);
    assert!(map.contains_key(&path_of(&["a", "b"])));
    assert!(!map.contains_key(&path_of(&[])));
}

#[test]
fn import_trees_are_flattened_in_order() {
    let group = UseTree::Path {
        ident: name_at("crate", 1, 4),
        tree: Box::new(UseTree::Group {
            items: vec![
                chain(&["a", "b"], 1, 12),
                UseTree::Rename { ident: name_at("c", 1, 18) },
                UseTree::Glob,
                UseTree::Path { ident: name_at("d", 1, 30), tree: Box::new(UseTree::Glob) },
                UseTree::Name { ident: name_at("self", 1, 36) },
            ],
        }),
    };
    let inner = Item::Mod { name: "m".to_string(), visibility: String::new(), start: spot(2, 0), end: spot(2, 20), body: Some(vec![uses(&["super", "x"], 2)]) };
    let f = source("f.rs", "", vec![Item::Use { tree: group }, inner, Item::Use { tree: UseTree::Glob }, module_pointer("", "p", 3)]);
    assert_eq!(
        visit_use_file(&f),
        vec![
            path_of(&["crate", "a", "b"]),
            path_of(&["crate", "c"]),
            path_of(&["crate"]),
            path_of(&["crate", "d"]),
            path_of(&["crate", "self"]),
            path_of(&["super", "x"]),
            path_of(&[]),
        ]
    );
}

#[test]
fn a_new_traversal_keeps_the_imports_that_stay_in_the_crate() {
    let tree = vec![];
    let entry = entry_file(
        "",
        vec![
            uses(&["mylib", "a"], 1),
            uses(&["std", "fmt"], 2),
            uses(&["serde", "Serialize"], 3),
            uses(&["crate", "x"], 4),
            uses(&["core", "mem"], 5),
            uses(&["self", "y"], 6),
            uses(&["super", "z"], 7),
            uses(&["rand", "Rng"], 8),
            Item::Use { tree: UseTree::Glob },
        ],
    );
    let t = Traverse::new(&tree, "mylib", &entry, &path_of(&["bin", "tool"]));
    assert_eq!(t.crate_name, "mylib");
    assert_eq!(t.entry_path, path_of(&["mylib", "bin", "tool"]));
    assert_eq!(t.todo, vec![path_of(&["mylib", "a"]), path_of(&["crate", "x"]), path_of(&["self", "y"]), path_of(&["super", "z"])]);
    assert_eq!(t.skipped, vec!["serde".to_string(), "rand".to_string()]);
    let outside = Traverse::new(&tree, "mylib", &entry, &[]);
    assert_eq!(outside.entry_path, path_of(&["mylib"]));
}

#[test]
fn imports_become_paths_from_the_crate_name_down() {
    let tree = vec![];
    let t = scanned(&tree);
    let at = path_of(&["mylib", "a", "b"]);
    assert_eq!(t.canonicalize(&path_of(&["crate", "x", "y"]), &at), Ok(path_of(&["mylib", "x", "y"])));
    assert_eq!(t.canonicalize(&path_of(&["self", "x"]), &at), Ok(path_of(&["mylib", "a", "b", "x"])));
    assert_eq!(t.canonicalize(&path_of(&["super", "x"]), &at), Ok(path_of(&["mylib", "a", "x"])));
    assert_eq!(t.canonicalize(&path_of(&["super", "super", "x"]), &at), Ok(path_of(&["mylib", "x"])));
    assert_eq!(t.canonicalize(&path_of(&["mylib", "x"]), &at), Ok(path_of(&["mylib", "x"])));
    assert_eq!(t.canonicalize(&path_of(&["std", "fmt"]), &at), Ok(path_of(&["std", "fmt"])));
    assert_eq!(t.canonicalize(&path_of(&["x", "self"]), &at), Ok(path_of(&["x"])));
    assert_eq!(t.canonicalize(&path_of(&["self"]), &at), Ok(at.clone()));
    assert_eq!(t.canonicalize(&path_of(&[]), &at), Ok(path_of(&[])));
}

#[test]
fn an_import_that_climbs_above_the_top_is_malformed() {
    let tree = vec![];
    let t = scanned(&tree);
    let climbs = |names: &[&str], at: &[&str]| {
        assert_eq!(t.canonicalize(&path_of(names), &path_of(at)), Err(Error::MalformedRelativeImport { path: path_of(names) }));
    };
    climbs(&["super", "super", "x"], &["mylib"]);
    climbs(&["crate", "super", "super"], &["mylib", "a"]);
    climbs(&["x", "super", "super", "y"], &["mylib", "a"]);
    climbs(&["super"], &[]);
}

#[test]
fn the_index_knows_every_file_and_every_module_with_a_body() {
    let tree = sample_tree();
    let t = scanned(&tree);
    let found = |names: &[&str]| t.index.locations.get(&path_of(names)).map(|l| (l.file.location.clone(), l.group.clone()));
    assert_eq!(found(&["mylib"]), Some(("src/lib.rs".to_string(), path_of(&["mylib"]))));
    assert_eq!(found(&["mylib", "a"]), Some(("src/a/mod.rs".to_string(), path_of(&["mylib", "a"]))));
    assert_eq!(found(&["mylib", "a", "deep"]), Some(("src/a/deep.rs".to_string(), path_of(&["mylib", "a", "deep"]))));
    assert_eq!(found(&["mylib", "a", "deep", "inner"]), Some(("src/a/deep.rs".to_string(), path_of(&["mylib", "a", "deep"]))));
    assert_eq!(found(&["mylib", "b"]), Some(("src/b.rs".to_string(), path_of(&["mylib", "b"]))));
    assert_eq!(found(&["mylib", "lonely"]), Some(("src/lonely.rs".to_string(), path_of(&["mylib", "lonely"]))));
    assert_eq!(found(&["mylib", "bin"]), None);
    assert_eq!(found(&["mylib", "bin", "tool"]), None);
    assert_eq!(found(&["mylib", "lib"]), None);
    assert_eq!(found(&["mylib", "a", "mod"]), None);
    assert_eq!(t.index.macros, vec!["shout".to_string()]);
}

#[test]
fn the_index_notes_how_each_module_was_declared() {
    let tree = sample_tree();
    let t = scanned(&tree);
    let noted = |names: &[&str]| t.index.visibility.get(&path_of(names)).cloned();
    assert_eq!(noted(&["mylib", "a"]), Some("pub".to_string()));
    assert_eq!(noted(&["mylib", "b"]), Some(String::new()));
    assert_eq!(noted(&["mylib", "a", "deep"]), Some("pub".to_string()));
    assert_eq!(noted(&["mylib", "a", "deep", "inner"]), Some("pub".to_string()));
    assert_eq!(noted(&["mylib"]), None);
}

#[test]
fn only_the_bin_directory_at_the_top_is_left_out() {
    let inner = source("src/a/bin/x.rs", "", vec![]);
    let tree = vec![in_dir("a", vec![in_dir("bin", vec![in_file("x.rs", inner)])])];
    let t = scanned(&tree);
    assert!(t.index.locations.contains_key(&path_of(&["mylib", "a", "bin", "x"])));
}

#[test]
fn only_a_plain_export_attribute_exports_a_macro() {
    let with = |attributes: Vec<Attribute>| Item::Macro { ident: Some("m".to_string()), attributes };
    let attr = |inner: bool, path: &str, arguments: &str| Attribute { inner, path: path.to_string(), arguments: arguments.to_string() };
    let count = |item: Item| {
        let tree = vec![in_file("lib.rs", source("src/lib.rs", "", vec![item]))];
        let n = scanned(&tree).index.macros.len();
        n
    };
    assert_eq!(count(with(vec![export()])), 1);
    assert_eq!(count(with(vec![attr(false, "doc", "= \"x\""), export()])), 1);
    assert_eq!(count(with(vec![])), 0);
    assert_eq!(count(with(vec![attr(false, "macro_export", "(local_inner_macros)")])), 0);
    assert_eq!(count(with(vec![attr(true, "macro_export", "")])), 0);
    assert_eq!(count(with(vec![attr(false, "macro_use", "")])), 0);
    assert_eq!(count(Item::Macro { ident: None, attributes: vec![export()] }), 0);
}

#[test]
fn file_names_lose_their_last_three_characters() {
    let tree = vec![in_file("thing.rs", source("src/thing.rs", "", vec![])), in_file("ab", source("src/ab", "", vec![]))];
    let t = scanned(&tree);
    assert!(t.index.locations.contains_key(&path_of(&["mylib", "thing"])));
    assert!(t.index.locations.contains_key(&path_of(&["mylib", ""])));
}

#[test]
fn the_longest_known_beginning_of_a_path_counts() {
    let tree = sample_tree();
    let t = scanned(&tree);
    let at = path_of(&["mylib", "a"]);
    let group = |names: &[&str]| t.find_mod_file(&path_of(names), &at).map(|l| l.group.clone());
    assert_eq!(group(&["mylib", "a", "widget"]), Ok(path_of(&["mylib", "a"])));
    assert_eq!(group(&["mylib", "a", "deep", "inner", "x"]), Ok(path_of(&["mylib", "a", "deep"])));
    assert_eq!(group(&["mylib", "nothing", "here"]), Ok(path_of(&["mylib"])));
    assert_eq!(group(&["mylib"]), Ok(path_of(&["mylib"])));
}

#[test]
fn a_path_that_is_not_known_is_tried_as_an_import() {
    let tree = sample_tree();
    let t = scanned(&tree);
    let at = path_of(&["mylib", "a"]);
    let group = |names: &[&str]| t.find_mod_file(&path_of(names), &at).map(|l| l.group.clone());
    assert_eq!(group(&["crate", "b", "helper"]), Ok(path_of(&["mylib", "b"])));
    assert_eq!(group(&["super", "b", "helper"]), Ok(path_of(&["mylib", "b"])));
    assert_eq!(group(&["self", "deep"]), Ok(path_of(&["mylib", "a", "deep"])));
}

#[test]
fn a_path_that_names_nothing_known_is_unresolved() {
    let tree = sample_tree();
    let t = scanned(&tree);
    let at = path_of(&["mylib", "a"]);
    let failure = |names: &[&str]| t.find_mod_file(&path_of(names), &at).map(|l| l.group.clone()).unwrap_err();
    assert_eq!(failure(&["other", "x"]), Error::UnresolvedImport { path: path_of(&["other", "x"]) });
    assert_eq!(failure(&[]), Error::UnresolvedImport { path: path_of(&[]) });
    assert_eq!(failure(&["std", "self"]), Error::UnresolvedImport { path: path_of(&["std", "self"]) });
    assert_eq!(failure(&["super", "super", "super"]), Error::MalformedRelativeImport { path: path_of(&["super", "super", "super"]) });
}

#[test]
fn the_imports_of_a_module_lead_to_modules() {
    let tree = sample_tree();
    let t = scanned(&tree);
    assert_eq!(t.visit_use(&path_of(&["mylib", "a"])), Ok((vec![path_of(&["mylib", "b"])], vec!["serde".to_string()])));
    assert_eq!(
        t.visit_use(&path_of(&["mylib", "a", "deep"])),
        Ok((vec![path_of(&["mylib", "a"]), path_of(&["mylib", "a", "deep"])], vec![]))
    );
    assert_eq!(t.visit_use(&path_of(&["mylib", "b"])), Ok((vec![], vec![])));
    assert_eq!(t.visit_use(&path_of(&["nowhere"])), Err(Error::UnresolvedImport { path: path_of(&["nowhere"]) }));
}

#[test]
fn a_module_imported_twice_is_listed_once() {
    let lib = source(
        "src/lib.rs",
        "",
        vec![uses(&["crate", "b", "x"], 1), uses(&["crate", "a", "y"], 2), uses(&["crate", "b", "z"], 3), uses(&["self", "a"], 4), uses(&["crate", "b"], 5)],
    );
    let tree = vec![in_file("lib.rs", lib), in_file("a.rs", source("src/a.rs", "", vec![])), in_file("b.rs", source("src/b.rs", "", vec![]))];
    let t = scanned(&tree);
    assert_eq!(t.visit_use(&path_of(&["mylib"])), Ok((vec![path_of(&["mylib", "b"]), path_of(&["mylib", "a"])], vec![])));
}

#[test]
fn an_import_of_an_exported_macro_is_not_followed() {
    let lib = source(
        "src/lib.rs",
        "",
        vec![Item::Macro { ident: Some("shout".to_string()), attributes: vec![export()] }, module_pointer("", "a", 2)],
    );
    let a = source("src/a.rs", "", vec![uses(&["crate", "shout"], 1), uses(&["crate", "a", "shout"], 2)]);
    let tree = vec![in_file("lib.rs", lib), in_file("a.rs", a)];
    let t = scanned(&tree);
    assert_eq!(t.visit_use(&path_of(&["mylib", "a"])), Ok((vec![path_of(&["mylib", "a"])], vec![])));
    let plain = source("src/a.rs", "", vec![uses(&["crate", "whisper"], 1)]);
    let tree = vec![in_file("lib.rs", source("src/lib.rs", "", vec![])), in_file("a.rs", plain)];
    let t = scanned(&tree);
    assert_eq!(t.visit_use(&path_of(&["mylib", "a"])), Ok((vec![path_of(&["mylib"])], vec![])));
}

#[test]
fn the_run_lists_what_is_reached_in_order() {
    let tree = sample_tree();
    let entry = entry_file("use mylib::a::deep::inner::x;\n", vec![uses(&["mylib", "a", "deep", "inner", "x"], 1)]);
    let mut t = Traverse::new(&tree, "mylib", &entry, &path_of(&["main"]));
    let (paths, files, visibility, macros) = t.run().unwrap();
    assert_eq!(paths, vec![path_of(&["mylib", "a"]), path_of(&["mylib", "a", "deep"]), path_of(&["mylib", "b"])]);
    let locations: Vec<&str> = files.iter().map(|f| f.location.as_str()).collect();
    assert_eq!(locations, vec!["src/a/mod.rs", "src/a/deep.rs", "src/b.rs"]);
    assert_eq!(macros, vec!["shout".to_string()]);
    assert_eq!(visibility.get(&path_of(&["mylib", "b"])), Some(&String::new()));
    assert_eq!(visibility.get(&path_of(&["mylib", "a"])), Some(&"pub".to_string()));
    assert_eq!(t.skipped, vec!["serde".to_string()]);
    assert!(t.todo.is_empty());
    assert!(t.index.macros.is_empty());
}

#[test]
fn a_module_that_no_import_reaches_is_left_out() {
    let tree = sample_tree();
    let entry = entry_file("use mylib::b::helper;\n", vec![uses(&["mylib", "b", "helper"], 1)]);
    let mut t = Traverse::new(&tree, "mylib", &entry, &path_of(&["main"]));
    let (paths, files, _, _) = t.run().unwrap();
    assert_eq!(paths, vec![path_of(&["mylib", "b"])]);
    assert_eq!(files.len(), 1);
    assert_eq!(files[0].location, "src/b.rs");
}

#[test]
fn a_run_without_imports_lists_nothing() {
    let tree = sample_tree();
    let entry = entry_file("use std::fmt;\n", vec![uses(&["std", "fmt"], 1)]);
    let mut t = Traverse::new(&tree, "mylib", &entry, &path_of(&["main"]));
    let (paths, files, _, macros) = t.run().unwrap();
    assert!(paths.is_empty());
    assert!(files.is_empty());
    assert_eq!(macros, vec!["shout".to_string()]);
}

#[test]
fn two_runs_over_the_same_tree_agree() {
    let tree = sample_tree();
    let entry = entry_file("", vec![uses(&["mylib", "lonely"], 1), uses(&["mylib", "a"], 2), uses(&["mylib", "lonely"], 3)]);
    let mut first = Traverse::new(&tree, "mylib", &entry, &path_of(&["main"]));
    let mut second = Traverse::new(&tree, "mylib", &entry, &path_of(&["main"]));
    let (paths_a, files_a, visibility_a, macros_a) = first.run().unwrap();
    let (paths_b, files_b, visibility_b, macros_b) = second.run().unwrap();
    assert_eq!(paths_a, paths_b);
    assert_eq!(paths_a, vec![path_of(&["mylib", "a"]), path_of(&["mylib", "a", "deep"]), path_of(&["mylib", "b"]), path_of(&["mylib", "lonely"])]);
    let text = |p: &Vec<ModPath>, f: &Vec<&SourceFile>, v: PathMap<String>, m: &Vec<String>| compile("mylib", p, f, v, m).unwrap();
    assert_eq!(text(&paths_a, &files_a, visibility_a, &macros_a), text(&paths_b, &files_b, visibility_b, &macros_b));
}

#[test]
fn an_entry_import_that_names_nothing_known_stops_the_run() {
    let tree = vec![in_file("a.rs", source("src/a.rs", "", vec![]))];
    let entry = entry_file("", vec![uses(&["self", "nothing"], 1)]);
    let mut t = Traverse::new(&tree, "mylib", &entry, &path_of(&["main"]));
    assert_eq!(t.run().unwrap_err(), Error::UnresolvedImport { path: path_of(&["self", "nothing"]) });
    let climbing = entry_file("", vec![uses(&["super", "super", "super", "x"], 1)]);
    let mut t = Traverse::new(&tree, "mylib", &climbing, &path_of(&["main"]));
    assert_eq!(t.run().unwrap_err(), Error::MalformedRelativeImport { path: path_of(&["super", "super", "super", "x"]) });
}

#[test]
fn an_import_of_a_reached_module_that_climbs_too_far_stops_the_run() {
    let a = source("src/a.rs", "", vec![uses(&["super", "super", "super", "x"], 1)]);
    let tree = vec![in_file("a.rs", a), in_file("lib.rs", source("src/lib.rs", "", vec![]))];
    let entry = entry_file("", vec![uses(&["mylib", "a"], 1)]);
    let mut t = Traverse::new(&tree, "mylib", &entry, &path_of(&["main"]));
    assert_eq!(t.run().unwrap_err(), Error::MalformedRelativeImport { path: path_of(&["super", "super", "super", "x"]) });
    let fine = entry_file("", vec![uses(&["mylib", "x"], 1)]);
    let mut t = Traverse::new(&tree, "mylib", &fine, &path_of(&["main"]));
    assert_eq!(t.run().unwrap().0, vec![path_of(&["mylib"])]);
}

#[test]
fn blocks_nest_as_the_modules_do() {
    let a = source("a.rs", "fn a() {}\n", vec![]);
    let ab = source("ab.rs", "fn ab() {}\n", vec![]);
    let ac = source("ac.rs", "fn ac() {}\n", vec![]);
    let d = source("d.rs", "fn d() {}\n", vec![]);
    let paths = vec![path_of(&["x", "a"]), path_of(&["x", "a", "b"]), path_of(&["x", "a", "c"]), path_of(&["x", "d"])];
    let out = compile("x", &paths, &[&a, &ab, &ac, &d], PathMap::new(), &[]).unwrap();
    let expected = "\npub mod x {  // mod x\n\npub mod a {  // mod a\n\nfn a() {}\n\npub mod b {  // mod b\n\nfn ab() {}\n\n}  // mod b\n\npub mod c {  // mod c\n\nfn ac() {}\n\n}  // mod c\n\n}  // mod a\n\npub mod d {  // mod d\n\nfn d() {}\n\n}  // mod d\n\n}  // mod x\n";
    assert_eq!(out, expected);
}

#[test]
fn blocks_are_as_visible_as_the_modules_were_declared() {
    let a = source("a.rs", "fn a() {}\n", vec![]);
    let mut visibility: PathMap<String> = PathMap::new();
    visibility.insert(path_of(&["x", "a"]), String::new());
    visibility.insert(path_of(&["x", "a", "b"]), "pub(crate)".to_string());
    let paths = vec![path_of(&["x", "a", "b", "c"])];
    let out = compile("x", &paths, &[&a], visibility, &[]).unwrap();
    let expected =
        "\npub mod x {  // mod x\n\nmod a {  // mod a\n\npub(crate) mod b {  // mod b\n\npub mod c {  // mod c\n\nfn a() {}\n\n}  // mod c\n\n}  // mod b\n\n}  // mod a\n\n}  // mod x\n";
    assert_eq!(out, expected);
}

#[test]
fn the_texts_in_a_bundle_are_rewritten_for_the_inside() {
    let a = source("a.rs", "use crate::b::helper;\nmod gone;\n\n\n\npub fn a() {}\n", vec![uses(&["crate", "b", "helper"], 1), module_pointer("", "gone", 2)]);
    let out = compile("x", &[path_of(&["x"])], &[&a], PathMap::new(), &[]).unwrap();
    assert_eq!(out, "\npub mod x {  // mod x\n\nuse crate::x::b::helper;\n\npub fn a() {}\n\n}  // mod x\n");
}

#[test]
fn nothing_to_bundle_gives_an_empty_text() {
    assert_eq!(compile("x", &[], &[], PathMap::new(), &[]), Ok(String::new()));
    let a = source("a.rs", "fn a() {}\n", vec![]);
    assert_eq!(compile("x", &[], &[&a], PathMap::new(), &[]), Ok(String::new()));
    assert_eq!(compile("x", &[path_of(&["x"])], &[], PathMap::new(), &[]), Ok(String::new()));
}

#[test]
fn a_file_whose_declarations_do_not_fit_stops_the_bundle() {
    let good = source("a.rs", "fn a() {}\n", vec![]);
    let bad = source("b.rs", "fn b() {}\n", vec![module_pointer("", "gone", 7)]);
    let paths = vec![path_of(&["x", "a"]), path_of(&["x", "b"])];
    assert_eq!(compile("x", &paths, &[&good, &bad], PathMap::new(), &[]), Err(Error::ParseFailure { location: "b.rs".to_string() }));
    assert_eq!(compile("x", &paths, &[&bad, &bad], PathMap::new(), &[]), Err(Error::ParseFailure { location: "b.rs".to_string() }));
    assert!(compile("x", &paths[..1], &[&good, &bad], PathMap::new(), &[]).is_ok());
}

#[test]
fn a_bundle_from_end_to_end() {
    let widget = source("src/a/mod.rs", "pub fn Widget() {}\n", vec![]);
    let tree = vec![in_dir("a", vec![in_file("mod.rs", widget)])];
    let entry = entry_file("use root::a::Widget;\n\nfn main() {\n    Widget();\n}\n", vec![uses(&["root", "a", "Widget"], 1)]);
    let mut t = Traverse::new(&tree, "root", &entry, &path_of(&["main"]));
    let (paths, files, visibility, macros) = t.run().unwrap();
    assert_eq!(paths, vec![path_of(&["root", "a"])]);
    let first = compile_entry(&entry, "root", &macros).unwrap();
    assert_eq!(first, "use crate::root::a::Widget;\n\nfn main() {\n    Widget();\n}\n");
    let rest = compile("root", &paths, &files, visibility, &macros).unwrap();
    let whole = join_bundle(&first, &rest);
    let expected = "use crate::root::a::Widget;\n\nfn main() {\n    Widget();\n}\n\npub mod root {  // mod root\n\npub mod a {  // mod a\n\npub fn Widget() {}\n\n}  // mod a\n\n}  // mod root\n";
    assert_eq!(whole, expected);
    assert!(!whole.contains("\n\n\n"));
    let code: Vec<&str> = whole
        .lines()
        .map(|l| l.split("//").next().unwrap().trim())
        .filter(|l| !l.is_empty())
        .skip(4)
        .collect();
    assert_eq!(code.join(" "), "pub mod root { pub mod a { pub fn Widget() {} } }");
}
