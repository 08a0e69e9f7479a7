use auto_bundle::compile::{compile_entry, join_bundle, reduce_newline};
use auto_bundle::edit::{apply_edits, read_process, schedule, sort_edits, Edit};
use auto_bundle::error::Error;
use auto_bundle::syntax::{Ident, Item, Position, SourceFile, UseTree};
use auto_bundle::text::{from_chars, split_lines, to_chars};

fn at(line: usize, column: usize) -> Position {
    Position { line, column }
}

fn word(name: &str, line: usize, column: usize) -> Ident {
    Ident { name: name.to_string(), start: at(line, column), end: at(line, column + name.chars().count()) }
}

fn import(names: &[&str], line: usize, column: usize) -> Item {
    let mut columns = Vec::new();
    let mut c = column;
    for n in names {
        columns.push(c);
        c += n.chars().count() + 2;
    }
    let last = names.len() - 1;
    let mut tree = UseTree::Name { ident: word(names[last], line, columns[last]) };
    for i in (0..last).rev() {
        tree = UseTree::Path { ident: word(names[i], line, columns[i]), tree: Box::new(tree) };
    }
    Item::Use { tree }
}

fn pointer(name: &str, line: usize, column: usize) -> Item {
    Item::Mod {
        name: name.to_string(),
        visibility: String::new(),
        start: at(line, column),
        end: at(line, column + 5 + name.chars().count()),
        body: None,
    }
}

fn file(content: &str, items: Vec<Item>) -> SourceFile {
    SourceFile { location: "src/lib.rs".to_string(), content: content.to_string(), items }
}

fn lines_of(text: &str) -> Vec<String> {
    split_lines(&to_chars(text)).iter().map(from_chars).collect()
}

#[test]
fn lines_end_at_line_feeds() {
    assert_eq!(lines_of("a\nb\n"), vec!["a", "b"]);
    assert_eq!(lines_of("a\nb"), vec!["a", "b"]);
    assert_eq!(lines_of(""), Vec::<String>::new());
    assert_eq!(lines_of("\n"), vec![""]);
    assert_eq!(lines_of("a\n\nb"), vec!["a", "", "b"]);
}

#[test]
fn lines_drop_the_carriage_return_before_a_line_feed() {
    assert_eq!(lines_of("a\r\nb\r\n"), vec!["a", "b"]);
    assert_eq!(lines_of("a\rb\n"), vec!["a\rb"]);
    assert_eq!(lines_of("a\r"), vec!["a\r"]);
    assert_eq!(lines_of("a\r\r\n"), vec!["a\r"]);
}

#[test]
fn lines_agree_with_the_standard_library() {
    for text in ["", "\n", "x", "x\n", "x\r\n\r\ny", "\r\n", "\n\n\n", "tab\there\n  \n", "é\nü\r\n"] {
        let expected: Vec<String> = text.lines().map(|l| l.to_string()).collect();
        assert_eq!(lines_of(text), expected);
    }
}

#[test]
fn characters_round_trip() {
    let text = "fn main() { println!(\"héllo\"); }\n";
    assert_eq!(from_chars(&to_chars(text)), text);
    assert_eq!(to_chars("ab"), vec!['a', 'b']);
}

#[test]
fn runs_of_line_feeds_are_cut_to_two() {
    assert_eq!(reduce_newline("a\n\n\n\nb".to_string()), "a\n\nb");
    assert_eq!(reduce_newline("a\n\n\nb\n\n\n\n\n".to_string()), "a\n\nb\n\n");
    assert_eq!(reduce_newline("\n\n\n".to_string()), "\n\n");
}

#[test]
fn short_runs_of_line_feeds_stay() {
    assert_eq!(reduce_newline("a\nb\n\nc".to_string()), "a\nb\n\nc");
    assert_eq!(reduce_newline(String::new()), "");
    assert_eq!(reduce_newline("a\n \n\n \nb".to_string()), "a\n \n\n \nb");
}

#[test]
fn root_keyword_gets_the_crate_name_inside_the_bundle() {
    let f = file("use crate::a::b;\nfn f() {}\n", vec![import(&["crate", "a", "b"], 1, 4)]);
    assert_eq!(read_process(&f, "mylib", false, &[]), Ok("use crate::mylib::a::b;\nfn f() {}\n".to_string()));
}

#[test]
fn crate_name_gets_the_root_keyword_in_the_entry_file() {
    let f = file("use mylib::a::Widget;\n", vec![import(&["mylib", "a", "Widget"], 1, 4)]);
    assert_eq!(compile_entry(&f, "mylib", &[]), Ok("use crate::mylib::a::Widget;\n".to_string()));
    assert_eq!(read_process(&f, "mylib", true, &[]), Ok("use crate::mylib::a::Widget;\n".to_string()));
}

#[test]
fn imports_of_other_crates_stay() {
    let text = "use std::fmt;\nuse other::x;\nuse mylib::y;\n";
    let items = || vec![import(&["std", "fmt"], 1, 4), import(&["other", "x"], 2, 4), import(&["mylib", "y"], 3, 4)];
    assert_eq!(read_process(&file(text, items()), "mylib", false, &[]), Ok(text.to_string()));
    assert_eq!(
        read_process(&file(text, items()), "mylib", true, &[]),
        Ok("use std::fmt;\nuse other::x;\nuse crate::mylib::y;\n".to_string())
    );
}

#[test]
fn a_single_name_is_rewritten_too() {
    let f = file("use mylib;\n", vec![Item::Use { tree: UseTree::Name { ident: word("mylib", 1, 4) } }]);
    assert_eq!(read_process(&f, "mylib", true, &[]), Ok("use crate::mylib;\n".to_string()));
}

#[test]
fn groups_globs_and_renames_at_the_top_stay() {
    let text = "use {crate::a, crate::b};\nuse crate as me;\n";
    let group = UseTree::Group {
        items: vec![
            UseTree::Path { ident: word("crate", 1, 5), tree: Box::new(UseTree::Name { ident: word("a", 1, 12) }) },
            UseTree::Path { ident: word("crate", 1, 15), tree: Box::new(UseTree::Name { ident: word("b", 1, 22) }) },
        ],
    };
    let items = vec![Item::Use { tree: group }, Item::Use { tree: UseTree::Rename { ident: word("crate", 2, 4) } }, Item::Use { tree: UseTree::Glob }];
    assert_eq!(read_process(&file(text, items), "mylib", false, &[]), Ok(text.to_string()));
}

#[test]
fn import_of_an_exported_macro_stays() {
    let macros = vec!["mac".to_string()];
    let f = file("use crate::mac;\nuse crate::other;\n", vec![import(&["crate", "mac"], 1, 4), import(&["crate", "other"], 2, 4)]);
    assert_eq!(read_process(&f, "mylib", false, &macros), Ok("use crate::mac;\nuse crate::mylib::other;\n".to_string()));
    let g = file("use mylib::mac;\n", vec![import(&["mylib", "mac"], 1, 4)]);
    assert_eq!(read_process(&g, "mylib", true, &macros), Ok("use mylib::mac;\n".to_string()));
}

#[test]
fn macro_name_deeper_in_a_path_is_no_macro_import() {
    let macros = vec!["mac".to_string()];
    let f = file("use crate::a::mac;\n", vec![import(&["crate", "a", "mac"], 1, 4)]);
    assert_eq!(read_process(&f, "mylib", false, &macros), Ok("use crate::mylib::a::mac;\n".to_string()));
}

#[test]
fn a_line_that_holds_only_a_module_pointer_leaves_no_trace() {
    let f = file("fn a() {}\n  mod inner;  \nfn b() {}\n", vec![pointer("inner", 2, 2)]);
    assert_eq!(read_process(&f, "mylib", false, &[]), Ok("fn a() {}\nfn b() {}\n".to_string()));
}

#[test]
fn other_text_on_the_line_of_a_module_pointer_is_kept() {
    let f = file("mod inner; /* keep */\nfn b() {}\n", vec![pointer("inner", 1, 0)]);
    assert_eq!(read_process(&f, "mylib", false, &[]), Ok(" /* keep */\nfn b() {}\n".to_string()));
    let g = file("/* keep */ mod inner;\n", vec![pointer("inner", 1, 11)]);
    assert_eq!(read_process(&g, "mylib", false, &[]), Ok("/* keep */ \n".to_string()));
}

#[test]
fn a_module_pointer_over_several_lines_takes_them_all() {
    let text = "fn a() {}\n#[cfg(test)]\npub mod\n    inner;\nfn b() {}\n";
    let item = Item::Mod { name: "inner".to_string(), visibility: "pub".to_string(), start: at(2, 0), end: at(4, 10), body: None };
    assert_eq!(read_process(&file(text, vec![item]), "mylib", false, &[]), Ok("fn a() {}\nfn b() {}\n".to_string()));
}

#[test]
fn a_module_pointer_on_the_last_line_is_removed() {
    let f = file("fn a() {}\nmod inner;", vec![pointer("inner", 2, 0)]);
    assert_eq!(read_process(&f, "mylib", false, &[]), Ok("fn a() {}\n".to_string()));
}

#[test]
fn a_module_with_a_body_stays_and_is_searched() {
    let text = "mod outer {\n    use crate::x;\n    mod inner;\n}\n";
    let body = vec![import(&["crate", "x"], 2, 8), pointer("inner", 3, 4)];
    let item = Item::Mod { name: "outer".to_string(), visibility: String::new(), start: at(1, 0), end: at(4, 1), body: Some(body) };
    assert_eq!(
        read_process(&file(text, vec![item]), "mylib", false, &[]),
        Ok("mod outer {\n    use crate::mylib::x;\n}\n".to_string())
    );
}

#[test]
fn two_edits_on_one_line_keep_the_text_between_them() {
    let text = "use crate::a; use crate::b;\n";
    let items = vec![import(&["crate", "a"], 1, 4), import(&["crate", "b"], 1, 18)];
    assert_eq!(read_process(&file(text, items), "x", false, &[]), Ok("use crate::x::a; use crate::x::b;\n".to_string()));
}

#[test]
fn two_module_pointers_on_one_line() {
    let f = file("mod a; mod b;\n", vec![pointer("a", 1, 0), pointer("b", 1, 7)]);
    assert_eq!(read_process(&f, "x", false, &[]), Ok(" \n".to_string()));
}

#[test]
fn every_line_of_the_result_ends_with_a_line_feed() {
    let f = file("fn a() {}\r\nfn b() {}", vec![]);
    assert_eq!(read_process(&f, "x", false, &[]), Ok("fn a() {}\nfn b() {}\n".to_string()));
}

#[test]
fn an_empty_text_stays_empty() {
    assert_eq!(read_process(&file("", vec![]), "x", false, &[]), Ok(String::new()));
    assert_eq!(read_process(&file("", vec![pointer("a", 1, 0)]), "x", false, &[]), Ok(String::new()));
}

#[test]
fn characters_beyond_ascii_count_as_one_column() {
    let text = "/* é */ use crate::a;\n";
    let f = file(text, vec![import(&["crate", "a"], 1, 12)]);
    assert_eq!(read_process(&f, "x", false, &[]), Ok("/* é */ use crate::x::a;\n".to_string()));
}

#[test]
fn declarations_that_do_not_fit_the_text_are_refused() {
    let beyond_last_line = file("fn a() {}\n", vec![pointer("inner", 2, 0)]);
    assert_eq!(read_process(&beyond_last_line, "x", false, &[]), Err(Error::ParseFailure { location: "src/lib.rs".to_string() }));
    let beyond_line_end = file("mod a;\n", vec![pointer("inner", 1, 3)]);
    assert_eq!(read_process(&beyond_line_end, "x", false, &[]), Err(Error::ParseFailure { location: "src/lib.rs".to_string() }));
    let line_zero = file("mod a;\n", vec![pointer("a", 0, 0)]);
    assert_eq!(read_process(&line_zero, "x", false, &[]), Err(Error::ParseFailure { location: "src/lib.rs".to_string() }));
    let overlapping = file("mod a; mod b;\n", vec![pointer("a", 1, 0), pointer("b", 1, 3)]);
    assert_eq!(read_process(&overlapping, "x", false, &[]), Err(Error::ParseFailure { location: "src/lib.rs".to_string() }));
    let backwards = Item::Mod { name: "a".to_string(), visibility: String::new(), start: at(1, 6), end: at(1, 0), body: None };
    assert_eq!(read_process(&file("mod a; x\n", vec![backwards]), "x", false, &[]), Err(Error::ParseFailure { location: "src/lib.rs".to_string() }));
    assert_eq!(compile_entry(&file("x\n", vec![pointer("a", 3, 0)]), "x", &[]), Err(Error::ParseFailure { location: "src/lib.rs".to_string() }));
}

#[test]
fn edits_are_scheduled_imports_first() {
    let items = vec![pointer("inner", 1, 0), import(&["crate", "a"], 2, 4)];
    let edits = schedule(&items, "lib", false, &[]);
    assert_eq!(
        edits,
        vec![
            Edit { start: at(2, 9), end: at(2, 9), text: "::lib".to_string() },
            Edit { start: at(1, 0), end: at(1, 10), text: String::new() },
        ]
    );
    let outside = schedule(&vec![import(&["lib", "a"], 2, 4)], "lib", true, &[]);
    assert_eq!(outside, vec![Edit { start: at(2, 4), end: at(2, 4), text: "crate::".to_string() }]);
}

#[test]
fn edits_are_sorted_by_start_then_end() {
    let e = |l0, c0, l1, c1, t: &str| Edit { start: at(l0, c0), end: at(l1, c1), text: t.to_string() };
    let sorted = sort_edits(vec![e(2, 0, 2, 5, "d"), e(1, 4, 1, 9, "c"), e(1, 4, 1, 4, "b"), e(1, 0, 3, 0, "a"), e(1, 4, 1, 4, "b2")]);
    assert_eq!(sorted, vec![e(1, 0, 3, 0, "a"), e(1, 4, 1, 4, "b"), e(1, 4, 1, 4, "b2"), e(1, 4, 1, 9, "c"), e(2, 0, 2, 5, "d")]);
}

#[test]
fn edits_replace_what_they_cover() {
    let lines = split_lines(&to_chars("hello world\nsecond line\n"));
    let e = |l0, c0, l1, c1, t: &str| Edit { start: at(l0, c0), end: at(l1, c1), text: t.to_string() };
    let out = apply_edits(&lines, &vec![e(1, 0, 1, 5, "HELLO"), e(1, 6, 2, 6, "-")]).map(|v| from_chars(&v));
    assert_eq!(out, Some("HELLO - line\n".to_string()));
    assert_eq!(apply_edits(&lines, &vec![]).map(|v| from_chars(&v)), Some("hello world\nsecond line\n".to_string()));
    assert_eq!(apply_edits(&lines, &vec![e(1, 6, 2, 6, "-"), e(1, 0, 1, 5, "HELLO")]), None);
    assert_eq!(apply_edits(&lines, &vec![e(3, 0, 3, 0, "x")]), None);
}

#[test]
fn a_removal_between_blank_margins_takes_its_lines() {
    let lines = split_lines(&to_chars("a\n \t x \r\nb\n"));
    let e = Edit { start: at(2, 3), end: at(2, 4), text: String::new() };
    assert_eq!(apply_edits(&lines, &vec![e]).map(|v| from_chars(&v)), Some("a\nb\n".to_string()));
    let replaced = Edit { start: at(2, 3), end: at(2, 4), text: "y".to_string() };
    assert_eq!(apply_edits(&lines, &vec![replaced]).map(|v| from_chars(&v)), Some("a\n \t y \nb\n".to_string()));
}

#[test]
fn entry_and_bundle_are_joined_with_one_empty_line() {
    assert_eq!(join_bundle("fn main() {}\n", "\npub mod a {\n}\n"), "fn main() {}\n\npub mod a {\n}\n");
    assert_eq!(join_bundle("fn main() {}\n\n\n", "\n\npub mod a {\n}\n"), "fn main() {}\n\npub mod a {\n}\n");
    assert_eq!(join_bundle("fn main() {}", "pub mod a {}"), "fn main() {}\n\npub mod a {}");
}

#[test]
fn joined_text_starts_without_line_feeds() {
    assert_eq!(join_bundle("\n\nfn main() {}\n", ""), "fn main() {}\n");
    assert_eq!(join_bundle("", "\npub mod a {}\n"), "pub mod a {}\n");
    assert_eq!(join_bundle("\n", "\npub mod a {}\n"), "pub mod a {}\n");
    assert_eq!(join_bundle("", ""), "");
    assert_eq!(join_bundle("x\n", ""), "x\n");
}
