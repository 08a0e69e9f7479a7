//! What a parsed source file looks like to the bundler.
//!
//! The bundler does not parse. It works on the few facts about a file that
//! its rules read: the import trees, the module declarations and the macro
//! declarations, each with the places in the text where it was found.

use vstd::prelude::*;

verus! {

/// A place in a source text. `line` counts from one; `column` counts the
/// characters before the place on its line, from zero.
#[derive(Clone, Copy, Debug, PartialEq, Eq, Structural)]
pub struct Position {
    pub line: usize,
    pub column: usize,
}

/// An identifier and the stretch of text it occupies.
#[derive(Clone, Debug)]
pub struct Ident {
    pub name: String,
    pub start: Position,
    pub end: Position,
}

/// The tree of one import statement.
#[derive(Debug)]
pub enum UseTree {
    /// `ident::tree`
    Path { ident: Ident, tree: Box<UseTree> },
    /// `ident`
    Name { ident: Ident },
    /// `ident as other`
    Rename { ident: Ident },
    /// `*`
    Glob,
    /// `{a, b, c}`
    Group { items: Vec<UseTree> },
}

/// An attribute on a declaration: `#[path arguments]`, or `#![path arguments]`
/// when `inner` is set. `arguments` is empty for a bare attribute.
#[derive(Clone, Debug)]
pub struct Attribute {
    pub inner: bool,
    pub path: String,
    pub arguments: String,
}

/// A declaration that the bundler's rules look at. Declarations found inside
/// a function body or another block count as lying directly in the module
/// that surrounds them.
#[derive(Debug)]
pub enum Item {
    /// An import statement.
    Use { tree: UseTree },
    /// A module declaration, from the start of its first token to the end of
    /// its last. Without a `body` it points to another file. `visibility` is
    /// the qualifier as written, empty where there is none.
    Mod { name: String, visibility: String, start: Position, end: Position, body: Option<Vec<Item>> },
    /// A macro declaration or invocation; only a declaration has an `ident`.
    Macro { ident: Option<String>, attributes: Vec<Attribute> },
}

/// One source file: where it lies, its text, and its declarations in the
/// order in which they appear in the text.
#[derive(Debug)]
pub struct SourceFile {
    pub location: String,
    pub content: String,
    pub items: Vec<Item>,
}

/// What a directory holds, in the order in which it was listed.
#[derive(Debug)]
pub enum DirEntry {
    Dir { name: String, entries: Vec<DirEntry> },
    File { name: String, source: SourceFile },
}

} // verus!
