//! Edits of one file's text: which are scheduled, and what they make of it.

use vstd::prelude::*;
use vstd::string::*;
use crate::error::{Error, Failure};
use crate::syntax::{Ident, Item, Position, SourceFile, UseTree};
use crate::text::{
    all_space, between, blank_range, from_chars, has_text, is_place, lemma_terminated_concat,
    lemma_terminated_line, lemma_text_from, lemma_text_from_line, lemma_text_up_to, lines_of,
    place_le, push_between, push_str, rows, same_text, split_lines, terminated, texts, to_chars,
};

verus! {

/// One substitution: the text from `start` up to `end` gives way to `text`.
#[derive(Clone, Debug, PartialEq, Eq)]
pub struct Edit {
    pub start: Position,
    pub end: Position,
    pub text: String,
}

/// An edit as contracts see it.
pub struct EditView {
    pub start: Position,
    pub end: Position,
    pub text: Seq<char>,
}

impl View for Edit {
    type V = EditView;

    open spec fn view(&self) -> EditView {
        EditView { start: self.start, end: self.end, text: self.text@ }
    }
}

/// The edits that a list of edits stands for.
pub open spec fn views(edits: Seq<Edit>) -> Seq<EditView> {
    Seq::new(edits.len(), |i: int| edits[i]@)
}

/// The word that stands for the root of the crate in which it is written.
pub open spec fn root_keyword() -> Seq<char> {
    "crate"@
}

/// Whether an import names an exported macro at the root: such an import is
/// left as it is. `root` is what the root is called where the import stands.
pub open spec fn names_macro(tree: UseTree, root: Seq<char>, macros: Seq<Seq<char>>) -> bool {
    tree matches UseTree::Path { ident, tree: rest } && ident.name@ == root && (*rest matches UseTree::Name {
        ident: name,
    } && macros.contains(name.name@))
}

/// The identifier with which an import begins, where it begins with one and
/// is not left alone as the import of an exported macro.
pub open spec fn leading(tree: UseTree, root: Seq<char>, macros: Seq<Seq<char>>) -> Option<Ident> {
    match tree {
        UseTree::Path { ident, tree: rest } => if names_macro(tree, root, macros) {
            None
        } else {
            Some(ident)
        },
        UseTree::Name { ident } => Some(ident),
        _ => None,
    }
}

/// The edit that one import calls for.
///
/// Inside the bundle (`external` unset) the text of a file moves one module
/// down, under a module named after the crate: an import that begins with the
/// root keyword gets `::` and the crate's name behind the keyword. The entry
/// file (`external` set) stays at the top, and the crate becomes a module
/// beside it: an import that begins with the crate's name gets the root
/// keyword and `::` in front.
pub open spec fn import_edit(
    tree: UseTree,
    crate_name: Seq<char>,
    external: bool,
    macros: Seq<Seq<char>>,
) -> Option<EditView> {
    let root = if external {
        crate_name
    } else {
        root_keyword()
    };
    match leading(tree, root, macros) {
        Some(ident) => if ident.name@ != root {
            None
        } else if external {
            Some(EditView { start: ident.start, end: ident.start, text: "crate::"@ })
        } else {
            Some(EditView { start: ident.end, end: ident.end, text: "::"@ + crate_name })
        },
        None => None,
    }
}

/// The edits for the imports among `items` and in the bodies of the modules
/// among them, in the order of the text.
pub open spec fn import_edits(
    items: Seq<Item>,
    crate_name: Seq<char>,
    external: bool,
    macros: Seq<Seq<char>>,
) -> Seq<EditView>
    decreases items,
{
    if items.len() == 0 {
        Seq::empty()
    } else {
        let before = import_edits(items.drop_last(), crate_name, external, macros);
        match items.last() {
            Item::Use { tree } => match import_edit(tree, crate_name, external, macros) {
                Some(e) => before.push(e),
                None => before,
            },
            Item::Mod { body: Some(inner), .. } => before + import_edits(
                inner@,
                crate_name,
                external,
                macros,
            ),
            _ => before,
        }
    }
}

/// The removals among `items`: one for each module declaration that points
/// to another file, whose text is spliced in elsewhere. In the order of the text.
pub open spec fn removal_edits(items: Seq<Item>) -> Seq<EditView>
    decreases items,
{
    if items.len() == 0 {
        Seq::empty()
    } else {
        let before = removal_edits(items.drop_last());
        match items.last() {
            Item::Mod { start, end, body: None, .. } => before.push(
                EditView { start, end, text: Seq::empty() },
            ),
            Item::Mod { body: Some(inner), .. } => before + removal_edits(inner@),
            _ => before,
        }
    }
}

/// All the edits that a file's declarations call for: those of the imports,
/// then the removals.
pub open spec fn scheduled(
    items: Seq<Item>,
    crate_name: Seq<char>,
    external: bool,
    macros: Seq<Seq<char>>,
) -> Seq<EditView> {
    import_edits(items, crate_name, external, macros) + removal_edits(items)
}

/// The edit that one import calls for, if it calls for one.
fn import_edit_of(tree: &UseTree, crate_name: &str, external: bool, macros: &[String]) -> (r: Option<
    Edit,
>)
    ensures
        r is Some <==> import_edit(*tree, crate_name@, external, texts(macros@)) is Some,
        r matches Some(e) ==> Some(e@) == import_edit(
            *tree,
            crate_name@,
            external,
            texts(macros@),
        ),
{
    let root = if external {
        crate_name
    } else {
        "crate"
    };
    let ident = match tree {
        UseTree::Path { ident, tree: rest } => {
            let skip = match &**rest {
                UseTree::Name { ident: name } => same_text(ident.name.as_str(), root) && has_text(
                    macros,
                    name.name.as_str(),
                ),
                _ => false,
            };
            if skip {
                return None;
            }
            ident
        },
        UseTree::Name { ident } => ident,
        _ => {
            return None;
        },
    };
    if !same_text(ident.name.as_str(), root) {
        None
    } else if external {
        Some(Edit { start: ident.start, end: ident.start, text: "crate::".to_owned() })
    } else {
        let mut text = "::".to_owned();
        text.append(crate_name);
        Some(Edit { start: ident.end, end: ident.end, text })
    }
}

/// Appends the edits for the imports among `items`.
fn schedule_imports(
    items: &Vec<Item>,
    crate_name: &str,
    external: bool,
    macros: &[String],
    out: &mut Vec<Edit>,
)
    ensures
        views(final(out)@) == views(old(out)@) + import_edits(
            items@,
            crate_name@,
            external,
            texts(macros@),
        ),
    decreases items,
{
    let ghost start = views(out@);
    let mut i: usize = 0;
    while i < items.len()
        invariant
            i <= items.len(),
            views(out@) == start + import_edits(
                items@.take(i as int),
                crate_name@,
                external,
                texts(macros@),
            ),
        decreases items.len() - i,
    {
        let ghost before = views(out@);
        assert(items@.take(i + 1).drop_last() == items@.take(i as int));
        assert(items@.take(i + 1).last() == items@[i as int]);
        match &items[i] {
            Item::Use { tree } => {
                match import_edit_of(tree, crate_name, external, macros) {
                    Some(e) => {
                        out.push(e);
                        assert(views(out@) == before.push(e@));
                    },
                    None => {},
                }
            },
            Item::Mod { body: Some(inner), .. } => {
                schedule_imports(inner, crate_name, external, macros, out);
            },
            _ => {},
        }
        i += 1;
    }
    assert(items@.take(items.len() as int) == items@);
}

/// Appends the removals among `items`.
fn schedule_removals(items: &Vec<Item>, out: &mut Vec<Edit>)
    ensures
        views(final(out)@) == views(old(out)@) + removal_edits(items@),
    decreases items,
{
    let ghost start = views(out@);
    let mut i: usize = 0;
    while i < items.len()
        invariant
            i <= items.len(),
            views(out@) == start + removal_edits(items@.take(i as int)),
        decreases items.len() - i,
    {
        let ghost before = views(out@);
        assert(items@.take(i + 1).drop_last() == items@.take(i as int));
        assert(items@.take(i + 1).last() == items@[i as int]);
        match &items[i] {
            Item::Mod { start, end, body: None, .. } => {
                let e = Edit { start: *start, end: *end, text: String::new() };
                out.push(e);
                assert(views(out@) == before.push(e@));
            },
            Item::Mod { body: Some(inner), .. } => {
                schedule_removals(inner, out);
            },
            _ => {},
        }
        i += 1;
    }
    assert(items@.take(items.len() as int) == items@);
}

/// Lists the edits that a file's declarations call for.
pub fn schedule(items: &Vec<Item>, crate_name: &str, external: bool, macros: &[String]) -> (r: Vec<
    Edit,
>)
    ensures
        views(r@) == scheduled(items@, crate_name@, external, texts(macros@)),
{
    let mut out: Vec<Edit> = Vec::new();
    schedule_imports(items, crate_name, external, macros, &mut out);
    schedule_removals(items, &mut out);
    out
}


/// Whether `a` is to be applied no later than `b`: by where they start, then
/// by where they end.
pub open spec fn edit_le(a: EditView, b: EditView) -> bool {
    ||| place_le(a.start.line as int, a.start.column as int, b.start.line as int, b.start.column as int)
        && !(a.start == b.start)
    ||| a.start == b.start && place_le(
        a.end.line as int,
        a.end.column as int,
        b.end.line as int,
        b.end.column as int,
    )
}

/// `sorted` with `e` put behind the last edit that is to be applied no later.
pub open spec fn insert_edit(sorted: Seq<EditView>, e: EditView) -> Seq<EditView>
    decreases sorted.len(),
{
    if sorted.len() == 0 {
        seq![e]
    } else if edit_le(sorted.last(), e) {
        sorted.push(e)
    } else {
        insert_edit(sorted.drop_last(), e).push(sorted.last())
    }
}

/// The edits in the order of their application. Edits that start and end at
/// the same places keep the order in which they were scheduled.
pub open spec fn sorted_edits(edits: Seq<EditView>) -> Seq<EditView>
    decreases edits.len(),
{
    if edits.len() == 0 {
        Seq::empty()
    } else {
        insert_edit(sorted_edits(edits.drop_last()), edits.last())
    }
}

/// Whether each edit is to be applied no later than those behind it.
pub open spec fn ordered(edits: Seq<EditView>) -> bool {
    forall|i: int, j: int| 0 <= i < j < edits.len() ==> edit_le(edits[i], edits[j])
}

/// Putting an edit in its place: behind the `j` edits that are to be
/// applied no later, before the others.
proof fn lemma_insert_at(sorted: Seq<EditView>, e: EditView, j: int)
    requires
        0 <= j <= sorted.len(),
        j > 0 ==> edit_le(sorted[j - 1], e),
        forall|i: int| j <= i < sorted.len() ==> !edit_le(sorted[i], e),
    ensures
        insert_edit(sorted, e) == sorted.take(j) + seq![e] + sorted.skip(j),
    decreases sorted.len(),
{
    if sorted.len() == 0 {
    } else if j == sorted.len() {
        assert(sorted.take(j) == sorted);
        assert(sorted.skip(j) == Seq::<EditView>::empty());
    } else {
        let front = sorted.drop_last();
        lemma_insert_at(front, e, j);
        assert(front.take(j) == sorted.take(j));
        assert(front.skip(j).push(sorted.last()) == sorted.skip(j));
        assert((front.take(j) + seq![e] + front.skip(j)).push(sorted.last()) == sorted.take(j)
            + seq![e] + sorted.skip(j));
    }
}

/// Inserting keeps the order.
pub proof fn lemma_insert_ordered(sorted: Seq<EditView>, e: EditView)
    requires
        ordered(sorted),
    ensures
        ordered(insert_edit(sorted, e)),
        insert_edit(sorted, e).to_multiset() == sorted.to_multiset().insert(e),
        insert_edit(sorted, e).len() == sorted.len() + 1,
    decreases sorted.len(),
{
    broadcast use vstd::seq_lib::group_to_multiset_ensures;

    let r = insert_edit(sorted, e);
    if sorted.len() == 0 {
        assert(sorted == Seq::<EditView>::empty());
        assert(r == Seq::<EditView>::empty().push(e));
    } else if edit_le(sorted.last(), e) {
        assert forall|i: int, j: int| 0 <= i < j < r.len() implies edit_le(r[i], r[j]) by {
            if j == sorted.len() && i < sorted.len() - 1 {
                assert(edit_le(sorted[i], sorted.last()));
            }
        }
    } else {
        let front = sorted.drop_last();
        lemma_insert_ordered(front, e);
        let inner = insert_edit(front, e);
        assert(sorted == front.push(sorted.last()));
        assert forall|i: int, j: int| 0 <= i < j < r.len() implies edit_le(r[i], r[j]) by {
            if j == inner.len() {
                assert(inner.to_multiset().count(inner[i]) > 0);
                if inner[i] != e {
                    assert(front.to_multiset().count(inner[i]) > 0);
                    let k = choose|k: int| 0 <= k < front.len() && front[k] == inner[i];
                    assert(edit_le(sorted[k], sorted.last()));
                }
            }
        }
    }
}

/// The sorted edits are in order, and they are the scheduled edits, each as
/// often as it was scheduled.
pub proof fn lemma_sorted_edits(edits: Seq<EditView>)
    ensures
        ordered(sorted_edits(edits)),
        sorted_edits(edits).to_multiset() == edits.to_multiset(),
        sorted_edits(edits).len() == edits.len(),
    decreases edits.len(),
{
    broadcast use vstd::seq_lib::group_to_multiset_ensures;

    if edits.len() == 0 {
        assert(edits == Seq::<EditView>::empty());
    } else {
        lemma_sorted_edits(edits.drop_last());
        lemma_insert_ordered(sorted_edits(edits.drop_last()), edits.last());
        assert(edits == edits.drop_last().push(edits.last()));
    }
}

/// Whether `a` is to be applied no later than `b`.
fn applies_no_later(a: &Edit, b: &Edit) -> (r: bool)
    ensures
        r == edit_le(a@, b@),
{
    if a.start.line != b.start.line {
        a.start.line < b.start.line
    } else if a.start.column != b.start.column {
        a.start.column < b.start.column
    } else if a.end.line != b.end.line {
        a.end.line < b.end.line
    } else {
        a.end.column <= b.end.column
    }
}

/// Puts the edits in the order of their application.
pub fn sort_edits(edits: Vec<Edit>) -> (r: Vec<Edit>)
    ensures
        views(r@) == sorted_edits(views(edits@)),
{
    let ghost all = views(edits@);
    let mut out: Vec<Edit> = Vec::new();
    for e in it: edits
        invariant
            it.seq() == edits@,
            views(out@) == sorted_edits(all.take(it.index() as int)),
            all == views(edits@),
    {
        let ghost before = views(out@);
        let mut j: usize = out.len();
        while j > 0 && !applies_no_later(&out[j - 1], &e)
            invariant
                j <= out.len(),
                before == views(out@),
                forall|i: int| j <= i < out.len() ==> !edit_le(before[i], e@),
            decreases j,
        {
            j -= 1;
        }
        out.insert(j, e);
        proof {
            let n = it.index() as int;
            lemma_insert_at(before, e@, j as int);
            assert(views(out@) == before.take(j as int) + seq![e@] + before.skip(j as int));
            assert(all.take(n + 1).drop_last() == all.take(n));
            assert(all.take(n + 1).last() == e@);
        }
    }
    assert(all.take(edits@.len() as int) == all);
    out
}


/// Whether the position names a place on one of the lines.
pub open spec fn on_line(lines: Seq<Seq<char>>, p: Position) -> bool {
    1 <= p.line <= lines.len() && p.column <= lines[p.line - 1].len()
}

/// Whether a removal takes whole lines with it: it puts nothing in place of
/// what it removes, and nothing but white space stands before it on its first
/// line and behind it on its last.
pub open spec fn takes_lines(lines: Seq<Seq<char>>, e: EditView) -> bool {
    &&& e.text.len() == 0
    &&& all_space(lines[e.start.line - 1].subrange(0, e.start.column as int))
    &&& all_space(
        lines[e.end.line - 1].subrange(e.end.column as int, lines[e.end.line - 1].len() as int),
    )
}

/// Where the text that an edit replaces begins: line, counted from zero, and column.
pub open spec fn cut_from(lines: Seq<Seq<char>>, e: EditView) -> (int, int) {
    if takes_lines(lines, e) {
        (e.start.line - 1, 0)
    } else {
        (e.start.line - 1, e.start.column as int)
    }
}

/// Where the text that an edit replaces ends. A removal that takes whole
/// lines ends behind the line feed of its last line.
pub open spec fn cut_to(lines: Seq<Seq<char>>, e: EditView) -> (int, int) {
    if takes_lines(lines, e) {
        (e.end.line as int, 0)
    } else {
        (e.end.line - 1, e.end.column as int)
    }
}

/// Whether the edit can be applied when the text up to line `l`, column `c`
/// has been dealt with: it lies in the text, starts no earlier than that
/// place, and does not end before it starts.
pub open spec fn fits(lines: Seq<Seq<char>>, e: EditView, l: int, c: int) -> bool {
    &&& on_line(lines, e.start)
    &&& on_line(lines, e.end)
    &&& place_le(l, c, cut_from(lines, e).0, cut_from(lines, e).1)
    &&& place_le(cut_from(lines, e).0, cut_from(lines, e).1, cut_to(lines, e).0, cut_to(lines, e).1)
}

/// Whether the edits from the `k`th on can be applied one after the other,
/// starting at line `l`, column `c`: each fits where the one before it ended.
pub open spec fn applicable(lines: Seq<Seq<char>>, edits: Seq<EditView>, k: int, l: int, c: int) -> bool
    decreases edits.len() - k,
{
    if k < 0 || k >= edits.len() {
        true
    } else {
        fits(lines, edits[k], l, c) && applicable(
            lines,
            edits,
            k + 1,
            cut_to(lines, edits[k]).0,
            cut_to(lines, edits[k]).1,
        )
    }
}

/// The text from line `l`, column `c` on with the edits from the `k`th on
/// applied: what lies between two edits is kept as it is, what an edit covers
/// gives way to the edit's text, and every line ends with a line feed.
pub open spec fn spliced(lines: Seq<Seq<char>>, edits: Seq<EditView>, k: int, l: int, c: int) -> Seq<
    char,
>
    decreases edits.len() - k,
{
    if k < 0 || k >= edits.len() {
        between(lines, l, c, lines.len() as int, 0)
    } else {
        between(lines, l, c, cut_from(lines, edits[k]).0, cut_from(lines, edits[k]).1)
            + edits[k].text + spliced(
            lines,
            edits,
            k + 1,
            cut_to(lines, edits[k]).0,
            cut_to(lines, edits[k]).1,
        )
    }
}

/// Whether the position names a place on one of the lines.
fn lies_on_line(lines: &Vec<Vec<char>>, p: &Position) -> (r: bool)
    ensures
        r == on_line(rows(lines@), *p),
{
    if 1 <= p.line && p.line <= lines.len() {
        assert(rows(lines@)[p.line - 1] == lines[p.line - 1]@);
        p.column <= lines[p.line - 1].len()
    } else {
        false
    }
}

/// Whether the first place comes before the second or is the same.
fn comes_no_later(l0: usize, c0: usize, l1: usize, c1: usize) -> (r: bool)
    ensures
        r == place_le(l0 as int, c0 as int, l1 as int, c1 as int),
{
    l0 < l1 || (l0 == l1 && c0 <= c1)
}

/// Applies the edits, in the order given, to the text that the lines make up.
/// Returns `None` where they cannot be applied in that order.
pub fn apply_edits(lines: &Vec<Vec<char>>, edits: &Vec<Edit>) -> (r: Option<Vec<char>>)
    ensures
        r is Some <==> applicable(rows(lines@), views(edits@), 0, 0, 0),
        r matches Some(out) ==> out@ == spliced(rows(lines@), views(edits@), 0, 0, 0),
{
    let ghost text = rows(lines@);
    let ghost all = views(edits@);
    let mut out: Vec<char> = Vec::new();
    let mut l: usize = 0;
    let mut c: usize = 0;
    let mut k: usize = 0;
    while k < edits.len()
        invariant
            k <= edits.len(),
            text == rows(lines@),
            all == views(edits@),
            is_place(text, l as int, c as int),
            applicable(text, all, 0, 0, 0) == applicable(text, all, k as int, l as int, c as int),
            out@ + spliced(text, all, k as int, l as int, c as int) == spliced(text, all, 0, 0, 0),
        decreases edits.len() - k,
    {
        let e = &edits[k];
        assert(all[k as int] == e@);
        if !lies_on_line(lines, &e.start) || !lies_on_line(lines, &e.end) {
            return None;
        }
        let first = &lines[e.start.line - 1];
        let last = &lines[e.end.line - 1];
        assert(text[e.start.line - 1] == first@);
        assert(text[e.end.line - 1] == last@);
        let whole = e.text.as_str().is_empty() && blank_range(first, 0, e.start.column) && blank_range(
            last,
            e.end.column,
            last.len(),
        );
        assert(whole == takes_lines(text, e@));
        let (fl, fc): (usize, usize) = if whole {
            (e.start.line - 1, 0)
        } else {
            (e.start.line - 1, e.start.column)
        };
        let (tl, tc): (usize, usize) = if whole {
            (e.end.line, 0)
        } else {
            (e.end.line - 1, e.end.column)
        };
        if !comes_no_later(l, c, fl, fc) || !comes_no_later(fl, fc, tl, tc) {
            return None;
        }
        let ghost before = out@;
        push_between(&mut out, lines, l, c, fl, fc);
        push_str(&mut out, e.text.as_str());
        proof {
            let piece = between(text, l as int, c as int, fl as int, fc as int);
            let rest = spliced(text, all, k + 1, tl as int, tc as int);
            assert(out@ == before + piece + e@.text);
            assert(spliced(text, all, k as int, l as int, c as int) == piece + e@.text + rest);
            assert(out@ + rest == before + (piece + e@.text + rest));
        }
        l = tl;
        c = tc;
        k += 1;
    }
    push_between(&mut out, lines, l, c, lines.len(), 0);
    Some(out)
}

/// The edits of a file in the order of their application.
pub open spec fn file_edits(
    file: SourceFile,
    crate_name: Seq<char>,
    external: bool,
    macros: Seq<Seq<char>>,
) -> Seq<EditView> {
    sorted_edits(scheduled(file.items@, crate_name, external, macros))
}

/// Whether a file's text can be edited: it is empty, or its edits can be
/// applied one after the other from the start of the text.
pub open spec fn editable(
    file: SourceFile,
    crate_name: Seq<char>,
    external: bool,
    macros: Seq<Seq<char>>,
) -> bool {
    let lines = lines_of(file.content@);
    lines.len() == 0 || applicable(lines, file_edits(file, crate_name, external, macros), 0, 0, 0)
}

/// A file's text after its edits.
pub open spec fn edited(
    file: SourceFile,
    crate_name: Seq<char>,
    external: bool,
    macros: Seq<Seq<char>>,
) -> Seq<char> {
    let lines = lines_of(file.content@);
    if lines.len() == 0 {
        Seq::empty()
    } else {
        spliced(lines, file_edits(file, crate_name, external, macros), 0, 0, 0)
    }
}

/// Rewrites the text of one file for the bundle.
///
/// With `external` unset the text is meant for the inside of the bundle,
/// under a module named `crate_name`; with `external` set it is the entry
/// file, which stays outside that module. `macros` are the names of the
/// exported macros. Fails where the file's declarations do not fit its text.
pub fn read_process(file: &SourceFile, crate_name: &str, external: bool, macros: &[String]) -> (r:
    Result<String, Error>)
    ensures
        r is Ok <==> editable(*file, crate_name@, external, texts(macros@)),
        r matches Ok(s) ==> s@ == edited(*file, crate_name@, external, texts(macros@)),
        r matches Err(e) ==> e@ == (Failure::ParseFailure { location: file.location@ }),
{
    let targets = sort_edits(schedule(&file.items, crate_name, external, macros));
    let content = to_chars(file.content.as_str());
    let lines = split_lines(&content);
    if lines.len() == 0 {
        return Ok(String::new());
    }
    match apply_edits(&lines, &targets) {
        Some(out) => Ok(from_chars(&out)),
        None => Err(Error::ParseFailure { location: file.location.clone() }),
    }
}

/// A removal that stands alone on its lines leaves no trace of them: the
/// result is the text without the lines from that of its start to that of
/// its end.
pub proof fn lemma_whole_lines_removed(lines: Seq<Seq<char>>, e: EditView)
    requires
        on_line(lines, e.start),
        on_line(lines, e.end),
        e.start.line <= e.end.line,
        takes_lines(lines, e),
    ensures
        applicable(lines, seq![e], 0, 0, 0),
        spliced(lines, seq![e], 0, 0, 0) == terminated(
            lines.take(e.start.line - 1) + lines.skip(e.end.line as int),
        ),
{
    let first = e.start.line - 1;
    let next = e.end.line as int;
    let n = lines.len() as int;
    assert(applicable(lines, seq![e], 1, next, 0));
    assert(spliced(lines, seq![e], 1, next, 0) == between(lines, next, 0, n, 0));
    assert(e.text == Seq::<char>::empty());
    assert(spliced(lines, seq![e], 0, 0, 0) == between(lines, 0, 0, first, 0) + between(
        lines,
        next,
        0,
        n,
        0,
    ));
    lemma_text_up_to(lines, first, 0);
    assert(lines[first].take(0) == Seq::<char>::empty());
    lemma_text_from_line(lines, next);
    lemma_terminated_concat(lines.take(first), lines.skip(next));
}

/// A removal beside which other text stands on its lines takes only what it
/// covers: the text before it on its first line and the text behind it on
/// its last line stay, and come to stand on one line.
pub proof fn lemma_part_of_line_removed(lines: Seq<Seq<char>>, e: EditView)
    requires
        on_line(lines, e.start),
        on_line(lines, e.end),
        place_le(
            e.start.line as int,
            e.start.column as int,
            e.end.line as int,
            e.end.column as int,
        ),
        e.text.len() == 0,
        !takes_lines(lines, e),
    ensures
        applicable(lines, seq![e], 0, 0, 0),
        spliced(lines, seq![e], 0, 0, 0) == terminated(
            lines.take(e.start.line - 1) + seq![
                lines[e.start.line - 1].take(e.start.column as int) + lines[e.end.line - 1].skip(
                    e.end.column as int,
                ),
            ] + lines.skip(e.end.line as int),
        ),
{
    let first = e.start.line - 1;
    let last = e.end.line - 1;
    let sc = e.start.column as int;
    let ec = e.end.column as int;
    let n = lines.len() as int;
    let head = lines.take(first);
    let tail = lines.skip(last + 1);
    let line = lines[first].take(sc) + lines[last].skip(ec);
    assert(applicable(lines, seq![e], 1, last, ec));
    assert(spliced(lines, seq![e], 1, last, ec) == between(lines, last, ec, n, 0));
    assert(e.text == Seq::<char>::empty());
    assert(spliced(lines, seq![e], 0, 0, 0) == between(lines, 0, 0, first, sc) + between(
        lines,
        last,
        ec,
        n,
        0,
    ));
    lemma_text_up_to(lines, first, sc);
    lemma_text_from(lines, last, ec);
    lemma_terminated_concat(head + seq![line], tail);
    lemma_terminated_concat(head, seq![line]);
    lemma_terminated_line(line);
    assert(terminated(head) + lines[first].take(sc) + (lines[last].skip(ec) + seq!['\n']
        + terminated(tail)) == terminated(head) + (line + seq!['\n']) + terminated(tail));
}

/// A file whose only declaration is a module pointer that stands alone on
/// its lines keeps all its other lines, and nothing of those.
pub proof fn lemma_pointer_line_removed(
    file: SourceFile,
    crate_name: Seq<char>,
    external: bool,
    macros: Seq<Seq<char>>,
)
    requires
        file.items@.len() == 1,
        file.items@[0] matches Item::Mod { start, end, body: None, .. } && {
            let removal = EditView { start, end, text: Seq::empty() };
            &&& on_line(lines_of(file.content@), start)
            &&& on_line(lines_of(file.content@), end)
            &&& start.line <= end.line
            &&& takes_lines(lines_of(file.content@), removal)
        },
    ensures
        editable(file, crate_name, external, macros),
        file.items@[0] matches Item::Mod { start, end, .. } && edited(
            file,
            crate_name,
            external,
            macros,
        ) == terminated(
            lines_of(file.content@).take(start.line - 1) + lines_of(file.content@).skip(
                end.line as int,
            ),
        ),
{
    let items = file.items@;
    let lines = lines_of(file.content@);
    match items[0] {
        Item::Mod { start, end, .. } => {
            let removal = EditView { start, end, text: Seq::empty() };
            assert(items.drop_last().len() == 0);
            assert(items.last() == items[0]);
            let front = items.drop_last();
            assert(import_edits(front, crate_name, external, macros) == Seq::<EditView>::empty());
            assert(removal_edits(front) == Seq::<EditView>::empty());
            assert(import_edits(items, crate_name, external, macros) == Seq::<EditView>::empty());
            assert(removal_edits(items) == seq![removal]);
            let all = scheduled(items, crate_name, external, macros);
            assert(all == seq![removal]);
            assert(all.drop_last().len() == 0);
            assert(sorted_edits(all.drop_last()) == Seq::<EditView>::empty());
            assert(sorted_edits(all) == seq![removal]);
            lemma_whole_lines_removed(lines, removal);
        },
        _ => {},
    }
}

/// Whether a module declaration that points to another file, from `start`
/// to `end`, stands among `items` or in the body of a module among them.
pub open spec fn declares_pointer(items: Seq<Item>, start: Position, end: Position) -> bool
    decreases items,
{
    if items.len() == 0 {
        false
    } else {
        declares_pointer(items.drop_last(), start, end) || match items.last() {
            Item::Mod { start: s, end: e, body: None, .. } => s == start && e == end,
            Item::Mod { body: Some(inner), .. } => declares_pointer(inner@, start, end),
            _ => false,
        }
    }
}

/// A module pointer among the declarations has its removal among the removals.
proof fn lemma_pointer_scheduled(items: Seq<Item>, start: Position, end: Position)
    requires
        declares_pointer(items, start, end),
    ensures
        removal_edits(items).contains(EditView { start, end, text: Seq::empty() }),
    decreases items,
{
    let removal = EditView { start, end, text: Seq::empty() };
    let before = removal_edits(items.drop_last());
    if declares_pointer(items.drop_last(), start, end) {
        lemma_pointer_scheduled(items.drop_last(), start, end);
        let i = choose|i: int| 0 <= i < before.len() && before[i] == removal;
        assert(removal_edits(items)[i] == removal);
    } else {
        match items.last() {
            Item::Mod { body: None, .. } => {
                assert(removal_edits(items)[before.len() as int] == removal);
            },
            Item::Mod { body: Some(inner), .. } => {
                lemma_pointer_scheduled(inner@, start, end);
                let inside = removal_edits(inner@);
                let i = choose|i: int| 0 <= i < inside.len() && inside[i] == removal;
                assert(removal_edits(items)[before.len() + i] == removal);
            },
            _ => {},
        }
    }
}

/// Every module declaration of a file that points to another file is
/// removed from the file's text: one of the file's edits puts nothing in
/// the place of the declaration.
pub proof fn lemma_pointer_removed(
    file: SourceFile,
    crate_name: Seq<char>,
    external: bool,
    macros: Seq<Seq<char>>,
    start: Position,
    end: Position,
)
    requires
        declares_pointer(file.items@, start, end),
    ensures
        file_edits(file, crate_name, external, macros).contains(
            EditView { start, end, text: Seq::empty() },
        ),
{
    broadcast use vstd::seq_lib::group_to_multiset_ensures;

    let removal = EditView { start, end, text: Seq::empty() };
    let all = scheduled(file.items@, crate_name, external, macros);
    lemma_pointer_scheduled(file.items@, start, end);
    let removals = removal_edits(file.items@);
    let i = choose|i: int| 0 <= i < removals.len() && removals[i] == removal;
    assert(all[import_edits(file.items@, crate_name, external, macros).len() + i] == removal);
    assert(all.contains(removal));
    lemma_sorted_edits(all);
    assert(all.to_multiset().count(removal) > 0);
    assert(sorted_edits(all).to_multiset().count(removal) > 0);
}

/// An import that names an exported macro at the root calls for no edit.
pub proof fn lemma_macro_import_kept(
    tree: UseTree,
    crate_name: Seq<char>,
    external: bool,
    macros: Seq<Seq<char>>,
)
    requires
        names_macro(
            tree,
            if external {
                crate_name
            } else {
                root_keyword()
            },
            macros,
        ),
    ensures
        import_edit(tree, crate_name, external, macros) is None,
{
}

} // verus!
