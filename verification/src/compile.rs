//! Puts the texts of the modules together into one text.
//!
//! Each module's text goes inside a module block of its name, and that block
//! inside the block of the module around it. The paths come in their order,
//! so a block stays open as long as the paths that follow lie inside it.

use vstd::prelude::*;
use vstd::string::*;
use crate::edit::{editable, edited, read_process};
use crate::error::{Error, Failure};
use crate::path::{ModPath, PathView};
use crate::syntax::SourceFile;
use crate::table::PathMap;
use crate::text::{from_chars, push_str, same_text, texts, to_chars};

verus! {

/// Whether the `i`th character of `s` stays: all stay but a line feed that
/// follows two line feeds.
pub open spec fn stays(s: Seq<char>, i: int) -> bool {
    !(s[i] == '\n' && i >= 2 && s[i - 1] == '\n' && s[i - 2] == '\n')
}

/// The text with every run of three or more line feeds cut down to two.
pub open spec fn collapsed(s: Seq<char>) -> Seq<char>
    decreases s.len(),
{
    if s.len() == 0 {
        Seq::empty()
    } else if stays(s, s.len() - 1) {
        collapsed(s.drop_last()).push(s.last())
    } else {
        collapsed(s.drop_last())
    }
}

/// Cuts the runs of line feeds in a list of characters.
fn reduce_chars(s: &Vec<char>) -> (r: Vec<char>)
    ensures
        r@ == collapsed(s@),
{
    let mut out: Vec<char> = Vec::new();
    let mut i: usize = 0;
    while i < s.len()
        invariant
            i <= s.len(),
            out@ == collapsed(s@.take(i as int)),
        decreases s.len() - i,
    {
        let ghost next = s@.take(i + 1);
        assert(next.drop_last() == s@.take(i as int));
        assert(stays(next, i as int) == stays(s@, i as int));
        if !(s[i] == '\n' && i >= 2 && s[i - 1] == '\n' && s[i - 2] == '\n') {
            out.push(s[i]);
        }
        i += 1;
    }
    assert(s@.take(s.len() as int) == s@);
    out
}

/// Cuts every run of three or more line feeds down to two, so that no more
/// than one empty line stands between two lines. Nothing else changes.
pub fn reduce_newline(s: String) -> (r: String)
    ensures
        r@ == collapsed(s@),
{
    from_chars(&reduce_chars(&to_chars(s.as_str())))
}

/// How many names two paths have in common from place `i` on, plus `i`.
pub open spec fn common_from(a: PathView, b: PathView, i: int) -> int
    decreases a.len() - i,
{
    if 0 <= i < a.len() && i < b.len() && a[i] == b[i] {
        common_from(a, b, i + 1)
    } else {
        i
    }
}

/// How many names two paths have in common at their beginning.
pub open spec fn common_len(a: PathView, b: PathView) -> int {
    common_from(a, b, 0)
}

/// The line that closes the block of module `name`.
pub open spec fn closing(name: Seq<char>) -> Seq<char> {
    "\n}  // mod "@ + name + "\n"@
}

/// The line that opens the block of the module at `path`, called `name`.
/// The module is as visible as it was declared: not at all beyond the
/// module around it where it was declared without a qualifier, and to
/// everyone where nothing is known of its declaration.
pub open spec fn opening(visibility: Map<PathView, Seq<char>>, path: PathView, name: Seq<char>) -> Seq<
    char,
> {
    if visibility.contains_key(path) && visibility[path].len() == 0 {
        "\nmod "@ + name + " {  // mod "@ + name + "\n"@
    } else {
        "\n"@ + (if visibility.contains_key(path) {
            visibility[path]
        } else {
            "pub"@
        }) + " mod "@ + name + " {  // mod "@ + name + "\n"@
    }
}

/// The lines that close the blocks of `open` from the innermost out, down to
/// the block of its `keep`th name, which stays open with those around it.
pub open spec fn closings(open: PathView, keep: int) -> Seq<char>
    decreases open.len(),
{
    if open.len() == 0 || open.len() <= keep {
        Seq::empty()
    } else {
        closing(open.last()) + closings(open.drop_last(), keep)
    }
}

/// The lines that open the blocks of `path` from its `from`th name inwards.
pub open spec fn openings(visibility: Map<PathView, Seq<char>>, path: PathView, from: int) -> Seq<char>
    decreases path.len() - from,
{
    if from < 0 || from >= path.len() {
        Seq::empty()
    } else {
        opening(visibility, path.take(from + 1), path[from]) + openings(visibility, path, from + 1)
    }
}

/// What one module adds to the bundle when the blocks of `open` stand open:
/// the blocks that do not lie around it are closed, those of its own path
/// that are not open yet are opened, and its text follows an empty line.
pub open spec fn module_text(
    visibility: Map<PathView, Seq<char>>,
    open: PathView,
    path: PathView,
    body: Seq<char>,
) -> Seq<char> {
    let base = common_len(open, path);
    closings(open, base) + openings(visibility, path, base) + "\n"@ + body
}

/// The blocks that stand open after the first `n` modules: those of the last of them.
pub open spec fn open_after(list: Seq<PathView>, n: int) -> PathView {
    if 0 < n <= list.len() {
        list[n - 1]
    } else {
        Seq::empty()
    }
}

/// What the first `n` modules add to the bundle.
pub open spec fn modules_text(
    visibility: Map<PathView, Seq<char>>,
    list: Seq<PathView>,
    bodies: Seq<Seq<char>>,
    n: int,
) -> Seq<char>
    decreases n,
{
    if n <= 0 {
        Seq::empty()
    } else {
        modules_text(visibility, list, bodies, n - 1) + module_text(
            visibility,
            open_after(list, n - 1),
            list[n - 1],
            bodies[n - 1],
        )
    }
}

/// The texts of the files as they go into the bundle.
pub open spec fn bodies(files: Seq<&SourceFile>, crate_name: Seq<char>, macros: Seq<Seq<char>>) -> Seq<
    Seq<char>,
> {
    Seq::new(files.len(), |i: int| edited(*files[i], crate_name, false, macros))
}

/// How many modules are bundled: as many as there are paths with a file.
pub open spec fn bundled(list: Seq<PathView>, files: Seq<&SourceFile>) -> int {
    if list.len() <= files.len() {
        list.len() as int
    } else {
        files.len() as int
    }
}

/// The bundle of the modules before runs of line feeds are cut down: what
/// the modules add one after the other, and the closing lines of the blocks
/// that stand open at the end.
pub open spec fn raw_bundle(
    visibility: Map<PathView, Seq<char>>,
    list: Seq<PathView>,
    files: Seq<&SourceFile>,
    crate_name: Seq<char>,
    macros: Seq<Seq<char>>,
) -> Seq<char> {
    let n = bundled(list, files);
    modules_text(visibility, list, bodies(files, crate_name, macros), n) + closings(
        open_after(list, n),
        0,
    )
}

/// Whether the texts of all files that are bundled can be edited.
pub open spec fn all_editable(
    list: Seq<PathView>,
    files: Seq<&SourceFile>,
    crate_name: Seq<char>,
    macros: Seq<Seq<char>>,
) -> bool {
    forall|i: int|
        0 <= i < bundled(list, files) ==> editable(*#[trigger] files[i], crate_name, false, macros)
}

/// Whether the `i`th file is the first of those bundled whose text cannot be edited.
pub open spec fn first_unfit(
    list: Seq<PathView>,
    files: Seq<&SourceFile>,
    crate_name: Seq<char>,
    macros: Seq<Seq<char>>,
    i: int,
) -> bool {
    &&& 0 <= i < bundled(list, files)
    &&& !editable(*files[i], crate_name, false, macros)
    &&& forall|k: int| 0 <= k < i ==> editable(*#[trigger] files[k], crate_name, false, macros)
}

/// The names that two paths have in common are the same in both.
proof fn lemma_common(a: PathView, b: PathView, i: int)
    requires
        0 <= i <= a.len(),
        i <= b.len(),
        a.take(i) == b.take(i),
    ensures
        i <= common_from(a, b, i) <= a.len(),
        common_from(a, b, i) <= b.len(),
        a.take(common_from(a, b, i)) == b.take(common_from(a, b, i)),
    decreases a.len() - i,
{
    if i < a.len() && i < b.len() && a[i] == b[i] {
        assert(a.take(i + 1) == a.take(i).push(a[i]));
        assert(b.take(i + 1) == b.take(i).push(b[i]));
        lemma_common(a, b, i + 1);
    }
}

/// Counts the names that two paths have in common at their beginning.
fn common_prefix(a: &[String], b: &[String]) -> (n: usize)
    ensures
        n == common_len(texts(a@), texts(b@)),
        n <= a.len(),
        n <= b.len(),
        texts(a@).take(n as int) == texts(b@).take(n as int),
{
    let mut i: usize = 0;
    proof {
        assert(texts(a@).take(0) == texts(b@).take(0));
        lemma_common(texts(a@), texts(b@), 0);
    }
    while i < a.len() && i < b.len() && same_text(a[i].as_str(), b[i].as_str())
        invariant
            i <= a.len(),
            i <= b.len(),
            common_from(texts(a@), texts(b@), i as int) == common_len(texts(a@), texts(b@)),
        decreases a.len() - i,
    {
        assert(texts(a@)[i as int] == a[i as int]@);
        assert(texts(b@)[i as int] == b[i as int]@);
        i += 1;
    }
    proof {
        if i < a.len() && i < b.len() {
            assert(texts(a@)[i as int] == a[i as int]@);
            assert(texts(b@)[i as int] == b[i as int]@);
        }
    }
    i
}

/// Appends the line that closes the block of a module.
fn push_closing(out: &mut Vec<char>, name: &str)
    ensures
        final(out)@ == old(out)@ + closing(name@),
{
    push_str(out, "\n}  // mod ");
    push_str(out, name);
    push_str(out, "\n");
}

/// Appends the line that opens the block of the module at `path`.
fn push_opening(out: &mut Vec<char>, visibility: &PathMap<String>, path: &[String], name: &str)
    ensures
        final(out)@ == old(out)@ + opening(visibility@, texts(path@), name@),
{
    let ghost before = out@;
    match visibility.get(path) {
        Some(v) => {
            if v.as_str().is_empty() {
                push_str(out, "\nmod ");
            } else {
                push_str(out, "\n");
                push_str(out, v.as_str());
                push_str(out, " mod ");
            }
        },
        None => {
            push_str(out, "\n");
            push_str(out, "pub");
            push_str(out, " mod ");
        },
    }
    push_str(out, name);
    push_str(out, " {  // mod ");
    push_str(out, name);
    push_str(out, "\n");
}

/// Puts the texts of the modules at `paths`, held by `files`, together.
///
/// `paths` are to come in their order, so that the blocks nest as the
/// modules do. `mod_visibility` says how each module was declared visible,
/// `macros` are the names of the exported macros. Fails where the
/// declarations of one of the files do not fit its text.
pub fn compile(
    crate_name: &str,
    paths: &[ModPath],
    files: &[&SourceFile],
    mod_visibility: PathMap<String>,
    macros: &[String],
) -> (r: Result<String, Error>)
    ensures
        r is Ok <==> all_editable(crate::path::paths(paths@), files@, crate_name@, texts(macros@)),
        r matches Ok(s) ==> s@ == collapsed(
            raw_bundle(
                mod_visibility@,
                crate::path::paths(paths@),
                files@,
                crate_name@,
                texts(macros@),
            ),
        ),
        r matches Err(e) ==> exists|i: int|
            first_unfit(crate::path::paths(paths@), files@, crate_name@, texts(macros@), i) && e@ == (
            Failure::ParseFailure { location: (#[trigger] files[i]).location@ }),
{
    let ghost vis = mod_visibility@;
    let ghost list = crate::path::paths(paths@);
    let ghost texts_in = bodies(files@, crate_name@, texts(macros@));
    let n: usize = if paths.len() <= files.len() {
        paths.len()
    } else {
        files.len()
    };
    let mut res: Vec<char> = Vec::new();
    let mut location: ModPath = Vec::new();
    proof {
        assert(texts(location@) == Seq::<Seq<char>>::empty());
    }
    let mut i: usize = 0;
    while i < n
        invariant
            i <= n,
            n == bundled(list, files@),
            vis == mod_visibility@,
            list == crate::path::paths(paths@),
            texts_in == bodies(files@, crate_name@, texts(macros@)),
            texts(location@) == open_after(list, i as int),
            res@ == modules_text(vis, list, texts_in, i as int),
            forall|k: int| 0 <= k < i ==> editable(*#[trigger] files[k], crate_name@, false, texts(macros@)),
        decreases n - i,
    {
        let path = &paths[i];
        let ghost prev = texts(location@);
        let ghost cur = texts(path@);
        let ghost start = res@;
        assert(list[i as int] == cur);
        let base = common_prefix(location.as_slice(), path.as_slice());
        while location.len() > base
            invariant
                base <= location.len(),
                texts(location@).len() <= prev.len(),
                texts(location@) == prev.take(location.len() as int),
                res@ + closings(texts(location@), base as int) == start + closings(prev, base as int),
            decreases location.len(),
        {
            let ghost open = texts(location@);
            let name = location.pop().unwrap();
            assert(open.last() == name@);
            assert(texts(location@) == open.drop_last());
            let ghost before = res@;
            push_closing(&mut res, name.as_str());
            assert(res@ + closings(open.drop_last(), base as int) == before + closings(
                open,
                base as int,
            ));
        }
        let ghost closed = res@;
        assert(closed == start + closings(prev, base as int));
        while location.len() < path.len()
            invariant
                base <= location.len() <= path.len(),
                vis == mod_visibility@,
                cur == texts(path@),
                texts(location@) == cur.take(location.len() as int),
                res@ + openings(vis, cur, location.len() as int) == closed + openings(
                    vis,
                    cur,
                    base as int,
                ),
            decreases path.len() - location.len(),
        {
            let ghost k = location.len() as int;
            let ghost open = texts(location@);
            let name = &path[location.len()];
            assert(cur[k] == name@);
            location.push(name.clone());
            assert(texts(location@) == open.push(name@));
            assert(cur.take(k + 1) == cur.take(k).push(cur[k]));
            let ghost before = res@;
            push_opening(&mut res, &mod_visibility, location.as_slice(), name.as_str());
            assert(res@ + openings(vis, cur, k + 1) == before + openings(vis, cur, k));
        }
        assert(cur.take(path.len() as int) == cur);
        let ghost opened = res@;
        assert(opened == closed + openings(vis, cur, base as int));
        push_str(&mut res, "\n");
        match read_process(files[i], crate_name, false, macros) {
            Ok(body) => {
                push_str(&mut res, body.as_str());
                proof {
                    assert(texts_in[i as int] == body@);
                    assert(res@ == start + module_text(vis, prev, cur, body@));
                }
            },
            Err(e) => {
                assert(first_unfit(list, files@, crate_name@, texts(macros@), i as int));
                return Err(e);
            },
        }
        i += 1;
    }
    let ghost done = res@;
    while location.len() > 0
        invariant
            res@ + closings(texts(location@), 0) == done + closings(open_after(list, n as int), 0),
        decreases location.len(),
    {
        let ghost open = texts(location@);
        let name = location.pop().unwrap();
        assert(open.last() == name@);
        assert(texts(location@) == open.drop_last());
        let ghost before = res@;
        push_closing(&mut res, name.as_str());
        assert(res@ + closings(open.drop_last(), 0) == before + closings(open, 0));
    }
    assert(texts(location@).len() == 0);
    Ok(from_chars(&reduce_chars(&res)))
}

/// Rewrites the text of the entry file, which stays outside the module
/// that the bundle puts the crate in.
pub fn compile_entry(file: &SourceFile, crate_name: &str, macros: &[String]) -> (r: Result<String, Error>)
    ensures
        r is Ok <==> editable(*file, crate_name@, true, texts(macros@)),
        r matches Ok(s) ==> s@ == edited(*file, crate_name@, true, texts(macros@)),
        r matches Err(e) ==> e@ == (Failure::ParseFailure { location: file.location@ }),
{
    read_process(file, crate_name, true, macros)
}

/// How many line feeds stand at the start of `s` from place `i` on, plus `i`.
pub open spec fn blank_start(s: Seq<char>, i: int) -> int
    decreases s.len() - i,
{
    if 0 <= i < s.len() && s[i] == '\n' {
        blank_start(s, i + 1)
    } else {
        i
    }
}

/// The text without the line feeds at its start.
pub open spec fn without_blank_start(s: Seq<char>) -> Seq<char> {
    s.skip(blank_start(s, 0))
}

/// The text without the line feeds at its end.
pub open spec fn without_blank_end(s: Seq<char>) -> Seq<char>
    decreases s.len(),
{
    if s.len() > 0 && s.last() == '\n' {
        without_blank_end(s.drop_last())
    } else {
        s
    }
}

/// The entry file's text and the bundle as one text. Where there is a
/// bundle, one empty line stands between the two. No line feed stands at
/// the start.
pub open spec fn joined(entry: Seq<char>, bundle: Seq<char>) -> Seq<char> {
    if bundle.len() == 0 {
        without_blank_start(entry)
    } else {
        without_blank_start(without_blank_end(entry) + "\n\n"@ + without_blank_start(bundle))
    }
}

/// The characters without the line feeds at their start.
fn skip_blank_start(s: &Vec<char>) -> (r: Vec<char>)
    ensures
        r@ == without_blank_start(s@),
{
    let mut k: usize = 0;
    while k < s.len() && s[k] == '\n'
        invariant
            k <= s.len(),
            blank_start(s@, k as int) == blank_start(s@, 0),
        decreases s.len() - k,
    {
        k += 1;
    }
    let mut out: Vec<char> = Vec::new();
    crate::text::push_range(&mut out, s, k, s.len());
    assert(s@.subrange(k as int, s@.len() as int) == s@.skip(k as int));
    out
}

/// Joins the rewritten entry file and the bundle into the text to hand out.
pub fn join_bundle(entry: &str, bundle: &str) -> (r: String)
    ensures
        r@ == joined(entry@, bundle@),
{
    let first = to_chars(entry);
    if bundle.is_empty() {
        return from_chars(&skip_blank_start(&first));
    }
    let mut n: usize = first.len();
    assert(first@.take(n as int) == first@);
    while n > 0 && first[n - 1] == '\n'
        invariant
            n <= first.len(),
            without_blank_end(first@.take(n as int)) == without_blank_end(first@),
        decreases n,
    {
        assert(first@.take(n as int).drop_last() == first@.take(n - 1));
        n -= 1;
    }
    let mut whole: Vec<char> = Vec::new();
    crate::text::push_range(&mut whole, &first, 0, n);
    assert(first@.subrange(0, n as int) == first@.take(n as int));
    push_str(&mut whole, "\n\n");
    let second = skip_blank_start(&to_chars(bundle));
    crate::text::push_range(&mut whole, &second, 0, second.len());
    assert(second@.subrange(0, second@.len() as int) == second@);
    from_chars(&skip_blank_start(&whole))
}

/// The line feeds at the start of a text end before its first other character.
proof fn lemma_blank_start(s: Seq<char>, i: int)
    requires
        0 <= i <= s.len(),
    ensures
        i <= blank_start(s, i) <= s.len(),
        blank_start(s, i) < s.len() ==> s[blank_start(s, i)] != '\n',
    decreases s.len() - i,
{
    if i < s.len() && s[i] == '\n' {
        lemma_blank_start(s, i + 1);
    }
}

/// The text that is handed out does not begin with a line feed.
pub proof fn lemma_joined_start(entry: Seq<char>, bundle: Seq<char>)
    ensures
        joined(entry, bundle).len() > 0 ==> joined(entry, bundle)[0] != '\n',
{
    let whole = if bundle.len() == 0 {
        entry
    } else {
        without_blank_end(entry) + "\n\n"@ + without_blank_start(bundle)
    };
    lemma_blank_start(whole, 0);
}

/// How many line feeds stand at the end of `s`.
pub open spec fn blank_end(s: Seq<char>) -> nat
    decreases s.len(),
{
    if s.len() > 0 && s.last() == '\n' {
        blank_end(s.drop_last()) + 1
    } else {
        0
    }
}

/// The characters of `s` that are no line feeds, in order.
pub open spec fn inked(s: Seq<char>) -> Seq<char>
    decreases s.len(),
{
    if s.len() == 0 {
        Seq::empty()
    } else if s.last() == '\n' {
        inked(s.drop_last())
    } else {
        inked(s.drop_last()).push(s.last())
    }
}

/// Whether no three line feeds stand in a row in `s`.
pub open spec fn no_long_run(s: Seq<char>) -> bool {
    forall|i: int| 2 <= i < s.len() ==> !(s[i - 2] == '\n' && s[i - 1] == '\n' && #[trigger] s[i] == '\n')
}

/// What `blank_end` says of the last two characters.
proof fn lemma_blank_end(s: Seq<char>)
    ensures
        blank_end(s) <= s.len(),
        blank_end(s) >= 1 <==> s.len() >= 1 && s[s.len() - 1] == '\n',
        blank_end(s) >= 2 <==> s.len() >= 2 && s[s.len() - 1] == '\n' && s[s.len() - 2] == '\n',
    decreases s.len(),
{
    if s.len() > 0 {
        lemma_blank_end(s.drop_last());
    }
}

/// What cutting the runs does: to the runs, to the line feeds at the end,
/// and to the other characters.
proof fn lemma_collapsed(s: Seq<char>)
    ensures
        no_long_run(collapsed(s)),
        blank_end(collapsed(s)) == if blank_end(s) < 2 {
            blank_end(s)
        } else {
            2
        },
        inked(collapsed(s)) == inked(s),
        collapsed(s).len() <= s.len(),
    decreases s.len(),
{
    if s.len() > 0 {
        let front = s.drop_last();
        let out = collapsed(front);
        lemma_collapsed(front);
        lemma_blank_end(front);
        lemma_blank_end(out);
        lemma_blank_end(s);
        if stays(s, s.len() - 1) {
            assert(out.push(s.last()).drop_last() == out);
        }
    }
}

/// Cutting down the runs of line feeds leaves no three of them in a row,
/// and changes nothing else: the other characters stay as they are and in
/// their order.
pub proof fn lemma_collapsed_text(s: Seq<char>)
    ensures
        no_long_run(collapsed(s)),
        inked(collapsed(s)) == inked(s),
{
    lemma_collapsed(s);
}

/// A text without three line feeds in a row stays as it is.
pub proof fn lemma_collapsed_again(s: Seq<char>)
    requires
        no_long_run(s),
    ensures
        collapsed(s) == s,
    decreases s.len(),
{
    if s.len() > 0 {
        let front = s.drop_last();
        assert(no_long_run(front)) by {
            assert forall|i: int| 2 <= i < front.len() implies !(front[i - 2] == '\n' && front[i - 1]
                == '\n' && #[trigger] front[i] == '\n') by {
                assert(s[i] == front[i]);
            }
        }
        lemma_collapsed_again(front);
        if s.len() >= 3 {
            assert(s[s.len() - 1] == s.last());
        }
        assert(s == front.push(s.last()));
    }
}

/// The text of every module that is bundled stands in the bundle, behind
/// the lines that open the blocks around it which were not open yet.
pub proof fn lemma_module_placed(
    visibility: Map<PathView, Seq<char>>,
    list: Seq<PathView>,
    bodies: Seq<Seq<char>>,
    n: int,
    i: int,
)
    requires
        0 <= i < n,
    ensures
        exists|before: Seq<char>, after: Seq<char>|
            modules_text(visibility, list, bodies, n) == before + #[trigger] module_text(
                visibility,
                open_after(list, i),
                list[i],
                bodies[i],
            ) + after,
    decreases n,
{
    let piece = module_text(visibility, open_after(list, i), list[i], bodies[i]);
    if i == n - 1 {
        let before = modules_text(visibility, list, bodies, n - 1);
        let after = Seq::<char>::empty();
        assert(modules_text(visibility, list, bodies, n) == before + piece + after);
    } else {
        lemma_module_placed(visibility, list, bodies, n - 1, i);
        let (before, rest) = choose|before: Seq<char>, rest: Seq<char>|
            modules_text(visibility, list, bodies, n - 1) == before + #[trigger] module_text(
                visibility,
                open_after(list, i),
                list[i],
                bodies[i],
            ) + rest;
        let last = module_text(visibility, open_after(list, n - 1), list[n - 1], bodies[n - 1]);
        assert(modules_text(visibility, list, bodies, n) == before + piece + (rest + last));
    }
}

} // verus!
