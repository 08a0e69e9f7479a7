//! Module paths and their order.
//!
//! A module path is a list of names, from the crate's name down. Paths are
//! ordered as words are in a dictionary, name by name: so a module comes
//! before the modules inside it, and these come before the next module beside it.

use vstd::prelude::*;
use vstd::string::*;
use crate::text::{same_text, texts, to_chars};

verus! {

/// The names of a module path, outermost first.
pub type ModPath = Vec<String>;

/// A module path as contracts see it.
pub type PathView = Seq<Seq<char>>;

/// The module paths that a list of paths stands for.
pub open spec fn paths(list: Seq<ModPath>) -> Seq<PathView> {
    Seq::new(list.len(), |i: int| texts(list[i]@))
}

/// Whether `a` comes before `b` from place `i` on, given that they are the
/// same up to there: at the first place where they differ `a` holds the
/// lesser item, or `a` ends there and `b` does not.
pub open spec fn lex_from<T>(lt: spec_fn(T, T) -> bool, a: Seq<T>, b: Seq<T>, i: int) -> bool
    decreases a.len() - i,
{
    if i < 0 || i >= b.len() {
        false
    } else if i >= a.len() {
        true
    } else if a[i] == b[i] {
        lex_from(lt, a, b, i + 1)
    } else {
        lt(a[i], b[i])
    }
}

/// The order of the dictionary over an order of the items.
pub open spec fn lex<T>(lt: spec_fn(T, T) -> bool, a: Seq<T>, b: Seq<T>) -> bool {
    lex_from(lt, a, b, 0)
}

/// A strict total order: nothing is less than itself, less-than carries over,
/// and of two different things one is the lesser.
pub open spec fn strict_total<T>(lt: spec_fn(T, T) -> bool) -> bool {
    &&& forall|x: T| !#[trigger] lt(x, x)
    &&& forall|x: T, y: T, z: T| #[trigger] lt(x, y) && #[trigger] lt(y, z) ==> lt(x, z)
    &&& forall|x: T, y: T| x != y ==> #[trigger] lt(x, y) || lt(y, x)
}

/// In the order of the dictionary nothing comes before itself.
pub proof fn lemma_lex_irreflexive<T>(lt: spec_fn(T, T) -> bool, a: Seq<T>, i: int)
    requires
        0 <= i,
    ensures
        !lex_from(lt, a, a, i),
    decreases a.len() - i,
{
    if i < a.len() {
        lemma_lex_irreflexive(lt, a, i + 1);
    }
}

/// The order of the dictionary carries over.
pub proof fn lemma_lex_transitive<T>(lt: spec_fn(T, T) -> bool, a: Seq<T>, b: Seq<T>, c: Seq<T>, i: int)
    requires
        strict_total(lt),
        0 <= i,
        lex_from(lt, a, b, i),
        lex_from(lt, b, c, i),
    ensures
        lex_from(lt, a, c, i),
    decreases a.len() - i,
{
    if i < a.len() && a[i] == b[i] && b[i] == c[i] {
        lemma_lex_transitive(lt, a, b, c, i + 1);
    }
}

/// In the order of the dictionary, of two different lists one comes before the other.
pub proof fn lemma_lex_total<T>(lt: spec_fn(T, T) -> bool, a: Seq<T>, b: Seq<T>, i: int)
    requires
        strict_total(lt),
        0 <= i <= a.len(),
        i <= b.len(),
        a.take(i) == b.take(i),
        a != b,
    ensures
        lex_from(lt, a, b, i) || lex_from(lt, b, a, i),
    decreases a.len() - i,
{
    if i < a.len() && i < b.len() && a[i] == b[i] {
        assert(a.take(i + 1) == a.take(i).push(a[i]));
        assert(b.take(i + 1) == b.take(i).push(b[i]));
        lemma_lex_total(lt, a, b, i + 1);
    } else if i == a.len() && i == b.len() {
        assert(a.take(i) == a);
        assert(b.take(i) == b);
    }
}

/// The order of the dictionary over a strict total order is one too.
pub proof fn lemma_lex_strict_total<T>(lt: spec_fn(T, T) -> bool)
    requires
        strict_total(lt),
    ensures
        strict_total(|a: Seq<T>, b: Seq<T>| lex(lt, a, b)),
{
    let up = |a: Seq<T>, b: Seq<T>| lex(lt, a, b);
    assert forall|x: Seq<T>| !#[trigger] up(x, x) by {
        lemma_lex_irreflexive(lt, x, 0);
    }
    assert forall|x: Seq<T>, y: Seq<T>, z: Seq<T>| #[trigger] up(x, y) && #[trigger] up(y, z) implies up(
        x,
        z,
    ) by {
        lemma_lex_transitive(lt, x, y, z, 0);
    }
    assert forall|x: Seq<T>, y: Seq<T>| x != y implies #[trigger] up(x, y) || up(y, x) by {
        assert(x.take(0) == y.take(0));
        lemma_lex_total(lt, x, y, 0);
    }
}

/// The order of characters: by their number.
pub open spec fn char_lt() -> spec_fn(char, char) -> bool {
    |x: char, y: char| (x as u32) < (y as u32)
}

/// The order of names: that of the dictionary, over the order of characters.
pub open spec fn text_lt() -> spec_fn(Seq<char>, Seq<char>) -> bool {
    |a: Seq<char>, b: Seq<char>| lex(char_lt(), a, b)
}

/// Whether path `a` comes before path `b`: the order of the dictionary, name by name.
pub open spec fn path_lt(a: PathView, b: PathView) -> bool {
    lex(text_lt(), a, b)
}

/// Of two different characters one has the lesser number.
proof fn lemma_char_total(x: char, y: char)
    ensures
        x != y ==> char_lt()(x, y) || char_lt()(y, x),
{
}

/// The orders of characters and of names are strict total orders.
pub proof fn lemma_text_order()
    ensures
        strict_total(char_lt()),
        strict_total(text_lt()),
{
    let lt = char_lt();
    assert forall|x: char, y: char| x != y implies #[trigger] lt(x, y) || lt(y, x) by {
        lemma_char_total(x, y);
    }
    lemma_lex_strict_total(char_lt());
    assert(text_lt() == (|a: Seq<char>, b: Seq<char>| lex(char_lt(), a, b)));
}

/// No path comes before itself.
pub proof fn lemma_path_lt_irreflexive(a: PathView)
    ensures
        !path_lt(a, a),
{
    lemma_lex_irreflexive(text_lt(), a, 0);
}

/// What comes before a path comes before all that the path comes before.
pub proof fn lemma_path_lt_transitive(a: PathView, b: PathView, c: PathView)
    requires
        path_lt(a, b),
        path_lt(b, c),
    ensures
        path_lt(a, c),
{
    lemma_text_order();
    lemma_lex_transitive(text_lt(), a, b, c, 0);
}

/// Of two different paths one comes before the other.
pub proof fn lemma_path_lt_total(a: PathView, b: PathView)
    requires
        a != b,
    ensures
        path_lt(a, b) || path_lt(b, a),
{
    lemma_text_order();
    assert(a.take(0) == b.take(0));
    lemma_lex_total(text_lt(), a, b, 0);
}

/// How one thing stands to another in an order.
#[derive(Clone, Copy, Debug, PartialEq, Eq, Structural)]
pub enum Rank {
    Before,
    Same,
    After,
}

/// How name `a` stands to name `b`.
pub fn rank_text(a: &str, b: &str) -> (r: Rank)
    ensures
        r == Rank::Before <==> text_lt()(a@, b@),
        r == Rank::Same <==> a@ == b@,
        r == Rank::After <==> text_lt()(b@, a@),
{
    let x = to_chars(a);
    let y = to_chars(b);
    let mut i: usize = 0;
    while i < x.len() && i < y.len()
        invariant
            i <= x.len(),
            i <= y.len(),
            x@ == a@,
            y@ == b@,
            x@.take(i as int) == y@.take(i as int),
            lex_from(char_lt(), x@, y@, i as int) == lex(char_lt(), x@, y@),
            lex_from(char_lt(), y@, x@, i as int) == lex(char_lt(), y@, x@),
        decreases x.len() - i,
    {
        let p = x[i];
        let q = y[i];
        if p != q {
            assert(x@ != y@);
            proof {
                lemma_char_total(p, q);
            }
            return if (p as u32) < (q as u32) {
                Rank::Before
            } else {
                Rank::After
            };
        }
        assert(x@.take(i + 1) == x@.take(i as int).push(p));
        assert(y@.take(i + 1) == y@.take(i as int).push(q));
        i += 1;
    }
    if i < y.len() {
        assert(x@ != y@);
        Rank::Before
    } else if i < x.len() {
        assert(x@ != y@);
        Rank::After
    } else {
        assert(x@.take(i as int) == x@);
        assert(y@.take(i as int) == y@);
        Rank::Same
    }
}

/// How path `a` stands to path `b`.
pub fn rank_path(a: &[String], b: &[String]) -> (r: Rank)
    ensures
        r == Rank::Before <==> path_lt(texts(a@), texts(b@)),
        r == Rank::Same <==> texts(a@) == texts(b@),
        r == Rank::After <==> path_lt(texts(b@), texts(a@)),
{
    let ghost x = texts(a@);
    let ghost y = texts(b@);
    let mut i: usize = 0;
    while i < a.len() && i < b.len()
        invariant
            i <= a.len(),
            i <= b.len(),
            x == texts(a@),
            y == texts(b@),
            x.take(i as int) == y.take(i as int),
            lex_from(text_lt(), x, y, i as int) == path_lt(x, y),
            lex_from(text_lt(), y, x, i as int) == path_lt(y, x),
        decreases a.len() - i,
    {
        let r = rank_text(a[i].as_str(), b[i].as_str());
        assert(x[i as int] == a[i as int]@);
        assert(y[i as int] == b[i as int]@);
        match r {
            Rank::Same => {},
            _ => {
                assert(x != y);
                proof {
                    lemma_text_order();
                }
                return r;
            },
        }
        assert(x.take(i + 1) == x.take(i as int).push(x[i as int]));
        assert(y.take(i + 1) == y.take(i as int).push(y[i as int]));
        i += 1;
    }
    if i < b.len() {
        assert(x != y);
        Rank::Before
    } else if i < a.len() {
        assert(x != y);
        Rank::After
    } else {
        assert(x.take(i as int) == x);
        assert(y.take(i as int) == y);
        Rank::Same
    }
}

/// Whether two paths are the same.
pub fn same_path(a: &[String], b: &[String]) -> (r: bool)
    ensures
        r == (texts(a@) == texts(b@)),
{
    if a.len() != b.len() {
        assert(texts(a@).len() != texts(b@).len());
        return false;
    }
    let mut i: usize = 0;
    while i < a.len()
        invariant
            i <= a.len(),
            a.len() == b.len(),
            texts(a@).take(i as int) == texts(b@).take(i as int),
        decreases a.len() - i,
    {
        if !same_text(a[i].as_str(), b[i].as_str()) {
            assert(texts(a@)[i as int] != texts(b@)[i as int]);
            return false;
        }
        assert(texts(a@).take(i + 1) == texts(a@).take(i as int).push(a[i as int]@));
        assert(texts(b@).take(i + 1) == texts(b@).take(i as int).push(b[i as int]@));
        i += 1;
    }
    assert(texts(a@).take(i as int) == texts(a@));
    assert(texts(b@).take(i as int) == texts(b@));
    true
}

/// A copy of the first `n` names of a path.
pub fn copy_prefix(p: &[String], n: usize) -> (r: ModPath)
    requires
        n <= p.len(),
    ensures
        texts(r@) == texts(p@).take(n as int),
{
    let mut out: ModPath = Vec::new();
    let mut i: usize = 0;
    while i < n
        invariant
            i <= n <= p.len(),
            texts(out@) == texts(p@).take(i as int),
        decreases n - i,
    {
        let ghost before = texts(out@);
        out.push(p[i].clone());
        assert(texts(out@) == before.push(p[i as int]@));
        assert(texts(p@).take(i + 1) == texts(p@).take(i as int).push(p[i as int]@));
        i += 1;
    }
    out
}

/// A copy of a path.
pub fn copy_path(p: &[String]) -> (r: ModPath)
    ensures
        texts(r@) == texts(p@),
{
    let r = copy_prefix(p, p.len());
    assert(texts(p@).take(p.len() as int) == texts(p@));
    r
}

/// A path with one more name at its end.
pub fn child_path(path: &[String], name: &str) -> (r: ModPath)
    ensures
        texts(r@) == texts(path@).push(name@),
{
    let mut r = copy_path(path);
    let ghost before = texts(r@);
    r.push(name.to_owned());
    assert(texts(r@) == before.push(name@));
    r
}

/// Whether `a` is the beginning of `b`, or all of it.
pub open spec fn is_prefix(a: PathView, b: PathView) -> bool {
    a.len() <= b.len() && b.take(a.len() as int) == a
}

/// Whether the paths stand in order, each before the next; none occurs twice then.
pub open spec fn ascending(list: Seq<PathView>) -> bool {
    forall|i: int, j: int| 0 <= i < j < list.len() ==> path_lt(list[i], list[j])
}

/// The paths in order, each once.
pub fn sort_dedup(list: &Vec<ModPath>) -> (r: Vec<ModPath>)
    ensures
        ascending(paths(r@)),
        paths(r@).to_set() == paths(list@).to_set(),
{
    let mut out: Vec<ModPath> = Vec::new();
    let mut k: usize = 0;
    while k < list.len()
        invariant
            k <= list.len(),
            ascending(paths(out@)),
            paths(out@).to_set() == paths(list@).take(k as int).to_set(),
        decreases list.len() - k,
    {
        let item = &list[k];
        let ghost x = texts(item@);
        let ghost before = paths(out@);
        assert(paths(list@)[k as int] == x);
        assert(paths(list@).take(k + 1) == paths(list@).take(k as int).push(x));
        let mut j: usize = 0;
        let mut found = false;
        while j < out.len()
            invariant_except_break
                j <= out.len(),
                !found,
            invariant
                before == paths(out@),
                x == texts(item@),
                forall|i: int| 0 <= i < j ==> path_lt(before[i], x),
            ensures
                j <= out.len(),
                found ==> j < out.len() && before[j as int] == x,
                !found && j < out.len() ==> path_lt(x, before[j as int]),
            decreases out.len() - j,
        {
            assert(before[j as int] == texts(out[j as int]@));
            match rank_path(out[j].as_slice(), item.as_slice()) {
                Rank::Before => {
                    j += 1;
                },
                Rank::Same => {
                    found = true;
                    break ;
                },
                Rank::After => {
                    break ;
                },
            }
        }
        if found {
            assert(before.to_set().insert(x) == before.to_set());
            assert(before.push(x).to_set() == before.to_set().insert(x)) by {
                lemma_push_to_set(before, x);
            }
            assert(paths(list@).take(k as int).push(x).to_set() == paths(list@).take(
                k as int,
            ).to_set().insert(x)) by {
                lemma_push_to_set(paths(list@).take(k as int), x);
            }
        } else {
            out.insert(j, copy_path(item.as_slice()));
            proof {
                let after = paths(out@);
                assert(after == before.take(j as int) + seq![x] + before.skip(j as int));
                assert forall|a: int, b: int| 0 <= a < b < after.len() implies path_lt(
                    after[a],
                    after[b],
                ) by {
                    if b == j {
                    } else if a == j {
                        if b > j + 1 {
                            lemma_path_lt_transitive(x, before[j as int], before[b - 1]);
                        }
                    } else if a < j && b > j {
                        assert(path_lt(before[a], before[b - 1]));
                    } else if a < j {
                        assert(path_lt(before[a], before[b]));
                    } else {
                        assert(path_lt(before[a - 1], before[b - 1]));
                    }
                }
                assert(after.to_set() == before.to_set().insert(x)) by {
                    assert forall|p: PathView| after.to_set().contains(p) == before.to_set().insert(
                        x,
                    ).contains(p) by {
                        if after.contains(p) {
                            let i = choose|i: int| 0 <= i < after.len() && after[i] == p;
                            if i < j {
                                assert(before[i] == p);
                            } else if i > j {
                                assert(before[i - 1] == p);
                            }
                        }
                        if before.contains(p) {
                            let i = choose|i: int| 0 <= i < before.len() && before[i] == p;
                            if i < j {
                                assert(after[i] == p);
                            } else {
                                assert(after[i + 1] == p);
                            }
                        }
                        if p == x {
                            assert(after[j as int] == x);
                        }
                    }
                }
                lemma_push_to_set(paths(list@).take(k as int), x);
            }
        }
        k += 1;
    }
    assert(paths(list@).take(list.len() as int) == paths(list@));
    out
}

/// Whether `p` is one of the paths of `list`.
pub fn has_path(list: &Vec<ModPath>, p: &[String]) -> (r: bool)
    ensures
        r == paths(list@).contains(texts(p@)),
{
    let mut i: usize = 0;
    while i < list.len()
        invariant
            i <= list.len(),
            forall|j: int| 0 <= j < i ==> paths(list@)[j] != texts(p@),
        decreases list.len() - i,
    {
        if same_path(list[i].as_slice(), p) {
            assert(paths(list@)[i as int] == texts(p@));
            return true;
        }
        i += 1;
    }
    false
}

/// The paths of `list` without those that occurred earlier in it.
pub open spec fn first_seen(list: Seq<PathView>) -> Seq<PathView>
    decreases list.len(),
{
    if list.len() == 0 {
        Seq::empty()
    } else {
        let before = first_seen(list.drop_last());
        if before.contains(list.last()) {
            before
        } else {
            before.push(list.last())
        }
    }
}

/// The things in a list with one more at its end are those of the list and that one.
pub proof fn lemma_push_to_set<T>(s: Seq<T>, x: T)
    ensures
        s.push(x).to_set() == s.to_set().insert(x),
{
    assert forall|p: T| s.push(x).to_set().contains(p) == s.to_set().insert(x).contains(p) by {
        if s.push(x).contains(p) {
            let i = choose|i: int| 0 <= i < s.push(x).len() && s.push(x)[i] == p;
            if i < s.len() {
                assert(s[i] == p);
            }
        }
        if s.contains(p) {
            let i = choose|i: int| 0 <= i < s.len() && s[i] == p;
            assert(s.push(x)[i] == p);
        }
        if p == x {
            assert(s.push(x)[s.len() as int] == x);
        }
    }
}

/// A path comes before a longer path that begins with it.
proof fn lemma_prefix_lt(a: PathView, b: PathView, i: int)
    requires
        is_prefix(a, b),
        a.len() < b.len(),
        0 <= i <= a.len(),
    ensures
        lex_from(text_lt(), a, b, i),
    decreases a.len() - i,
{
    if i < a.len() {
        assert(b.take(a.len() as int)[i] == b[i]);
        lemma_prefix_lt(a, b, i + 1);
    }
}

/// A module comes before every module inside it.
pub proof fn lemma_ancestor_lt(a: PathView, b: PathView)
    requires
        is_prefix(a, b),
        a != b,
    ensures
        path_lt(a, b),
{
    if a.len() == b.len() {
        assert(b.take(a.len() as int) == b);
    }
    lemma_prefix_lt(a, b, 0);
}

/// In a list in order, a module stands before every module inside it.
pub proof fn lemma_ancestor_first(list: Seq<PathView>, i: int, j: int)
    requires
        ascending(list),
        0 <= i < list.len(),
        0 <= j < list.len(),
        is_prefix(list[i], list[j]),
        list[i] != list[j],
    ensures
        i < j,
{
    lemma_ancestor_lt(list[i], list[j]);
    if j < i {
        lemma_path_lt_transitive(list[i], list[j], list[i]);
        lemma_path_lt_irreflexive(list[i]);
    }
}

/// What stands between two paths that begin with `a` begins with `a`.
proof fn lemma_prefix_kept(a: PathView, p: PathView, q: PathView, r: PathView, i: int)
    requires
        is_prefix(a, p),
        is_prefix(a, r),
        0 <= i <= a.len(),
        i <= q.len(),
        q.take(i) == a.take(i),
        p == q || lex_from(text_lt(), p, q, i),
        q == r || lex_from(text_lt(), q, r, i),
    ensures
        is_prefix(a, q),
    decreases a.len() - i,
{
    lemma_text_order();
    if p == q || q == r {
    } else if i == a.len() {
        assert(a.take(i) == a);
    } else {
        assert(p.take(a.len() as int)[i] == p[i]);
        assert(r.take(a.len() as int)[i] == r[i]);
        if p[i] == q[i] {
            assert(q.take(i + 1) == q.take(i).push(q[i]));
            assert(a.take(i + 1) == a.take(i).push(a[i]));
            lemma_prefix_kept(a, p, q, r, i + 1);
        } else {
            let lt = text_lt();
            assert(lt(p[i], q[i]));
            assert(lt(q[i], r[i]));
            assert(lt(p[i], p[i]));
        }
    }
}

/// In a list in order, the modules inside one module stand together: what
/// stands between two of them is one of them.
pub proof fn lemma_descendants_together(list: Seq<PathView>, a: PathView, i: int, j: int, k: int)
    requires
        ascending(list),
        0 <= i <= j <= k < list.len(),
        is_prefix(a, list[i]),
        is_prefix(a, list[k]),
    ensures
        is_prefix(a, list[j]),
{
    assert(list[j].take(0) == a.take(0));
    if i < j {
        assert(path_lt(list[i], list[j]));
    }
    if j < k {
        assert(path_lt(list[j], list[k]));
    }
    lemma_prefix_kept(a, list[i], list[j], list[k], 0);
}

/// In a list in order no path stands twice.
pub proof fn lemma_ascending_once(list: Seq<PathView>)
    requires
        ascending(list),
    ensures
        list.no_duplicates(),
{
    assert forall|i: int, j: int| 0 <= i < list.len() && 0 <= j < list.len() && i != j implies list[i]
        != list[j] by {
        lemma_path_lt_irreflexive(list[i]);
        if i < j {
            assert(path_lt(list[i], list[j]));
        } else {
            assert(path_lt(list[j], list[i]));
        }
    }
}

/// Two lists in order that hold the same paths are the same list.
pub proof fn lemma_ascending_unique(x: Seq<PathView>, y: Seq<PathView>)
    requires
        ascending(x),
        ascending(y),
        forall|q: PathView| x.contains(q) <==> y.contains(q),
    ensures
        x == y,
    decreases x.len(),
{
    if x.len() == 0 {
        if y.len() > 0 {
            assert(y.contains(y[0]));
        }
        assert(x == y);
    } else {
        let m = x.last();
        assert(x.contains(m));
        let k = choose|k: int| 0 <= k < y.len() && y[k] == m;
        if k < y.len() - 1 {
            let top = y.last();
            assert(y.contains(top));
            let t = choose|t: int| 0 <= t < x.len() && x[t] == top;
            assert(path_lt(m, top));
            if t < x.len() - 1 {
                lemma_path_lt_transitive(m, top, m);
            }
            lemma_path_lt_irreflexive(m);
        }
        let xs = x.drop_last();
        let ys = y.drop_last();
        assert forall|q: PathView| xs.contains(q) <==> ys.contains(q) by {
            if xs.contains(q) {
                let i = choose|i: int| 0 <= i < xs.len() && xs[i] == q;
                assert(x[i] == q);
                assert(path_lt(q, m));
                lemma_path_lt_irreflexive(m);
                assert(y.contains(q));
                let j = choose|j: int| 0 <= j < y.len() && y[j] == q;
                assert(ys[j] == q);
            }
            if ys.contains(q) {
                let j = choose|j: int| 0 <= j < ys.len() && ys[j] == q;
                assert(y[j] == q);
                assert(path_lt(q, m));
                lemma_path_lt_irreflexive(m);
                assert(x.contains(q));
                let i = choose|i: int| 0 <= i < x.len() && x[i] == q;
                assert(xs[i] == q);
            }
        }
        lemma_ascending_unique(xs, ys);
        assert(x == xs.push(m));
        assert(y == ys.push(m));
    }
}

} // verus!
