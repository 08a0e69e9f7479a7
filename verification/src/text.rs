//! Text as a sequence of characters, and as lines.

use vstd::prelude::*;
use vstd::string::*;

verus! {

/// `String::push` appends the character to the end of the string.
pub assume_specification[ String::push ](s: &mut String, c: char)
    ensures
        final(s)@ == old(s)@.push(c),
;

/// The characters of a string.
pub fn to_chars(s: &str) -> (r: Vec<char>)
    ensures
        r@ == s@,
{
    let mut out: Vec<char> = Vec::new();
    for c in it: s.chars()
        invariant
            out@ == s@.take(it.index() as int),
            it.seq() == s@,
    {
        out.push(c);
    }
    out
}

/// The string made of the given characters.
pub fn from_chars(v: &Vec<char>) -> (r: String)
    ensures
        r@ == v@,
{
    let mut out = String::new();
    let mut i: usize = 0;
    while i < v.len()
        invariant
            i <= v.len(),
            out@ == v@.take(i as int),
        decreases v.len() - i,
    {
        out.push(v[i]);
        i += 1;
    }
    out
}

/// Appends the characters of `s` from `from` up to `to`.
pub fn push_range(out: &mut Vec<char>, s: &Vec<char>, from: usize, to: usize)
    requires
        from <= to <= s.len(),
    ensures
        final(out)@ == old(out)@ + s@.subrange(from as int, to as int),
{
    let mut i: usize = from;
    while i < to
        invariant
            from <= i <= to <= s.len(),
            out@ == old(out)@ + s@.subrange(from as int, i as int),
        decreases to - i,
    {
        out.push(s[i]);
        i += 1;
    }
}

/// Appends the characters of a string.
pub fn push_str(out: &mut Vec<char>, s: &str)
    ensures
        final(out)@ == old(out)@ + s@,
{
    let chars = to_chars(s);
    push_range(out, &chars, 0, chars.len());
    assert(chars@.subrange(0, chars@.len() as int) == chars@);
}

/// The texts that a list of strings stands for.
pub open spec fn texts(names: Seq<String>) -> Seq<Seq<char>> {
    Seq::new(names.len(), |i: int| names[i]@)
}

/// Whether two strings hold the same text.
pub fn same_text(a: &str, b: &str) -> (r: bool)
    ensures
        r == (a@ == b@),
{
    let x = a.to_owned();
    let y = b.to_owned();
    x == y
}

/// Whether `name` is one of `names`.
pub fn has_text(names: &[String], name: &str) -> (r: bool)
    ensures
        r == texts(names@).contains(name@),
{
    let mut i: usize = 0;
    while i < names.len()
        invariant
            i <= names.len(),
            forall|j: int| 0 <= j < i ==> texts(names@)[j] != name@,
        decreases names.len() - i,
    {
        if same_text(names[i].as_str(), name) {
            assert(texts(names@)[i as int] == name@);
            return true;
        }
        i += 1;
    }
    false
}

/// The white space of ASCII: space, tab, line feed, form feed, carriage return.
pub open spec fn is_space(c: char) -> bool {
    c == ' ' || c == '\t' || c == '\n' || c == '\x0C' || c == '\r'
}

/// Whether the text holds nothing but white space.
pub open spec fn all_space(s: Seq<char>) -> bool {
    forall|i: int| 0 <= i < s.len() ==> is_space(#[trigger] s[i])
}

/// Whether the characters of `s` from `from` up to `to` are all white space.
pub fn blank_range(s: &Vec<char>, from: usize, to: usize) -> (b: bool)
    requires
        from <= to <= s.len(),
    ensures
        b == all_space(s@.subrange(from as int, to as int)),
{
    let mut i: usize = from;
    while i < to
        invariant
            from <= i <= to <= s.len(),
            all_space(s@.subrange(from as int, i as int)),
        decreases to - i,
    {
        let c = s[i];
        if !(c == ' ' || c == '\t' || c == '\n' || c == '\x0C' || c == '\r') {
            assert(s@.subrange(from as int, to as int)[i - from] == c);
            return false;
        }
        i += 1;
    }
    true
}

/// The place of the first line feed of `s` at or after `from`, or the length
/// of `s` where there is none.
pub open spec fn newline_at(s: Seq<char>, from: int) -> int
    decreases s.len() - from,
{
    if from >= s.len() {
        s.len() as int
    } else if s[from] == '\n' {
        from
    } else {
        newline_at(s, from + 1)
    }
}

/// The place that `newline_at` gives lies in the text or at its end, holds
/// a line feed where it lies in the text, and no line feed stands before it.
pub proof fn lemma_newline_at(s: Seq<char>, from: int)
    requires
        0 <= from <= s.len(),
    ensures
        from <= newline_at(s, from) <= s.len(),
        newline_at(s, from) < s.len() ==> s[newline_at(s, from)] == '\n',
        forall|i: int| from <= i < newline_at(s, from) ==> s[i] != '\n',
    decreases s.len() - from,
{
    if from < s.len() && s[from] != '\n' {
        lemma_newline_at(s, from + 1);
    }
}

/// A line without the carriage return that ended it, if one did.
pub open spec fn strip_cr(line: Seq<char>) -> Seq<char> {
    if line.len() > 0 && line.last() == '\r' {
        line.drop_last()
    } else {
        line
    }
}

/// The lines of the text that starts at `from`. A line ends at a line feed,
/// or at a carriage return directly followed by one; neither belongs to the
/// line. What follows the last line feed is a line only if it is not empty.
pub open spec fn lines_from(s: Seq<char>, from: int) -> Seq<Seq<char>>
    decreases s.len() - from,
{
    if from < 0 || from >= s.len() {
        Seq::empty()
    } else {
        let k = newline_at(s, from);
        if k >= s.len() {
            seq![s.subrange(from, s.len() as int)]
        } else {
            proof {
                lemma_newline_at(s, from);
            }
            seq![strip_cr(s.subrange(from, k))] + lines_from(s, k + 1)
        }
    }
}

/// The lines of a text.
pub open spec fn lines_of(s: Seq<char>) -> Seq<Seq<char>> {
    lines_from(s, 0)
}

/// The character sequences that a list of lines stands for.
pub open spec fn rows(lines: Seq<Vec<char>>) -> Seq<Seq<char>> {
    Seq::new(lines.len(), |i: int| lines[i]@)
}

/// Splits a text into its lines.
pub fn split_lines(s: &Vec<char>) -> (r: Vec<Vec<char>>)
    ensures
        rows(r@) == lines_of(s@),
{
    let mut lines: Vec<Vec<char>> = Vec::new();
    let mut pos: usize = 0;
    while pos < s.len()
        invariant
            pos <= s.len(),
            rows(lines@) + lines_from(s@, pos as int) == lines_of(s@),
        decreases s.len() - pos,
    {
        let mut k: usize = pos;
        while k < s.len() && s[k] != '\n'
            invariant
                pos <= k <= s.len(),
                newline_at(s@, k as int) == newline_at(s@, pos as int),
            decreases s.len() - k,
        {
            k += 1;
        }
        let ghost before = rows(lines@);
        let mut line: Vec<char> = Vec::new();
        if k < s.len() {
            let end: usize = if k > pos && s[k - 1] == '\r' {
                k - 1
            } else {
                k
            };
            push_range(&mut line, s, pos, end);
            proof {
                let piece = s@.subrange(pos as int, k as int);
                assert(strip_cr(piece) == s@.subrange(pos as int, end as int));
                assert(line@ == strip_cr(piece));
            }
            lines.push(line);
            assert(rows(lines@) == before + seq![line@]);
            pos = k + 1;
        } else {
            push_range(&mut line, s, pos, k);
            lines.push(line);
            assert(rows(lines@) == before + seq![line@]);
            pos = k;
            assert(lines_from(s@, pos as int) == Seq::<Seq<char>>::empty());
        }
    }
    assert(lines_from(s@, pos as int).len() == 0);
    lines
}

/// The text from column `c0` of line `l0` up to column `c1` of line `l1`,
/// with a line feed after each line that it leaves. Lines count from zero
/// here; line `lines.len()`, column zero, is the end of the text.
pub open spec fn between(lines: Seq<Seq<char>>, l0: int, c0: int, l1: int, c1: int) -> Seq<char>
    decreases l1 - l0,
{
    if l0 < l1 {
        lines[l0].skip(c0) + seq!['\n'] + between(lines, l0 + 1, 0, l1, c1)
    } else if l0 < lines.len() {
        lines[l0].subrange(c0, c1)
    } else {
        Seq::empty()
    }
}

/// Whether the place lies in the text, the end of the text included.
pub open spec fn is_place(lines: Seq<Seq<char>>, l: int, c: int) -> bool {
    ||| 0 <= l < lines.len() && 0 <= c <= lines[l].len()
    ||| l == lines.len() && c == 0
}

/// Whether the first place comes before the second or is the same.
pub open spec fn place_le(l0: int, c0: int, l1: int, c1: int) -> bool {
    l0 < l1 || (l0 == l1 && c0 <= c1)
}

/// The whole text, each line ended by a line feed.
pub open spec fn terminated(lines: Seq<Seq<char>>) -> Seq<char> {
    between(lines, 0, 0, lines.len() as int, 0)
}

/// Appends the text between two places.
pub fn push_between(
    out: &mut Vec<char>,
    lines: &Vec<Vec<char>>,
    l0: usize,
    c0: usize,
    l1: usize,
    c1: usize,
)
    requires
        is_place(rows(lines@), l0 as int, c0 as int),
        is_place(rows(lines@), l1 as int, c1 as int),
        place_le(l0 as int, c0 as int, l1 as int, c1 as int),
    ensures
        final(out)@ == old(out)@ + between(rows(lines@), l0 as int, c0 as int, l1 as int, c1 as int),
{
    let ghost text = rows(lines@);
    let ghost goal = between(text, l0 as int, c0 as int, l1 as int, c1 as int);
    let mut l: usize = l0;
    let mut c: usize = c0;
    while l < l1
        invariant
            l0 <= l <= l1,
            text == rows(lines@),
            is_place(text, l as int, c as int),
            is_place(text, l1 as int, c1 as int),
            place_le(l as int, c as int, l1 as int, c1 as int),
            out@ + between(text, l as int, c as int, l1 as int, c1 as int) == old(out)@ + goal,
        decreases l1 - l,
    {
        let ghost prev = out@;
        let line = &lines[l];
        push_range(out, line, c, line.len());
        out.push('\n');
        proof {
            assert(text[l as int] == line@);
            assert(line@.subrange(c as int, line@.len() as int) == line@.skip(c as int));
            assert(out@ == prev + (line@.skip(c as int) + seq!['\n']));
            assert(out@ + between(text, l + 1, 0, l1 as int, c1 as int) == prev + between(
                text,
                l as int,
                c as int,
                l1 as int,
                c1 as int,
            ));
        }
        l += 1;
        c = 0;
    }
    if l < lines.len() {
        push_range(out, &lines[l], c, c1);
        assert(text[l as int] == lines[l as int]@);
    }
}

/// The text between two places is that up to a place between them, and that from there on.
pub proof fn lemma_between_add(
    lines: Seq<Seq<char>>,
    l0: int,
    c0: int,
    l1: int,
    c1: int,
    l2: int,
    c2: int,
)
    requires
        is_place(lines, l0, c0),
        is_place(lines, l1, c1),
        is_place(lines, l2, c2),
        place_le(l0, c0, l1, c1),
        place_le(l1, c1, l2, c2),
    ensures
        between(lines, l0, c0, l1, c1) + between(lines, l1, c1, l2, c2) == between(
            lines,
            l0,
            c0,
            l2,
            c2,
        ),
    decreases l1 - l0,
{
    if l0 < l1 {
        lemma_between_add(lines, l0 + 1, 0, l1, c1, l2, c2);
        let head = lines[l0].skip(c0) + seq!['\n'];
        assert(head + between(lines, l0 + 1, 0, l1, c1) + between(lines, l1, c1, l2, c2) == head + (
        between(lines, l0 + 1, 0, l1, c1) + between(lines, l1, c1, l2, c2)));
    } else if l0 < lines.len() {
        if l1 < l2 {
            assert(lines[l0].subrange(c0, c1) + lines[l0].skip(c1) == lines[l0].skip(c0));
            assert(lines[l0].subrange(c0, c1) + (lines[l0].skip(c1) + seq!['\n'] + between(
                lines,
                l1 + 1,
                0,
                l2,
                c2,
            )) == lines[l0].skip(c0) + seq!['\n'] + between(lines, l0 + 1, 0, l2, c2));
        } else {
            assert(lines[l0].subrange(c0, c1) + lines[l0].subrange(c1, c2) == lines[l0].subrange(
                c0,
                c2,
            ));
        }
    } else {
        assert(between(lines, l0, c0, l1, c1) + between(lines, l1, c1, l2, c2) == between(
            lines,
            l0,
            c0,
            l2,
            c2,
        ));
    }
}

/// The text between two places of the lines `lines` does not change when other lines stand before them.
pub proof fn lemma_between_shift(
    before: Seq<Seq<char>>,
    lines: Seq<Seq<char>>,
    l0: int,
    c0: int,
    l1: int,
    c1: int,
)
    requires
        0 <= l0,
        l0 <= l1 <= lines.len(),
    ensures
        between(before + lines, before.len() + l0, c0, before.len() + l1, c1) == between(
            lines,
            l0,
            c0,
            l1,
            c1,
        ),
    decreases l1 - l0,
{
    let n = before.len() as int;
    if l0 < l1 {
        lemma_between_shift(before, lines, l0 + 1, 0, l1, c1);
        assert((before + lines)[n + l0] == lines[l0]);
    } else if l0 < lines.len() {
        assert((before + lines)[n + l0] == lines[l0]);
    }
}

/// The text between two places of the lines `lines` does not change when other lines follow them.
pub proof fn lemma_between_cut(
    lines: Seq<Seq<char>>,
    after: Seq<Seq<char>>,
    l0: int,
    c0: int,
    l1: int,
    c1: int,
)
    requires
        0 <= l0,
        0 <= c0,
        place_le(l0, c0, l1, c1),
        is_place(lines, l1, c1),
    ensures
        between(lines + after, l0, c0, l1, c1) == between(lines, l0, c0, l1, c1),
    decreases l1 - l0,
{
    if l0 < l1 {
        lemma_between_cut(lines, after, l0 + 1, 0, l1, c1);
        assert((lines + after)[l0] == lines[l0]);
    } else if l0 < lines.len() {
        assert((lines + after)[l0] == lines[l0]);
    } else if l0 < (lines + after).len() {
        assert((lines + after)[l0].subrange(c0, c1) == Seq::<char>::empty());
    }
}

/// The text of two lists of lines, one after the other, is the text of the
/// first and then the text of the second.
pub proof fn lemma_terminated_concat(a: Seq<Seq<char>>, b: Seq<Seq<char>>)
    ensures
        terminated(a + b) == terminated(a) + terminated(b),
{
    let all = a + b;
    lemma_between_add(all, 0, 0, a.len() as int, 0, all.len() as int, 0);
    lemma_between_cut(a, b, 0, 0, a.len() as int, 0);
    lemma_between_shift(a, b, 0, 0, b.len() as int, 0);
}

/// The text of one line is the line and a line feed.
pub proof fn lemma_terminated_line(line: Seq<char>)
    ensures
        terminated(seq![line]) == line + seq!['\n'],
{
    let one = seq![line];
    assert(one[0].skip(0) == line);
    assert(between(one, 1, 0, 1, 0) == Seq::<char>::empty());
    assert(between(one, 0, 0, 1, 0) == one[0].skip(0) + seq!['\n'] + between(one, 1, 0, 1, 0));
}

/// The text up to a place on a line is the text of the lines before it and
/// the beginning of that line.
pub proof fn lemma_text_up_to(lines: Seq<Seq<char>>, l: int, c: int)
    requires
        0 <= l < lines.len(),
        0 <= c <= lines[l].len(),
    ensures
        between(lines, 0, 0, l, c) == terminated(lines.take(l)) + lines[l].take(c),
{
    lemma_between_add(lines, 0, 0, l, 0, l, c);
    assert(lines == lines.take(l) + lines.skip(l));
    lemma_between_cut(lines.take(l), lines.skip(l), 0, 0, l, 0);
    assert(between(lines, l, 0, l, c) == lines[l].take(c));
}

/// The text from a place on a line on is the rest of that line, a line
/// feed, and the text of the lines behind it.
pub proof fn lemma_text_from(lines: Seq<Seq<char>>, l: int, c: int)
    requires
        0 <= l < lines.len(),
        0 <= c <= lines[l].len(),
    ensures
        between(lines, l, c, lines.len() as int, 0) == lines[l].skip(c) + seq!['\n'] + terminated(
            lines.skip(l + 1),
        ),
{
    let tail = lines.skip(l + 1);
    assert(lines == lines.take(l + 1) + tail);
    lemma_between_shift(lines.take(l + 1), tail, 0, 0, tail.len() as int, 0);
}

/// The text from the start of a line on is the text of the lines from it on.
pub proof fn lemma_text_from_line(lines: Seq<Seq<char>>, l: int)
    requires
        0 <= l <= lines.len(),
    ensures
        between(lines, l, 0, lines.len() as int, 0) == terminated(lines.skip(l)),
{
    let tail = lines.skip(l);
    assert(lines == lines.take(l) + tail);
    lemma_between_shift(lines.take(l), tail, 0, 0, tail.len() as int, 0);
}

} // verus!
