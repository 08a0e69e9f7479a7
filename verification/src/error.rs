//! Why a run was given up.

use vstd::prelude::*;
use vstd::string::*;
use crate::path::{ModPath, PathView};
use crate::text::{from_chars, push_str, texts};

verus! {

/// Each of these ends the run: no part of a bundle is handed out.
#[derive(Clone, Debug, PartialEq, Eq)]
pub enum Error {
    /// The declarations that came with the text of the file at `location`
    /// do not fit that text.
    ParseFailure { location: String },
    /// The import `path` names nothing that the module table knows.
    UnresolvedImport { path: ModPath },
    /// The import `path` climbs above the root of the module tree.
    MalformedRelativeImport { path: ModPath },
}

/// An error as contracts see it.
pub enum Failure {
    ParseFailure { location: Seq<char> },
    UnresolvedImport { path: PathView },
    MalformedRelativeImport { path: PathView },
}

impl View for Error {
    type V = Failure;

    open spec fn view(&self) -> Failure {
        match self {
            Error::ParseFailure { location } => Failure::ParseFailure { location: location@ },
            Error::UnresolvedImport { path } => Failure::UnresolvedImport { path: texts(path@) },
            Error::MalformedRelativeImport { path } => Failure::MalformedRelativeImport {
                path: texts(path@),
            },
        }
    }
}

/// A path as it is written in a source text: its names with `::` between them.
pub open spec fn spelled(path: PathView) -> Seq<char>
    decreases path.len(),
{
    if path.len() == 0 {
        Seq::empty()
    } else if path.len() == 1 {
        path[0]
    } else {
        spelled(path.drop_last()) + "::"@ + path.last()
    }
}

/// What went wrong, in words.
pub open spec fn description(failure: Failure) -> Seq<char> {
    match failure {
        Failure::ParseFailure { location } => "the declarations of "@ + location
            + " do not fit its text"@,
        Failure::UnresolvedImport { path } => "the import "@ + spelled(path)
            + " names nothing that is known"@,
        Failure::MalformedRelativeImport { path } => "the import "@ + spelled(path)
            + " climbs above the root of the crate"@,
    }
}

/// Appends a path as it is written in a source text.
fn push_spelled(out: &mut Vec<char>, path: &ModPath)
    ensures
        final(out)@ == old(out)@ + spelled(texts(path@)),
{
    let ghost all = texts(path@);
    let mut i: usize = 0;
    assert(all.take(0).len() == 0);
    while i < path.len()
        invariant
            i <= path.len(),
            all == texts(path@),
            out@ == old(out)@ + spelled(all.take(i as int)),
        decreases path.len() - i,
    {
        let ghost before = out@;
        assert(all.take(i + 1).drop_last() == all.take(i as int));
        assert(all.take(i + 1).last() == path[i as int]@);
        if i > 0 {
            push_str(out, "::");
        }
        push_str(out, path[i].as_str());
        i += 1;
    }
    assert(all.take(path.len() as int) == all);
}

impl Error {
    /// Says in words what went wrong.
    pub fn describe(&self) -> (r: String)
        ensures
            r@ == description(self@),
    {
        let mut out: Vec<char> = Vec::new();
        match self {
            Error::ParseFailure { location } => {
                push_str(&mut out, "the declarations of ");
                push_str(&mut out, location.as_str());
                push_str(&mut out, " do not fit its text");
            },
            Error::UnresolvedImport { path } => {
                push_str(&mut out, "the import ");
                push_spelled(&mut out, path);
                push_str(&mut out, " names nothing that is known");
            },
            Error::MalformedRelativeImport { path } => {
                push_str(&mut out, "the import ");
                push_spelled(&mut out, path);
                push_str(&mut out, " climbs above the root of the crate");
            },
        }
        from_chars(&out)
    }
}

} // verus!
