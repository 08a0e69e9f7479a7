//! Which modules are reached from the entry file by following imports.

use vstd::prelude::*;
use crate::error::Failure;
use crate::index::{Index, Location, LocationView};
use crate::path::{first_seen, PathView};
use crate::resolve::{canonical, import_targets, imports_of, located, matched, use_paths, warnings_of};
use crate::table::PathMap;

verus! {

/// The modules to start from: for each import of the entry file that is to
/// be followed, the module that holds what it names. The first import that
/// cannot be resolved gives the error.
pub open spec fn seeds_of(
    table: Map<PathView, LocationView>,
    crate_name: Seq<char>,
    todo: Seq<PathView>,
    entry: PathView,
) -> Result<Seq<PathView>, Failure>
    decreases todo.len(),
{
    if todo.len() == 0 {
        Ok(Seq::empty())
    } else {
        match seeds_of(table, crate_name, todo.drop_last(), entry) {
            Err(e) => Err(e),
            Ok(before) => match located(table, todo.last(), entry, crate_name) {
                Err(e) => Err(e),
                Ok(found) => Ok(before.push(found.group)),
            },
        }
    }
}

/// Whether module `p` imports something that module `q` holds.
pub open spec fn leads_to(ix: Index, crate_name: Seq<char>, p: PathView, q: PathView) -> bool {
    imports_of(ix, crate_name, p) matches Ok(targets) && targets.contains(q)
}

/// Whether `q` is reached from the seeds in `n` steps at most, each step
/// from a module to one that it imports from.
pub open spec fn reach(ix: Index, crate_name: Seq<char>, seeds: Seq<PathView>, n: nat, q: PathView) -> bool
    decreases n,
{
    if n == 0 {
        seeds.contains(q)
    } else {
        reach(ix, crate_name, seeds, (n - 1) as nat, q) || exists|p: PathView|
            reach(ix, crate_name, seeds, (n - 1) as nat, p) && #[trigger] leads_to(
                ix,
                crate_name,
                p,
                q,
            )
    }
}

/// Whether `q` is reached from the seeds by following imports.
pub open spec fn reachable(ix: Index, crate_name: Seq<char>, seeds: Seq<PathView>, q: PathView) -> bool {
    exists|n: nat| reach(ix, crate_name, seeds, n, q)
}

/// Whether some module that is reached has imports that cannot be resolved.
pub open spec fn broken(ix: Index, crate_name: Seq<char>, seeds: Seq<PathView>) -> bool {
    exists|p: PathView| #[trigger]
        reachable(ix, crate_name, seeds, p) && imports_of(ix, crate_name, p) is Err
}

/// Whether some module that is reached has imports that fail with `e`.
pub open spec fn fails_with(ix: Index, crate_name: Seq<char>, seeds: Seq<PathView>, e: Failure) -> bool {
    exists|p: PathView| #[trigger]
        reachable(ix, crate_name, seeds, p) && imports_of(ix, crate_name, p) == Err::<
            Seq<PathView>,
            Failure,
        >(e)
}

/// The warnings that the imports of the modules of `order` give rise to, module by module.
pub open spec fn warnings_along(ix: Index, crate_name: Seq<char>, order: Seq<PathView>) -> Seq<Seq<char>>
    decreases order.len(),
{
    if order.len() == 0 {
        Seq::empty()
    } else {
        warnings_along(ix, crate_name, order.drop_last()) + warnings_of(ix, crate_name, order.last())
    }
}

/// The modules that stand for the files of the locations.
pub open spec fn groups(values: Seq<LocationView>) -> Set<PathView> {
    Set::new(|g: PathView| exists|i: int| 0 <= i < values.len() && (#[trigger] values[i]).group == g)
}

/// Whether every path of `part` is one of `held`.
pub open spec fn covers(held: Seq<PathView>, part: Seq<PathView>) -> bool {
    forall|i: int| 0 <= i < part.len() ==> held.contains(#[trigger] part[i])
}

/// Whether every module of `done` has imports that resolve, to modules of `held`.
pub open spec fn follows(ix: Index, crate_name: Seq<char>, done: Seq<PathView>, held: Seq<PathView>) -> bool {
    forall|i: int|
        0 <= i < done.len() ==> (imports_of(ix, crate_name, #[trigger] done[i]) matches Ok(targets)
            && covers(held, targets))
}

/// Whether every path of `list` is reached from the seeds.
pub open spec fn all_reached(ix: Index, crate_name: Seq<char>, seeds: Seq<PathView>, list: Seq<PathView>) -> bool {
    forall|i: int| 0 <= i < list.len() ==> reachable(ix, crate_name, seeds, #[trigger] list[i])
}

/// Whether every path of `list` is in `all`.
pub open spec fn all_within(list: Seq<PathView>, all: Set<PathView>) -> bool {
    forall|i: int| 0 <= i < list.len() ==> all.contains(#[trigger] list[i])
}

/// Finitely many locations stand for finitely many files.
pub(crate) proof fn lemma_groups_finite(values: Seq<LocationView>)
    ensures
        groups(values).finite(),
    decreases values.len(),
{
    if values.len() == 0 {
        assert(groups(values) == Set::<PathView>::empty());
    } else {
        let front = values.drop_last();
        lemma_groups_finite(front);
        assert(groups(values) == groups(front).insert(values.last().group)) by {
            assert forall|g: PathView| groups(values).contains(g) == groups(front).insert(
                values.last().group,
            ).contains(g) by {
                if groups(values).contains(g) {
                    let i = choose|i: int| 0 <= i < values.len() && (#[trigger] values[i]).group == g;
                    if i < front.len() {
                        assert(front[i].group == g);
                    }
                }
                if groups(front).contains(g) {
                    let i = choose|i: int| 0 <= i < front.len() && (#[trigger] front[i]).group == g;
                    assert(values[i].group == g);
                }
                if g == values.last().group {
                    assert(values[values.len() - 1].group == g);
                }
            }
        }
    }
}

/// The beginning that `matched` finds has a location.
pub(crate) proof fn lemma_matched(table: Map<PathView, LocationView>, path: PathView, n: int)
    ensures
        matched(table, path, n) > 0 ==> table.contains_key(path.take(matched(table, path, n))),
    decreases n,
{
    if n > 0 && !table.contains_key(path.take(n)) {
        lemma_matched(table, path, n - 1);
    }
}

/// What is located is one of the locations that were entered.
pub(crate) proof fn lemma_located_group(locations: PathMap<Location>, path: PathView, at: PathView, crate_name: Seq<char>)
    ensures
        located(locations@, path, at, crate_name) matches Ok(found) ==> groups(
            locations.values(),
        ).contains(found.group),
{
    let table = locations@;
    lemma_matched(table, path, path.len() as int);
    let n = matched(table, path, path.len() as int);
    if n > 0 {
        locations.lemma_values(path.take(n));
        let v = table[path.take(n)];
        let i = choose|i: int| 0 <= i < locations.values().len() && locations.values()[i] == v;
        assert(locations.values()[i].group == v.group);
    } else if let Some(full) = canonical(path, at, crate_name) {
        lemma_matched(table, full, full.len() as int);
        let m = matched(table, full, full.len() as int);
        if m > 0 {
            locations.lemma_values(full.take(m));
            let v = table[full.take(m)];
            let i = choose|i: int| 0 <= i < locations.values().len() && locations.values()[i] == v;
            assert(locations.values()[i].group == v.group);
        }
    }
}

/// The modules that imports lead to are modules of files.
pub(crate) proof fn lemma_targets_groups(
    ix: Index,
    locations: PathMap<Location>,
    crate_name: Seq<char>,
    raws: Seq<PathView>,
    at: PathView,
)
    requires
        ix.locations == locations@,
    ensures
        import_targets(ix, crate_name, raws, at) matches Ok(targets) ==> all_within(
            targets,
            groups(locations.values()),
        ),
    decreases raws.len(),
{
    if raws.len() > 0 {
        lemma_targets_groups(ix, locations, crate_name, raws.drop_last(), at);
        if let Some(full) = canonical(raws.last(), at, crate_name) {
            lemma_located_group(locations, full, at, crate_name);
        }
    }
}

/// `first_seen` keeps every path of the list, once.
pub(crate) proof fn lemma_first_seen(list: Seq<PathView>)
    ensures
        covers(list, first_seen(list)),
        covers(first_seen(list), list),
        first_seen(list).no_duplicates(),
    decreases list.len(),
{
    if list.len() > 0 {
        let front = list.drop_last();
        lemma_first_seen(front);
        let out = first_seen(list);
        assert forall|i: int| 0 <= i < out.len() implies list.contains(#[trigger] out[i]) by {
            if i < first_seen(front).len() {
                assert(front.contains(first_seen(front)[i]));
                let k = choose|k: int| 0 <= k < front.len() && front[k] == first_seen(front)[i];
                assert(list[k] == out[i]);
            } else {
                assert(list[list.len() - 1] == out[i]);
            }
        }
        assert forall|i: int| 0 <= i < list.len() implies out.contains(#[trigger] list[i]) by {
            if i < front.len() {
                assert(first_seen(front).contains(front[i]));
                let k = choose|k: int|
                    0 <= k < first_seen(front).len() && first_seen(front)[k] == front[i];
                assert(out[k] == list[i]);
            } else if first_seen(front).contains(list.last()) {
            } else {
                assert(out[out.len() - 1] == list[i]);
            }
        }
    }
}

/// The modules that a module leads to are modules of files, each listed once.
pub(crate) proof fn lemma_imports_groups(ix: Index, locations: PathMap<Location>, crate_name: Seq<char>, p: PathView)
    requires
        ix.locations == locations@,
    ensures
        imports_of(ix, crate_name, p) matches Ok(targets) ==> all_within(
            targets,
            groups(locations.values()),
        ) && targets.no_duplicates(),
{
    if let Ok(found) = located(ix.locations, p, p, crate_name) {
        let raws = use_paths(found.file.items@);
        lemma_targets_groups(ix, locations, crate_name, raws, p);
        if let Ok(targets) = import_targets(ix, crate_name, raws, p) {
            lemma_first_seen(targets);
            let out = first_seen(targets);
            assert forall|i: int| 0 <= i < out.len() implies groups(locations.values()).contains(
                #[trigger] out[i],
            ) by {
                assert(targets.contains(out[i]));
            }
        }
    }
}

/// An error among the first imports of the entry file is the error of them all.
pub(crate) proof fn lemma_seeds_stuck(
    table: Map<PathView, LocationView>,
    crate_name: Seq<char>,
    todo: Seq<PathView>,
    i: int,
    entry: PathView,
)
    requires
        0 <= i <= todo.len(),
        seeds_of(table, crate_name, todo.take(i), entry) is Err,
    ensures
        seeds_of(table, crate_name, todo, entry) == seeds_of(table, crate_name, todo.take(i), entry),
    decreases todo.len() - i,
{
    if i == todo.len() {
        assert(todo.take(i) == todo);
    } else {
        assert(todo.take(i + 1).drop_last() == todo.take(i));
        lemma_seeds_stuck(table, crate_name, todo, i + 1, entry);
    }
}

/// What is reached in one more step from a module that is reached is reached.
pub proof fn lemma_reach_step(ix: Index, crate_name: Seq<char>, seeds: Seq<PathView>, p: PathView, q: PathView)
    requires
        reachable(ix, crate_name, seeds, p),
        leads_to(ix, crate_name, p, q),
    ensures
        reachable(ix, crate_name, seeds, q),
{
    let n = choose|n: nat| reach(ix, crate_name, seeds, n, p);
    assert(reach(ix, crate_name, seeds, n + 1, q));
}

/// A list that holds the seeds, and with each module all that its imports
/// lead to, holds every module that is reached.
pub proof fn lemma_reach_closed(
    ix: Index,
    crate_name: Seq<char>,
    seeds: Seq<PathView>,
    held: Seq<PathView>,
    n: nat,
    q: PathView,
)
    requires
        covers(held, seeds),
        follows(ix, crate_name, held, held),
        reach(ix, crate_name, seeds, n, q),
    ensures
        held.contains(q),
    decreases n,
{
    if n == 0 {
        let i = choose|i: int| 0 <= i < seeds.len() && seeds[i] == q;
        assert(held.contains(seeds[i]));
    } else if reach(ix, crate_name, seeds, (n - 1) as nat, q) {
        lemma_reach_closed(ix, crate_name, seeds, held, (n - 1) as nat, q);
    } else {
        let p = choose|p: PathView|
            reach(ix, crate_name, seeds, (n - 1) as nat, p) && #[trigger] leads_to(
                ix,
                crate_name,
                p,
                q,
            );
        lemma_reach_closed(ix, crate_name, seeds, held, (n - 1) as nat, p);
        let i = choose|i: int| 0 <= i < held.len() && held[i] == p;
        let targets = imports_of(ix, crate_name, held[i])->Ok_0;
        let j = choose|j: int| 0 <= j < targets.len() && targets[j] == q;
        assert(held.contains(targets[j]));
    }
}

/// What a list with one more path at its end holds.
pub(crate) proof fn lemma_push_contains(s: Seq<PathView>, x: PathView)
    ensures
        forall|y: PathView| s.push(x).contains(y) <==> s.contains(y) || y == x,
        s.no_duplicates() && !s.contains(x) ==> s.push(x).no_duplicates(),
{
    assert forall|y: PathView| s.push(x).contains(y) <==> s.contains(y) || y == x by {
        if s.push(x).contains(y) {
            let i = choose|i: int| 0 <= i < s.push(x).len() && s.push(x)[i] == y;
            if i < s.len() {
                assert(s[i] == y);
            }
        }
        if s.contains(y) {
            let i = choose|i: int| 0 <= i < s.len() && s[i] == y;
            assert(s.push(x)[i] == y);
        }
        if y == x {
            assert(s.push(x)[s.len() as int] == x);
        }
    }
}

/// Where all that is held is done, what the done modules lead to is done.
pub(crate) proof fn lemma_held_closed(ix: Index, crate_name: Seq<char>, done: Seq<PathView>, held: Seq<PathView>)
    requires
        follows(ix, crate_name, done, held),
        covers(done, held),
    ensures
        follows(ix, crate_name, done, done),
{
    assert forall|i: int| 0 <= i < done.len() implies (imports_of(
        ix,
        crate_name,
        #[trigger] done[i],
    ) matches Ok(targets) && covers(done, targets)) by {
        let targets = imports_of(ix, crate_name, done[i])->Ok_0;
        assert forall|j: int| 0 <= j < targets.len() implies done.contains(#[trigger] targets[j]) by {
            assert(held.contains(targets[j]));
            let m = choose|m: int| 0 <= m < held.len() && held[m] == targets[j];
            assert(done.contains(held[m]));
        }
    }
}

/// A list without repetition is no longer than a set that holds all its members.
pub(crate) proof fn lemma_room(list: Seq<PathView>, all: Set<PathView>)
    requires
        list.no_duplicates(),
        all.finite(),
        all_within(list, all),
    ensures
        list.len() <= all.len(),
{
    list.unique_seq_to_set();
    assert(list.to_set().subset_of(all)) by {
        assert forall|p: PathView| list.to_set().contains(p) implies all.contains(p) by {
            let i = choose|i: int| 0 <= i < list.len() && list[i] == p;
            assert(all.contains(list[i]));
        }
    }
    vstd::set_lib::lemma_len_subset(list.to_set(), all);
}

} // verus!
