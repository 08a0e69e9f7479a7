//! Which modules a bundle needs.
//!
//! The module table says which file holds each module of the crate. From the
//! imports of the entry file the traversal follows imports from module to
//! module, and lists every module that it reaches.

use vstd::prelude::*;
use vstd::string::*;
use crate::error::{Error, Failure};
use crate::index::{index_entries, scan_entries, Index, Location, LocationView, ModIndex};
use crate::path::{
    ascending, copy_path, has_path, lemma_ascending_once, lemma_ascending_unique, paths, sort_dedup,
    ModPath, PathView,
};
use crate::reach::{
    all_reached, all_within, broken, covers, fails_with, follows, groups, lemma_groups_finite,
    lemma_held_closed, lemma_imports_groups, lemma_located_group, lemma_push_contains,
    lemma_reach_closed, lemma_reach_step, lemma_room, lemma_seeds_stuck, leads_to, reach, reachable,
    seeds_of, warnings_along,
};
use crate::resolve::{
    canonical, canonicalize, find_mod_file, imports_of, local_paths, located, use_paths, visit_use,
    visit_use_file, warned_roots, warnings_of,
};
use crate::syntax::{DirEntry, SourceFile};
use crate::table::PathMap;
use crate::text::{same_text, texts};

verus! {

/// Follows the imports of a crate from module to module.
#[derive(Debug)]
pub struct Traverse<'a> {
    /// What the directory of the crate's sources holds.
    pub crate_root: &'a Vec<DirEntry>,
    pub crate_name: String,
    /// The module that the entry file would be.
    pub entry_path: ModPath,
    /// The imports that are still to be followed.
    pub todo: Vec<ModPath>,
    pub index: ModIndex<'a>,
    /// The first names of the imports that were passed over with a warning.
    pub skipped: Vec<String>,
}

impl<'a> Traverse<'a> {
    /// The index as it is once the crate's sources have been scanned.
    pub open spec fn scanned(&self) -> Index {
        index_entries(self.crate_root@, seq![self.crate_name@], true, self.index@)
    }

    /// The modules from which the traversal starts.
    pub open spec fn seeds(&self) -> Result<Seq<PathView>, Failure> {
        seeds_of(
            self.scanned().locations,
            self.crate_name@,
            paths(self.todo@),
            texts(self.entry_path@),
        )
    }

    /// Prepares a traversal from the imports of the entry file.
    ///
    /// `entry_dir` holds the names that lead from the directory of the
    /// crate's sources to the entry file, the file's name without its
    /// extension last; it is empty for an entry file that lies elsewhere.
    pub fn new(
        crate_root: &'a Vec<DirEntry>,
        crate_name: &str,
        entry: &SourceFile,
        entry_dir: &[String],
    ) -> (r: Self)
        ensures
            r.crate_root == crate_root,
            r.crate_name@ == crate_name@,
            texts(r.entry_path@) == seq![crate_name@] + texts(entry_dir@),
            paths(r.todo@) == local_paths(use_paths(entry.items@), crate_name@),
            texts(r.skipped@) == warned_roots(use_paths(entry.items@), crate_name@),
            r.index@.locations == Map::<PathView, LocationView>::empty(),
            r.index@.visibility == Map::<PathView, Seq<char>>::empty(),
            r.index@.macros == Seq::<Seq<char>>::empty(),
    {
        let raws = visit_use_file(entry);
        let mut entry_path: ModPath = Vec::new();
        entry_path.push(crate_name.to_owned());
        let mut k: usize = 0;
        while k < entry_dir.len()
            invariant
                k <= entry_dir.len(),
                texts(entry_path@) == seq![crate_name@] + texts(entry_dir@).take(k as int),
            decreases entry_dir.len() - k,
        {
            let ghost before = texts(entry_path@);
            entry_path.push(entry_dir[k].clone());
            assert(texts(entry_path@) == before.push(entry_dir[k as int]@));
            assert(texts(entry_dir@).take(k + 1) == texts(entry_dir@).take(k as int).push(
                entry_dir[k as int]@,
            ));
            k += 1;
        }
        assert(texts(entry_dir@).take(entry_dir.len() as int) == texts(entry_dir@));
        let mut todo: Vec<ModPath> = Vec::new();
        let mut skipped: Vec<String> = Vec::new();
        let mut i: usize = 0;
        while i < raws.len()
            invariant
                i <= raws.len(),
                paths(todo@) == local_paths(paths(raws@).take(i as int), crate_name@),
                texts(skipped@) == warned_roots(paths(raws@).take(i as int), crate_name@),
            decreases raws.len() - i,
        {
            let raw = &raws[i];
            let ghost seen = paths(raws@).take(i as int);
            assert(paths(raws@).take(i + 1).drop_last() == seen);
            assert(paths(raws@).take(i + 1).last() == texts(raw@));
            if raw.len() > 0 {
                assert(texts(raw@)[0] == raw[0]@);
                let first = raw[0].as_str();
                if same_text(first, crate_name) || same_text(first, "crate") || same_text(
                    first,
                    "self",
                ) || same_text(first, "super") {
                    let ghost before = paths(todo@);
                    todo.push(copy_path(raw.as_slice()));
                    assert(paths(todo@) == before.push(texts(raw@)));
                } else if !same_text(first, "std") && !same_text(first, "core") {
                    let ghost before = texts(skipped@);
                    skipped.push(raw[0].clone());
                    assert(texts(skipped@) == before.push(raw[0]@));
                }
            }
            i += 1;
        }
        assert(paths(raws@).take(raws.len() as int) == paths(raws@));
        let index = ModIndex {
            locations: PathMap::new(),
            visibility: PathMap::new(),
            macros: Vec::new(),
        };
        assert(texts(index.macros@) == Seq::<Seq<char>>::empty());
        Traverse { crate_root, crate_name: crate_name.to_owned(), entry_path, todo, index, skipped }
    }

    /// The path that an import written in module `at` names, from the
    /// crate's name down.
    pub fn canonicalize(&self, path: &[String], at: &[String]) -> (r: Result<ModPath, Error>)
        ensures
            match canonical(texts(path@), texts(at@), self.crate_name@) {
                Some(full) => r matches Ok(p) && texts(p@) == full,
                None => r matches Err(e) && e@ == (Failure::MalformedRelativeImport {
                    path: texts(path@),
                }),
            },
    {
        canonicalize(self.crate_name.as_str(), path, at)
    }

    /// Where the module is found that holds what `mod_path`, written in
    /// module `at`, names.
    pub fn find_mod_file(&self, mod_path: &[String], at: &[String]) -> (r: Result<&Location<'a>, Error>)
        ensures
            match located(self.index@.locations, texts(mod_path@), texts(at@), self.crate_name@) {
                Ok(v) => r matches Ok(l) && l@ == v,
                Err(e) => r matches Err(x) && x@ == e,
            },
    {
        find_mod_file(&self.index, self.crate_name.as_str(), mod_path, at)
    }

    /// Lists the modules that module `path` leads to by its imports, and the
    /// first names of the imports that lead out of the crate and are worth a
    /// warning.
    pub fn visit_use(&self, path: &[String]) -> (r: Result<(Vec<ModPath>, Vec<String>), Error>)
        ensures
            match imports_of(self.index@, self.crate_name@, texts(path@)) {
                Ok(targets) => r matches Ok(found) && paths(found.0@) == targets && texts(found.1@)
                    == warnings_of(self.index@, self.crate_name@, texts(path@)),
                Err(e) => r matches Err(x) && x@ == e,
            },
    {
        visit_use(&self.index, self.crate_name.as_str(), path)
    }

    /// Lists the modules that the bundle needs, in the order of their paths,
    /// each with the file that holds it, and hands out what the index knows
    /// of visibility and of exported macros.
    ///
    /// The index is filled first. Then the imports are followed from the
    /// entry file's: a module belongs to the list if and only if it is
    /// reached from them. The run fails where an import of the entry file or
    /// of a module that is reached cannot be resolved.
    pub fn run(&mut self) -> (r: Result<
        (Vec<ModPath>, Vec<&'a SourceFile>, PathMap<String>, Vec<String>),
        Error,
    >)
        ensures
            final(self).crate_root == old(self).crate_root,
            final(self).crate_name == old(self).crate_name,
            final(self).entry_path == old(self).entry_path,
            final(self).index@.locations == old(self).scanned().locations,
            old(self).seeds() matches Err(e) ==> r matches Err(x) && x@ == e,
            old(self).seeds() matches Ok(seeds) ==> (r is Err <==> broken(
                old(self).scanned(),
                old(self).crate_name@,
                seeds,
            )),
            old(self).seeds() matches Ok(seeds) ==> (r matches Err(e) ==> fails_with(
                old(self).scanned(),
                old(self).crate_name@,
                seeds,
                e@,
            )),
            r matches Ok(out) ==> old(self).seeds() is Ok && ascending(paths(out.0@)),
            r matches Ok(out) ==> forall|q: PathView| #[trigger]
                paths(out.0@).contains(q) <==> reachable(
                    old(self).scanned(),
                    old(self).crate_name@,
                    old(self).seeds()->Ok_0,
                    q,
                ),
            r matches Ok(out) ==> out.1@.len() == out.0@.len() && forall|i: int|
                0 <= i < out.0@.len() ==> (located(
                    old(self).scanned().locations,
                    #[trigger] paths(out.0@)[i],
                    paths(out.0@)[i],
                    old(self).crate_name@,
                ) matches Ok(found) && found.file == *out.1@[i]),
            r matches Ok(out) ==> out.2@ == old(self).scanned().visibility && texts(out.3@) == old(
                self,
            ).scanned().macros,
            r matches Ok(out) ==> exists|order: Seq<PathView>|
                {
                    &&& order.no_duplicates()
                    &&& covers(order, paths(out.0@))
                    &&& covers(paths(out.0@), order)
                    &&& texts(final(self).skipped@) == texts(old(self).skipped@)
                        + #[trigger] warnings_along(
                        old(self).scanned(),
                        old(self).crate_name@,
                        order,
                    )
                },
            final(self).todo@.len() == 0,
            r is Ok ==> final(self).index@.visibility == Map::<PathView, Seq<char>>::empty()
                && final(self).index@.macros == Seq::<Seq<char>>::empty(),
            r is Err ==> final(self).index@ == old(self).scanned(),
    {
        self.scan_mods();
        let ghost ix = self.index@;
        let ghost name = self.crate_name@;
        let ghost entry = texts(self.entry_path@);
        let mut imports: Vec<ModPath> = Vec::new();
        std::mem::swap(&mut imports, &mut self.todo);
        let ghost raws = paths(imports@);
        let ghost all = groups(self.index.locations.values());
        let ghost heard = texts(self.skipped@);
        proof {
            lemma_groups_finite(self.index.locations.values());
        }
        let mut todo: Vec<ModPath> = Vec::new();
        let mut pushed: Vec<ModPath> = Vec::new();
        let ghost mut seeds: Seq<PathView> = Seq::empty();
        proof {
            assert(paths(pushed@) == Seq::<PathView>::empty());
            assert(raws.take(0).len() == 0);
        }
        let mut i: usize = 0;
        while i < imports.len()
            invariant
                i <= imports.len(),
                ix == self.index@,
                name == self.crate_name@,
                entry == texts(self.entry_path@),
                raws == paths(imports@),
                raws == paths(old(self).todo@),
                self.todo@.len() == 0,
                entry == texts(old(self).entry_path@),
                ix == old(self).scanned(),
                self.crate_root == old(self).crate_root,
                self.crate_name == old(self).crate_name,
                self.entry_path == old(self).entry_path,
                all == groups(self.index.locations.values()),
                all.finite(),
                seeds_of(ix.locations, name, raws.take(i as int), entry) == Ok::<Seq<PathView>, Failure>(
                    seeds,
                ),
                paths(todo@) == paths(pushed@),
                paths(pushed@).no_duplicates(),
                all_within(paths(pushed@), all),
                covers(paths(pushed@), seeds),
                covers(seeds, paths(pushed@)),
            decreases imports.len() - i,
        {
            assert(raws.take(i + 1).drop_last() == raws.take(i as int));
            assert(raws.take(i + 1).last() == texts(imports[i as int]@));
            match self.find_mod_file(imports[i].as_slice(), self.entry_path.as_slice()) {
                Err(e) => {
                    proof {
                        assert(seeds_of(ix.locations, name, raws.take(i + 1), entry) is Err);
                        lemma_seeds_stuck(ix.locations, name, raws, i + 1, entry);
                    }
                    return Err(e);
                },
                Ok(found) => {
                    let ghost g = texts(found.group@);
                    let ghost held = paths(pushed@);
                    proof {
                        lemma_located_group(self.index.locations, raws[i as int], entry, name);
                        lemma_push_contains(held, g);
                        lemma_push_contains(seeds, g);
                    }
                    if !has_path(&pushed, found.group.as_slice()) {
                        todo.push(copy_path(found.group.as_slice()));
                        pushed.push(copy_path(found.group.as_slice()));
                        assert(paths(pushed@) == held.push(g));
                        assert(paths(todo@) == held.push(g));
                    }
                    proof {
                        let before = seeds;
                        seeds = seeds.push(g);
                        assert(seeds[seeds.len() - 1] == g);
                        assert(paths(pushed@).contains(g));
                        assert forall|k: int| 0 <= k < seeds.len() implies paths(pushed@).contains(
                            #[trigger] seeds[k],
                        ) by {
                            if k < before.len() {
                                assert(held.contains(before[k]));
                                let m = choose|m: int| 0 <= m < held.len() && held[m] == before[k];
                                assert(paths(pushed@)[m] == before[k]);
                            }
                        }
                        assert forall|k: int| 0 <= k < paths(pushed@).len() implies seeds.contains(
                            #[trigger] paths(pushed@)[k],
                        ) by {
                            if k < held.len() {
                                assert(paths(pushed@)[k] == held[k]);
                                assert(before.contains(held[k]));
                                let m = choose|m: int| 0 <= m < before.len() && before[m] == held[k];
                                assert(seeds[m] == held[k]);
                            }
                        }
                    }
                },
            }
            i += 1;
        }
        assert(raws.take(imports.len() as int) == raws);
        let mut result: Vec<ModPath> = Vec::new();
        proof {
            assert(paths(result@) == Seq::<PathView>::empty());
            assert forall|k: int| 0 <= k < paths(pushed@).len() implies reachable(
                ix,
                name,
                seeds,
                #[trigger] paths(pushed@)[k],
            ) by {
                assert(seeds.contains(paths(pushed@)[k]));
                assert(reach(ix, name, seeds, 0, paths(pushed@)[k]));
            }
            lemma_room(paths(pushed@), all);
        }
        while todo.len() > 0
            invariant
                ix == self.index@,
                name == self.crate_name@,
                all == groups(self.index.locations.values()),
                all.finite(),
                self.todo@.len() == 0,
                ix == old(self).scanned(),
                old(self).seeds() == Ok::<Seq<PathView>, Failure>(seeds),
                self.crate_root == old(self).crate_root,
                self.crate_name == old(self).crate_name,
                self.entry_path == old(self).entry_path,
                paths(pushed@).no_duplicates(),
                all_within(paths(pushed@), all),
                pushed.len() <= all.len(),
                all_reached(ix, name, seeds, paths(pushed@)),
                covers(paths(pushed@), seeds),
                covers(paths(pushed@), paths(result@)),
                covers(paths(pushed@), paths(todo@)),
                forall|p: PathView| #[trigger]
                    paths(pushed@).contains(p) ==> paths(result@).contains(p) || paths(todo@).contains(
                        p,
                    ),
                follows(ix, name, paths(result@), paths(pushed@)),
                paths(result@).no_duplicates(),
                paths(todo@).no_duplicates(),
                forall|p: PathView| #[trigger]
                    paths(result@).contains(p) ==> !paths(todo@).contains(p),
                texts(self.skipped@) == heard + warnings_along(ix, name, paths(result@)),
            decreases all.len() - pushed.len() + todo.len(),
        {
            let ghost open = paths(todo@);
            let ghost done = paths(result@);
            let ghost held = paths(pushed@);
            let path = todo.pop().unwrap();
            let ghost here = texts(path@);
            proof {
                assert(open[open.len() - 1] == here);
                assert(paths(todo@) == open.drop_last());
                assert(held.contains(here));
                let k = choose|k: int| 0 <= k < held.len() && held[k] == here;
                assert(reachable(ix, name, seeds, held[k]));
            }
            let (uses, warned) = match self.visit_use(path.as_slice()) {
                Ok(found) => found,
                Err(e) => {
                    proof {
                        assert(reachable(ix, name, seeds, here) && imports_of(ix, name, here)
                            == Err::<Seq<PathView>, Failure>(e@));
                        assert(reachable(ix, name, seeds, here) && imports_of(ix, name, here) is Err);
                        assert(broken(ix, name, seeds));
                        assert(fails_with(ix, name, seeds, e@));
                    }
                    return Err(e);
                },
            };
            let ghost targets = paths(uses@);
            proof {
                lemma_imports_groups(ix, self.index.locations, name, here);
            }
            let ghost said = texts(self.skipped@);
            let mut warned = warned;
            self.skipped.append(&mut warned);
            result.push(path);
            proof {
                assert(paths(result@) == done.push(here));
                assert(paths(result@).drop_last() == done);
                assert(texts(self.skipped@) == said + warnings_of(ix, name, here));
                lemma_push_contains(done, here);
                assert(!open.drop_last().contains(here)) by {
                    if open.drop_last().contains(here) {
                        let k = choose|k: int| 0 <= k < open.len() - 1 && open.drop_last()[k] == here;
                        assert(open[k] == open[open.len() - 1]);
                    }
                }
                assert(!done.contains(here)) by {
                    assert(open.contains(here));
                }
                assert forall|p: PathView| #[trigger]
                    paths(result@).contains(p) implies !paths(todo@).contains(p) by {
                    if p != here {
                        assert(done.contains(p));
                        if open.drop_last().contains(p) {
                            let k = choose|k: int|
                                0 <= k < open.len() - 1 && open.drop_last()[k] == p;
                            assert(open[k] == p);
                        }
                    }
                }
                assert forall|p: PathView| #[trigger]
                    held.contains(p) implies paths(result@).contains(p) || paths(todo@).contains(p) by {
                    if !done.contains(p) && p != here {
                        let k = choose|k: int| 0 <= k < open.len() && open[k] == p;
                        assert(open.drop_last()[k] == p);
                    }
                }
                assert forall|k: int| 0 <= k < paths(todo@).len() implies held.contains(
                    #[trigger] paths(todo@)[k],
                ) by {
                    assert(open[k] == paths(todo@)[k]);
                }
                assert forall|k: int| 0 <= k < paths(result@).len() implies held.contains(
                    #[trigger] paths(result@)[k],
                ) by {
                    if k < done.len() {
                        assert(done[k] == paths(result@)[k]);
                    }
                }
            }
            let mut j: usize = 0;
            while j < uses.len()
                invariant
                    j <= uses.len(),
                    targets == paths(uses@),
                    all.finite(),
                    all_within(targets, all),
                    imports_of(ix, name, here) == Ok::<Seq<PathView>, Failure>(targets),
                    reachable(ix, name, seeds, here),
                    paths(pushed@).no_duplicates(),
                    all_within(paths(pushed@), all),
                    pushed.len() <= all.len(),
                    pushed.len() - todo.len() == held.len() - (open.len() - 1),
                    all_reached(ix, name, seeds, paths(pushed@)),
                    covers(paths(pushed@), held),
                    covers(paths(pushed@), paths(todo@)),
                    covers(paths(pushed@), paths(result@)),
                    covers(paths(pushed@), targets.take(j as int)),
                    paths(todo@).no_duplicates(),
                    forall|p: PathView| #[trigger]
                        paths(result@).contains(p) ==> !paths(todo@).contains(p),
                    forall|p: PathView| #[trigger]
                        paths(pushed@).contains(p) ==> paths(result@).contains(p) || paths(
                            todo@,
                        ).contains(p),
                decreases uses.len() - j,
            {
                let u = &uses[j];
                let ghost t = texts(u@);
                let ghost now = paths(pushed@);
                let ghost wait = paths(todo@);
                assert(targets[j as int] == t);
                proof {
                    lemma_push_contains(now, t);
                    lemma_push_contains(wait, t);
                }
                if !has_path(&pushed, u.as_slice()) {
                    todo.push(copy_path(u.as_slice()));
                    pushed.push(copy_path(u.as_slice()));
                    proof {
                        assert(paths(pushed@) == now.push(t));
                        assert(paths(todo@) == wait.push(t));
                        assert(leads_to(ix, name, here, t));
                        lemma_reach_step(ix, name, seeds, here, t);
                        assert forall|k: int| 0 <= k < paths(pushed@).len() implies reachable(
                            ix,
                            name,
                            seeds,
                            #[trigger] paths(pushed@)[k],
                        ) by {
                            if k < now.len() {
                                assert(now[k] == paths(pushed@)[k]);
                            }
                        }
                        assert forall|k: int| 0 <= k < paths(pushed@).len() implies all.contains(
                            #[trigger] paths(pushed@)[k],
                        ) by {
                            if k < now.len() {
                                assert(now[k] == paths(pushed@)[k]);
                            }
                        }
                        lemma_room(paths(pushed@), all);
                        assert(!wait.contains(t)) by {
                            if wait.contains(t) {
                                let m = choose|m: int| 0 <= m < wait.len() && wait[m] == t;
                                assert(now.contains(wait[m]));
                            }
                        }
                        assert forall|p: PathView| #[trigger]
                            paths(result@).contains(p) implies !paths(todo@).contains(p) by {
                            if p == t {
                                let m = choose|m: int|
                                    0 <= m < paths(result@).len() && paths(result@)[m] == t;
                                assert(now.contains(paths(result@)[m]));
                            }
                        }
                        assert forall|k: int| 0 <= k < paths(result@).len() implies paths(
                            pushed@,
                        ).contains(#[trigger] paths(result@)[k]) by {
                            assert(now.contains(paths(result@)[k]));
                        }
                        assert forall|k: int| 0 <= k < paths(todo@).len() implies paths(
                            pushed@,
                        ).contains(#[trigger] paths(todo@)[k]) by {
                            if k < wait.len() {
                                assert(now.contains(wait[k]));
                            }
                        }
                        assert forall|p: PathView| #[trigger]
                            paths(pushed@).contains(p) implies paths(result@).contains(p) || paths(
                            todo@,
                        ).contains(p) by {
                            if p == t {
                                assert(paths(todo@)[wait.len() as int] == t);
                            } else {
                                assert(now.contains(p));
                                if wait.contains(p) {
                                    let m = choose|m: int| 0 <= m < wait.len() && wait[m] == p;
                                    assert(paths(todo@)[m] == p);
                                }
                            }
                        }
                    }
                }
                proof {
                    assert forall|k: int| 0 <= k < held.len() implies paths(pushed@).contains(
                        #[trigger] held[k],
                    ) by {
                        assert(now.contains(held[k]));
                    }
                    assert forall|k: int| 0 <= k < targets.take(j + 1).len() implies paths(
                        pushed@,
                    ).contains(#[trigger] targets.take(j + 1)[k]) by {
                        if k < j {
                            assert(now.contains(targets.take(j as int)[k]));
                        }
                    }
                }
                j += 1;
            }
            proof {
                assert(targets.take(uses.len() as int) == targets);
                let after = paths(pushed@);
                assert forall|k: int| 0 <= k < seeds.len() implies after.contains(
                    #[trigger] seeds[k],
                ) by {
                    assert(held.contains(seeds[k]));
                    let m = choose|m: int| 0 <= m < held.len() && held[m] == seeds[k];
                    assert(after.contains(held[m]));
                }
                assert forall|k: int| 0 <= k < paths(result@).len() implies after.contains(
                    #[trigger] paths(result@)[k],
                ) by {
                    assert(held.contains(paths(result@)[k]));
                    let m = choose|m: int| 0 <= m < held.len() && held[m] == paths(result@)[k];
                    assert(after.contains(held[m]));
                }
                assert forall|k: int| 0 <= k < paths(result@).len() implies (imports_of(
                    ix,
                    name,
                    #[trigger] paths(result@)[k],
                ) matches Ok(ts) && covers(after, ts)) by {
                    if k < done.len() {
                        assert(done[k] == paths(result@)[k]);
                        let ts = imports_of(ix, name, done[k])->Ok_0;
                        assert forall|n: int| 0 <= n < ts.len() implies after.contains(
                            #[trigger] ts[n],
                        ) by {
                            assert(held.contains(ts[n]));
                            let m = choose|m: int| 0 <= m < held.len() && held[m] == ts[n];
                            assert(after.contains(held[m]));
                        }
                    }
                }
            }
        }
        let sorted = sort_dedup(&result);
        let ghost done = paths(result@);
        let ghost out = paths(sorted@);
        proof {
            assert(paths(todo@).len() == 0);
            assert forall|q: PathView| #[trigger] out.contains(q) <==> reachable(ix, name, seeds, q) by {
                assert(out.to_set().contains(q) == done.to_set().contains(q));
                if done.contains(q) {
                    let k = choose|k: int| 0 <= k < done.len() && done[k] == q;
                    assert(paths(pushed@).contains(done[k]));
                    let m = choose|m: int| 0 <= m < pushed.len() && paths(pushed@)[m] == q;
                    assert(reachable(ix, name, seeds, paths(pushed@)[m]));
                }
                if reachable(ix, name, seeds, q) {
                    let n = choose|n: nat| reach(ix, name, seeds, n, q);
                    assert(covers(done, paths(pushed@))) by {
                        assert forall|k: int| 0 <= k < paths(pushed@).len() implies done.contains(
                            #[trigger] paths(pushed@)[k],
                        ) by {
                            assert(paths(pushed@).contains(paths(pushed@)[k]));
                        }
                    }
                    lemma_held_closed(ix, name, done, paths(pushed@));
                    assert(covers(done, seeds)) by {
                        assert forall|k: int| 0 <= k < seeds.len() implies done.contains(
                            #[trigger] seeds[k],
                        ) by {
                            assert(paths(pushed@).contains(seeds[k]));
                        }
                    }
                    lemma_reach_closed(ix, name, seeds, done, n, q);
                }
            }
            assert(!broken(ix, name, seeds)) by {
                assert forall|p: PathView| #[trigger] reachable(ix, name, seeds, p) implies imports_of(
                    ix,
                    name,
                    p,
                ) is Ok by {
                    assert(out.contains(p));
                    assert(out.to_set().contains(p) == done.to_set().contains(p));
                    let k = choose|k: int| 0 <= k < done.len() && done[k] == p;
                    assert(imports_of(ix, name, done[k]) is Ok);
                }
            }
        }
        let mut files: Vec<&'a SourceFile> = Vec::new();
        let mut k: usize = 0;
        while k < sorted.len()
            invariant
                k <= sorted.len(),
                ix == self.index@,
                name == self.crate_name@,
                out == paths(sorted@),
                files.len() == k,
                forall|q: PathView| #[trigger] out.contains(q) ==> imports_of(ix, name, q) is Ok,
                forall|i: int|
                    0 <= i < k ==> (located(ix.locations, #[trigger] out[i], out[i], name) matches Ok(
                        found,
                    ) && found.file == *files@[i]),
            decreases sorted.len() - k,
        {
            assert(out.contains(out[k as int]));
            match self.find_mod_file(sorted[k].as_slice(), sorted[k].as_slice()) {
                Ok(found) => {
                    files.push(found.file);
                },
                Err(e) => {
                    assert(false);
                    return Err(e);
                },
            }
            k += 1;
        }
        let mut visibility: PathMap<String> = PathMap::new();
        std::mem::swap(&mut visibility, &mut self.index.visibility);
        let mut macros: Vec<String> = Vec::new();
        std::mem::swap(&mut macros, &mut self.index.macros);
        proof {
            assert(texts(self.index.macros@) == Seq::<Seq<char>>::empty());
            assert(covers(done, out)) by {
                assert forall|i: int| 0 <= i < out.len() implies done.contains(#[trigger] out[i]) by {
                    assert(out.contains(out[i]));
                    assert(out.to_set().contains(out[i]) == done.to_set().contains(out[i]));
                }
            }
            assert(covers(out, done)) by {
                assert forall|i: int| 0 <= i < done.len() implies out.contains(#[trigger] done[i]) by {
                    assert(done.contains(done[i]));
                    assert(out.to_set().contains(done[i]) == done.to_set().contains(done[i]));
                }
            }
            assert(texts(self.skipped@) == heard + warnings_along(ix, name, done));
        }
        Ok((sorted, files, visibility, macros))
    }

    /// Fills the index from what the directory of the crate's sources holds.
    pub fn scan_mods(&mut self)
        ensures
            final(self).index@ == index_entries(
                old(self).crate_root@,
                seq![old(self).crate_name@],
                true,
                old(self).index@,
            ),
            final(self).crate_root == old(self).crate_root,
            final(self).crate_name == old(self).crate_name,
            final(self).entry_path == old(self).entry_path,
            final(self).todo == old(self).todo,
            final(self).skipped == old(self).skipped,
    {
        let mut top: ModPath = Vec::new();
        top.push(self.crate_name.clone());
        assert(texts(top@) == seq![self.crate_name@]);
        scan_entries(self.crate_root, &top, true, &mut self.index);
    }
}

/// The list of a run is determined by the index and the seeds: two lists
/// in order that hold exactly the modules that are reached are the same, and
/// hold each of these modules once.
pub proof fn lemma_run_determined(
    ix: Index,
    crate_name: Seq<char>,
    seeds: Seq<PathView>,
    first: Seq<PathView>,
    second: Seq<PathView>,
)
    requires
        ascending(first),
        ascending(second),
        forall|q: PathView| #[trigger] first.contains(q) <==> reachable(ix, crate_name, seeds, q),
        forall|q: PathView| #[trigger] second.contains(q) <==> reachable(ix, crate_name, seeds, q),
    ensures
        first == second,
        first.no_duplicates(),
{
    assert forall|q: PathView| first.contains(q) <==> second.contains(q) by {
        assert(first.contains(q) <==> reachable(ix, crate_name, seeds, q));
        assert(second.contains(q) <==> reachable(ix, crate_name, seeds, q));
    }
    lemma_ascending_unique(first, second);
    lemma_ascending_once(first);
}

} // verus!
