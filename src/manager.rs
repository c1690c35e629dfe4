//! The scheduler: it orders the rules by their dependencies, runs each
//! rule's job once its dependencies are done, and hands each job the
//! finished binds of its dependencies.

use crate::binding::{lemma_bind_fields, lookup, set_partial, settled_from, whole, Bind, Data};
use crate::configuration::Configuration;
use crate::graph::{holds, Graph, GraphView};
use crate::handle::{Error, Handle};
use crate::job::{kept, Job};
use crate::item::set_stale;
use crate::pattern::glob_matches;
use crate::rule::{distinct_names, holds_name, names_hold, Kind, Rule};
use std::sync::Arc;
use vstd::prelude::*;

verus! {

/// Why a build stopped.
pub enum BuildError {
    /// A rule names dependencies that no rule has.
    MissingDependency { rule: String, missing: Vec<String> },
    /// Rules depend on each other in a cycle; the names along it, the
    /// first repeated at the end.
    Cycle(Vec<String>),
    /// A rule depends on one that has never been built.
    NotBuilt { rule: String },
    /// A job came back that was not handed out.
    NotDispatched { position: usize },
    /// A handler failed.
    Failed { rule: String, error: Error },
}

/// Owns the rules, the dependency graph and the finished binds, and runs
/// builds.
pub struct Manager<H> {
    configuration: Arc<Configuration>,
    rules: Vec<Rule<H>>,
    finished: Vec<Option<Arc<Bind>>>,
    paths: Arc<Vec<String>>,
    graph: Graph,
    deps: Vec<Vec<usize>>,
    remaining: Vec<usize>,
    status: Vec<u8>,
    order: Vec<usize>,
    prepared: Vec<Option<Bind>>,
    out: Vec<Option<Data>>,
    log: Ghost<Seq<usize>>,
    given: Ghost<Seq<Option<Bind>>>,
    seen: Ghost<Map<usize, Bind>>,
}

/// `after` is the copy of `before` that a rebuild after `paths` changed
/// hands to a rule matching `pattern`: partial, sharing the same data,
/// with the same items, each marked stale where it was or where it reads
/// one of `paths` that the pattern matches.
pub open spec fn dirty_copy(before: Bind, after: Bind, pattern: Seq<char>, paths: Seq<String>) -> bool {
    &&& after.spec_partial()
    &&& after.shared() == before.shared()
    &&& after.contents().len() == before.contents().len()
    &&& forall|k: int|
        0 <= k < before.contents().len() ==> (#[trigger] after.contents()[k]).route == before.contents()[k].route
            && after.contents()[k].body == before.contents()[k].body
            && after.contents()[k].owner() == before.contents()[k].owner()
            && after.contents()[k].spec_stale() == (before.contents()[k].spec_stale() || (
            before.contents()[k].route.source() matches Some(src) && names_hold(paths, src) && glob_matches(pattern, src)))
}

/// `jobs` hands out a job of the rule at `i`.
pub open spec fn hands_out<H>(jobs: Seq<(usize, Job<H>)>, i: int) -> bool {
    exists|t: int| 0 <= t < jobs.len() && (#[trigger] jobs[t]).0 == i
}

/// How many of `ds` are not done (status 2) in `status`.
pub open spec fn pending(ds: Seq<usize>, status: Seq<u8>) -> nat
    decreases ds.len(),
{
    if ds.len() == 0 {
        0
    } else {
        pending(ds.drop_last(), status) + if status[ds.last() as int] == 2 {
            0nat
        } else {
            1nat
        }
    }
}

proof fn lemma_pending_zero(ds: Seq<usize>, status: Seq<u8>)
    ensures
        pending(ds, status) == 0 <==> forall|k: int| 0 <= k < ds.len() ==> status[#[trigger] ds[k] as int] == 2,
    decreases ds.len(),
{
    if ds.len() > 0 {
        lemma_pending_zero(ds.drop_last(), status);
        if pending(ds, status) == 0 {
            assert forall|k: int| 0 <= k < ds.len() implies status[#[trigger] ds[k] as int] == 2 by {
                if k < ds.len() - 1 {
                    assert(ds[k] == ds.drop_last()[k]);
                }
            }
        }
        if forall|k: int| 0 <= k < ds.len() ==> status[#[trigger] ds[k] as int] == 2 {
            assert forall|k: int| 0 <= k < ds.len() - 1 implies status[#[trigger] ds.drop_last()[k] as int] == 2 by {
                assert(ds[k] == ds.drop_last()[k]);
            }
            assert(status[ds[ds.len() - 1] as int] == 2);
        }
    }
}

proof fn lemma_pending_done(ds: Seq<usize>, status: Seq<u8>, x: usize)
    requires
        ds.no_duplicates(),
        forall|k: int| 0 <= k < ds.len() ==> #[trigger] ds[k] < status.len(),
        x < status.len(),
        status[x as int] != 2,
    ensures
        pending(ds, status.update(x as int, 2)) + (if ds.contains(x) {
            1int
        } else {
            0int
        }) == pending(ds, status),
    decreases ds.len(),
{
    if ds.len() > 0 {
        let rest = ds.drop_last();
        let s2 = status.update(x as int, 2);
        let last = ds.last();
        assert(rest.no_duplicates());
        assert forall|k: int| 0 <= k < rest.len() implies #[trigger] rest[k] < status.len() by {
            assert(rest[k] == ds[k]);
        }
        assert(last < status.len());
        lemma_pending_done(rest, status, x);
        let xu = x;
        if last == xu {
            assert(s2[last as int] == 2);
            assert(ds[ds.len() - 1] == xu);
            assert(ds.contains(xu));
            if rest.contains(xu) {
                let k = choose|k: int| 0 <= k < rest.len() && rest[k] == xu;
                assert(ds[k] == xu);
                assert(false);
            }
        } else {
            assert(s2[last as int] == status[last as int]);
            if rest.contains(xu) {
                let k = choose|k: int| 0 <= k < rest.len() && rest[k] == xu;
                assert(ds[k] == xu);
                assert(ds.contains(xu));
            }
            if ds.contains(xu) {
                let k = choose|k: int| 0 <= k < ds.len() && ds[k] == xu;
                assert(k != ds.len() - 1);
                assert(rest[k] == xu);
                assert(rest.contains(xu));
            }
        }
    }
}

proof fn lemma_pending_same(ds: Seq<usize>, s1: Seq<u8>, s2: Seq<u8>)
    requires
        forall|k: int| 0 <= k < ds.len() ==> (s1[#[trigger] ds[k] as int] == 2) == (s2[ds[k] as int] == 2),
    ensures
        pending(ds, s1) == pending(ds, s2),
    decreases ds.len(),
{
    if ds.len() > 0 {
        assert forall|k: int| 0 <= k < ds.len() - 1 implies (s1[#[trigger] ds.drop_last()[k] as int] == 2) == (s2[ds.drop_last()[k] as int] == 2) by {
            assert(ds.drop_last()[k] == ds[k]);
        }
        lemma_pending_same(ds.drop_last(), s1, s2);
        assert((s1[ds[ds.len() - 1] as int] == 2) == (s2[ds[ds.len() - 1] as int] == 2));
    }
}

impl<H> Manager<H> {
    /// The names of the rules, by position.
    pub closed spec fn names(&self) -> Seq<Seq<char>> {
        self.rules@.map_values(|r: Rule<H>| r.spec_name())
    }

    /// The rules, by position.
    pub closed spec fn spec_rules(&self) -> Seq<Rule<H>> {
        self.rules@
    }

    /// The input paths, relative to the input directory.
    pub closed spec fn spec_paths(&self) -> Seq<String> {
        self.paths@
    }

    /// The finished bind of each rule, by position.
    pub closed spec fn spec_finished(&self) -> Seq<Option<Arc<Bind>>> {
        self.finished@
    }

    /// The rule at `i` names the rule at `j` as a dependency.
    pub open spec fn depends(&self, i: int, j: int) -> bool {
        &&& 0 <= i < self.spec_rules().len()
        &&& 0 <= j < self.spec_rules().len()
        &&& names_hold(self.spec_rules()[i].spec_dependencies(), self.spec_rules()[j].spec_name())
    }

    /// The dependency graph over rule positions: an edge from each
    /// dependency to the rule that names it.
    pub open spec fn dependency_graph(&self) -> GraphView {
        GraphView {
            nodes: Set::new(|x: u64| x < self.spec_rules().len()),
            edges: Set::new(|e: (u64, u64)| self.depends(e.1 as int, e.0 as int)),
        }
    }

    /// Some rule is called `x`.
    pub open spec fn resolvable(&self, x: Seq<char>) -> bool {
        exists|j: int| 0 <= j < self.spec_rules().len() && #[trigger] self.spec_rules()[j].spec_name() == x
    }

    /// Every dependency a rule names is a rule.
    pub open spec fn dependencies_known(&self) -> bool {
        forall|i: int, x: Seq<char>|
            0 <= i < self.spec_rules().len() && #[trigger] names_hold(self.spec_rules()[i].spec_dependencies(), x)
                ==> self.resolvable(x)
    }

    /// Consistency between builds.
    pub closed spec fn wf(&self) -> bool {
        &&& self.rules@.len() <= usize::MAX
        &&& self.finished@.len() == self.rules@.len()
        &&& self.prepared@.len() == self.rules@.len()
        &&& forall|p: int, q: int|
            0 <= p < self.rules@.len() && 0 <= q < self.rules@.len() && p != q ==> (#[trigger] self.rules@[p]).spec_name()
                != (#[trigger] self.rules@[q]).spec_name()
        &&& forall|i: int| 0 <= i < self.rules@.len() ==> distinct_names((#[trigger] self.rules@[i]).spec_dependencies())
    }

    /// `deps` holds the dependency positions of each rule.
    closed spec fn planned(&self) -> bool {
        let n = self.rules@.len();
        &&& self.wf()
        &&& self.deps@.len() == n
        &&& forall|i: int| 0 <= i < n ==> (#[trigger] self.deps@[i])@.no_duplicates()
        &&& forall|i: int, k: int| 0 <= i < n && 0 <= k < self.deps@[i]@.len() ==> #[trigger] self.deps@[i]@[k] < n
        &&& forall|i: int, j: int| 0 <= i < n && 0 <= j < n ==> (#[trigger] self.deps@[i]@.contains(j as usize) <==> self.depends(i, j))
    }

    /// The position of the rule called `name`.
    fn position(&self, name: &String) -> (r: Option<usize>)
        requires
            self.wf(),
        ensures
            r matches Some(i) ==> i < self.rules@.len() && self.rules@[i as int].spec_name() == name@,
            r is None ==> forall|j: int| 0 <= j < self.rules@.len() ==> #[trigger] self.rules@[j].spec_name() != name@,
    {
        let mut k: usize = 0;
        while k < self.rules.len()
            invariant
                k <= self.rules@.len(),
                forall|j: int| 0 <= j < k ==> #[trigger] self.rules@[j].spec_name() != name@,
            decreases self.rules@.len() - k,
        {
            if *self.rules[k].name() == *name {
                return Some(k);
            }
            k += 1;
        }
        None
    }
}

impl<H: Handle<Bind>> Manager<H> {
    /// Every rule's handler, whatever bind it gets, can only succeed.
    pub open spec fn handlers_succeed(&self) -> bool {
        forall|i: int, b: Bind, a: Bind, res: crate::handle::Result|
            0 <= i < self.spec_rules().len() && #[trigger] self.spec_rules()[i].spec_handler().outcome(b, a, res) ==> res is Ok
    }
}

impl<H: Handle<Bind>> Manager<H> {
    /// The handler of the rule at `x` ran on `start` and succeeded.
    pub open spec fn ran_on(&self, x: int, start: Bind) -> bool {
        exists|a: Bind, res: crate::handle::Result|
            res is Ok && #[trigger] self.spec_rules()[x].spec_handler().outcome(start, a, res) && settled_from(
                a,
                *self.spec_finished()[x]->Some_0,
            )
    }

    /// What the last run records of the rule at `x`: its handler ran,
    /// once, on the recorded bind, which holds what was prepared for the
    /// rule or, where nothing was, the items the rule reads from the input
    /// paths, and which shares the dependency binds that the finished bind
    /// lists; the finished bind is what the handler left, made whole.
    closed spec fn logged_ok(&self, x: usize) -> bool {
        &&& self.seen@.contains_key(x)
        &&& kept_from(self.given@[x as int], self.seen@[x])
        &&& self.ran_on(x as int, self.seen@[x])
        &&& self.seen@[x].shared().dependencies@ == self.finished@[x as int]->Some_0.shared().dependencies@
        &&& self.given@[x as int] is None ==> crate::job::routes(self.seen@[x].contents()) == crate::job::matched_routes(
            *self.rules@[x as int].spec_kind(),
            self.paths@,
        )
    }
}

impl<H: Handle<Bind>> Manager<H> {
    /// The handler of each of the first `n` rules ran in the last run and
    /// succeeded, on the bind recorded for it; that bind held the items the
    /// rule reads from the input paths, and listed the same dependency
    /// binds that the rule's finished bind lists.
    pub open spec fn handlers_ran(&self, n: nat) -> bool {
        forall|i: int|
            0 <= i < n ==> #[trigger] self.spec_seen().contains_key(i as usize) && self.ran_on(i, self.spec_seen()[i as usize])
                && self.spec_seen()[i as usize].shared().dependencies@ == self.spec_finished()[i]->Some_0.shared().dependencies@
                && crate::job::routes(self.spec_seen()[i as usize].contents()) == crate::job::matched_routes(
                *self.spec_rules()[i].spec_kind(),
                self.spec_paths(),
            )
    }

    /// The handler of each rule of `scope` ran in the last run and
    /// succeeded, on the bind recorded for it, which listed the same
    /// dependency binds that the rule's finished bind lists.
    pub open spec fn handlers_saw(&self, scope: Set<usize>) -> bool {
        forall|i: int|
            0 <= i < self.spec_rules().len() && scope.contains(i as usize) ==> #[trigger] self.spec_seen().contains_key(i as usize)
                && self.ran_on(i, self.spec_seen()[i as usize])
                && self.spec_seen()[i as usize].shared().dependencies@ == self.spec_finished()[i]->Some_0.shared().dependencies@
    }

    /// The recorded bind of each rule of `scope` held the items the rule
    /// reads from the input paths.
    pub open spec fn populated(&self, scope: Set<usize>) -> bool {
        forall|i: int|
            0 <= i < self.spec_rules().len() && scope.contains(i as usize) ==> #[trigger] crate::job::routes(
                self.spec_seen()[i as usize].contents(),
            ) == crate::job::matched_routes(*self.spec_rules()[i].spec_kind(), self.spec_paths())
    }
}

impl<H: Handle<Bind>> Manager<H> {
    /// In the last run, the handler of each rule that `paths` touched in
    /// `before` ran, and succeeded, on the copy of its finished bind that a
    /// rebuild prepares, as [`Manager::prepared_as`] describes.
    pub open spec fn saw_dirty_copies(&self, before: Manager<H>, paths: Seq<String>) -> bool {
        forall|i: int|
            0 <= i < before.spec_rules().len() && #[trigger] before.touched(i, paths) ==> self.spec_seen().contains_key(i as usize)
                && self.ran_on(i, self.spec_seen()[i as usize]) && exists|b: Bind|
                before.prepared_as(i, Some(b), paths) && kept(b, self.spec_seen()[i as usize])
    }
}

/// `start` holds what was prepared for the rule, where something was: the
/// same items with the same routes, bodies and stale marks.
pub open spec fn kept_from(given: Option<Bind>, start: Bind) -> bool {
    given is Some ==> kept(given->Some_0, start)
}

impl<H: Handle<Bind>> Manager<H> {
    /// A manager with no rules and no input paths.
    pub fn new(configuration: Arc<Configuration>) -> (r: Manager<H>)
        ensures
            r.wf(),
            r.spec_rules().len() == 0,
    {
        Manager {
            configuration,
            rules: Vec::new(),
            finished: Vec::new(),
            paths: Arc::new(Vec::new()),
            graph: Graph::new(),
            deps: Vec::new(),
            remaining: Vec::new(),
            status: Vec::new(),
            order: Vec::new(),
            prepared: Vec::new(),
            out: Vec::new(),
            log: Ghost(Seq::empty()),
            given: Ghost(Seq::empty()),
            seen: Ghost(Map::empty()),
        }
    }

    /// Sets the input paths, relative to the input directory, that
    /// matching rules read.
    pub fn update_paths(&mut self, paths: Vec<String>)
        requires
            old(self).wf(),
        ensures
            final(self).wf(),
            final(self).spec_rules() == old(self).spec_rules(),
            final(self).spec_finished() == old(self).spec_finished(),
            final(self).spec_paths() == paths@,
    {
        self.paths = Arc::new(paths);
    }

    /// Registers `rule`; a rule of the same name is replaced, and its
    /// finished bind dropped.
    pub fn add(&mut self, rule: Rule<H>)
        requires
            old(self).wf(),
            distinct_names(rule.spec_dependencies()),
        ensures
            final(self).wf(),
            exists|i: int| 0 <= i < final(self).spec_rules().len() && #[trigger] final(self).spec_rules()[i] == rule,
            forall|j: int| 0 <= j < old(self).spec_rules().len() && old(self).spec_rules()[j].spec_name() != rule.spec_name()
                ==> exists|i: int| 0 <= i < final(self).spec_rules().len() && #[trigger] final(self).spec_rules()[i] == old(self).spec_rules()[j],
            final(self).spec_rules().len() <= old(self).spec_rules().len() + 1,
            (forall|j: int| 0 <= j < old(self).spec_rules().len() ==> #[trigger] old(self).spec_rules()[j].spec_name() != rule.spec_name())
                ==> final(self).spec_rules() == old(self).spec_rules().push(rule),
            forall|j: int|
                0 <= j < old(self).spec_rules().len() && old(self).spec_rules()[j].spec_name() != rule.spec_name()
                    ==> #[trigger] final(self).spec_rules()[j] == old(self).spec_rules()[j] && final(self).spec_finished()[j]
                    == old(self).spec_finished()[j],
            forall|j: int|
                0 <= j < final(self).spec_rules().len() && #[trigger] final(self).spec_rules()[j] == rule
                    ==> final(self).spec_finished()[j] is None,
            final(self).spec_finished().len() == final(self).spec_rules().len(),
    {
        let ghost n0 = self.rules@.len();
        let ghost old_rules = self.rules@;
        assert(old_rules == old(self).spec_rules());
        match self.position(rule.name()) {
            Some(i) => {
                self.rules.set(i, rule);
                self.finished.set(i, None);
                self.prepared.set(i, None);
                proof {
                    assert(self.spec_rules()[i as int] == rule);
                    assert forall|j: int| 0 <= j < old_rules.len() && old_rules[j].spec_name() != rule.spec_name()
                        implies exists|x: int| 0 <= x < self.rules@.len() && #[trigger] self.rules@[x] == old_rules[j] by {
                        assert(self.spec_rules()[j] == old_rules[j]);
                    }
                }
            },
            None => {
                self.rules.push(rule);
                self.finished.push(None);
                self.prepared.push(None);
                proof {
                    assert(self.rules.len() == self.rules@.len());
                    assert(self.spec_rules()[n0 as int] == rule);
                    assert forall|j: int| 0 <= j < old_rules.len() && old_rules[j].spec_name() != rule.spec_name()
                        implies exists|x: int| 0 <= x < self.rules@.len() && #[trigger] self.rules@[x] == old_rules[j] by {
                        assert(self.spec_rules()[j] == old_rules[j]);
                    }
                }
            },
        }
    }
}

impl<H: Handle<Bind>> Manager<H> {
    /// The positions of the dependencies of the rule at `i`, or the names
    /// it gives that no rule has.
    fn dependency_positions(&self, i: usize) -> (r: Result<Vec<usize>, Vec<String>>)
        requires
            self.wf(),
            i < self.rules@.len(),
        ensures
            r matches Ok(ds) ==> {
                &&& ds@.no_duplicates()
                &&& forall|k: int| 0 <= k < ds@.len() ==> #[trigger] ds@[k] < self.rules@.len()
                &&& forall|j: int| 0 <= j < self.rules@.len() ==> (#[trigger] ds@.contains(j as usize) <==> self.depends(i as int, j))
            },
            r is Ok <==> forall|x: Seq<char>| names_hold(self.rules@[i as int].spec_dependencies(), x)
                ==> #[trigger] self.resolvable(x),
            r matches Err(missing) ==> missing@.len() > 0 && forall|k: int| 0 <= k < missing@.len()
                ==> names_hold(self.rules@[i as int].spec_dependencies(), (#[trigger] missing@[k])@),
    {
        let names = self.rules[i].dependencies();
        let ghost dn = names@;
        assert(self.rules@.len() == self.rules.len());
        let mut ds: Vec<usize> = Vec::new();
        let mut missing: Vec<String> = Vec::new();
        let mut k: usize = 0;
        while k < names.len()
            invariant
                self.wf(),
                i < self.rules@.len(),
                dn == names@,
                dn == self.rules@[i as int].spec_dependencies(),
                distinct_names(dn),
                k <= dn.len(),
                forall|m: int| 0 <= m < ds@.len() ==> #[trigger] ds@[m] < self.rules@.len(),
                ds@.no_duplicates(),
                forall|j: int| 0 <= j < self.rules@.len() ==> (#[trigger] ds@.contains(j as usize) <==> exists|m: int|
                    0 <= m < k && (#[trigger] dn[m])@ == self.rules@[j].spec_name()),
                forall|m: int| 0 <= m < missing@.len() ==> names_hold(dn, (#[trigger] missing@[m])@),
                missing@.len() == 0 <==> forall|m: int| 0 <= m < k ==> self.resolvable((#[trigger] dn[m])@),
                self.rules@.len() <= usize::MAX,
            decreases dn.len() - k,
        {
            let ghost ds0 = ds@;
            match self.position(&names[k]) {
                Some(j) => {
                    proof {
                        let ji = j as int;
                        assert(dn[k as int]@ == self.rules@[ji].spec_name());
                        assert(self.spec_rules()[ji].spec_name() == dn[k as int]@);
                        assert(self.resolvable(dn[k as int]@));
                        if ds0.contains(ji as usize) {
                            assert(exists|m: int| 0 <= m < k && (#[trigger] dn[m])@ == self.rules@[ji].spec_name());
                            let m = choose|m: int| 0 <= m < k && (#[trigger] dn[m])@ == self.rules@[ji].spec_name();
                            assert(dn[m]@ == dn[k as int]@);
                            assert(false);
                        }
                    }
                    ds.push(j);
                    proof {
                        assert forall|jj: int| 0 <= jj < self.rules@.len() implies (#[trigger] ds@.contains(jj as usize) <==> exists|m: int|
                            0 <= m < k + 1 && (#[trigger] dn[m])@ == self.rules@[jj].spec_name()) by {
                            if ds@.contains(jj as usize) {
                                let p = choose|p: int| 0 <= p < ds@.len() && ds@[p] == jj as usize;
                                if p < ds0.len() {
                                    assert(ds0[p] == jj as usize);
                                    assert(ds0.contains(jj as usize));
                                } else {
                                    assert(ds@[p] == j);
                                    assert(dn[k as int]@ == self.rules@[jj].spec_name());
                                }
                            }
                            if exists|m: int| 0 <= m < k + 1 && (#[trigger] dn[m])@ == self.rules@[jj].spec_name() {
                                let m = choose|m: int| 0 <= m < k + 1 && (#[trigger] dn[m])@ == self.rules@[jj].spec_name();
                                if m < k {
                                    assert(ds0.contains(jj as usize));
                                    let p = choose|p: int| 0 <= p < ds0.len() && ds0[p] == jj as usize;
                                    assert(ds@[p] == jj as usize);
                                } else {
                                    if jj != j as int {
                                        assert(self.rules@[jj].spec_name() != self.rules@[j as int].spec_name());
                                    }
                                    assert(ds@[ds0.len() as int] == j);
                                }
                            }
                        }
                        assert(ds@.no_duplicates());
                        assert(names_hold(dn, dn[k as int]@));
                    }
                },
                None => {
                    proof {
                        assert(names_hold(dn, dn[k as int]@));
                    }
                    missing.push(names[k].clone());
                    proof {
                        assert forall|jj: int| 0 <= jj < self.rules@.len() implies (#[trigger] ds@.contains(jj as usize) <==> exists|m: int|
                            0 <= m < k + 1 && (#[trigger] dn[m])@ == self.rules@[jj].spec_name()) by {
                            if exists|m: int| 0 <= m < k + 1 && (#[trigger] dn[m])@ == self.rules@[jj].spec_name() {
                                let m = choose|m: int| 0 <= m < k + 1 && (#[trigger] dn[m])@ == self.rules@[jj].spec_name();
                                assert(m < k);
                            }
                        }
                        assert(!self.resolvable(dn[k as int]@));
                    }
                },
            }
            k += 1;
        }
        proof {
            assert forall|j: int| 0 <= j < self.rules@.len() implies (#[trigger] ds@.contains(j as usize) <==> self.depends(i as int, j)) by {
                if ds@.contains(j as usize) {
                    let m = choose|m: int| 0 <= m < k && (#[trigger] dn[m])@ == self.rules@[j].spec_name();
                }
                if self.depends(i as int, j) {
                    let m = choose|m: int| 0 <= m < dn.len() && (#[trigger] dn[m])@ == self.spec_rules()[j].spec_name();
                }
            }
            if missing@.len() == 0 {
                assert forall|x: Seq<char>| names_hold(dn, x) implies #[trigger] self.resolvable(x) by {
                    let m = choose|m: int| 0 <= m < dn.len() && (#[trigger] dn[m])@ == x;
                    assert(self.resolvable(dn[m]@));
                }
            } else {
                let m = choose|m: int| 0 <= m < k && !self.resolvable((#[trigger] dn[m])@);
                assert(names_hold(dn, dn[m]@));
            }
        }
        if missing.len() == 0 {
            Ok(ds)
        } else {
            Err(missing)
        }
    }
}

impl<H: Handle<Bind>> Manager<H> {
    /// Works out the dependency positions of every rule; fails on the first
    /// rule that names a missing dependency.
    fn plan(&mut self) -> (r: Result<(), BuildError>)
        requires
            old(self).wf(),
        ensures
            final(self).wf(),
            final(self).rules == old(self).rules,
            final(self).finished == old(self).finished,
            final(self).prepared == old(self).prepared,
            final(self).paths == old(self).paths,
            final(self).graph == old(self).graph,
            final(self).log == old(self).log,
            r is Ok <==> old(self).dependencies_known(),
            r is Ok ==> final(self).planned(),
            r matches Err(e) ==> e is MissingDependency,
    {
        let mut deps: Vec<Vec<usize>> = Vec::new();
        let mut i: usize = 0;
        while i < self.rules.len()
            invariant
                self.wf(),
                self.rules == old(self).rules,
                self.finished == old(self).finished,
                self.prepared == old(self).prepared,
                self.paths == old(self).paths,
                self.graph == old(self).graph,
                self.log == old(self).log,
                i <= self.rules@.len(),
                deps@.len() == i,
                forall|x: int| 0 <= x < i ==> (#[trigger] deps@[x])@.no_duplicates(),
                forall|x: int, k: int| 0 <= x < i && 0 <= k < deps@[x]@.len() ==> #[trigger] deps@[x]@[k] < self.rules@.len(),
                forall|x: int, j: int| 0 <= x < i && 0 <= j < self.rules@.len() ==> (#[trigger] deps@[x]@.contains(j as usize) <==> self.depends(x, j)),
                forall|x: int, y: Seq<char>| 0 <= x < i && #[trigger] names_hold(self.spec_rules()[x].spec_dependencies(), y) ==> self.resolvable(y),
            decreases self.rules@.len() - i,
        {
            match self.dependency_positions(i) {
                Ok(ds) => {
                    deps.push(ds);
                },
                Err(missing) => {
                    proof {
                        let y = missing@[0]@;
                        assert(names_hold(self.spec_rules()[i as int].spec_dependencies(), y));
                        assert(!self.dependencies_known());
                    }
                    return Err(BuildError::MissingDependency { rule: self.rules[i].name().clone(), missing });
                },
            }
            i += 1;
        }
        self.deps = deps;
        Ok(())
    }

    /// The dependency graph of the planned rules.
    fn build_graph(&self) -> (g: Graph)
        requires
            self.planned(),
        ensures
            g.wf(),
            g.view() == self.dependency_graph(),
    {
        let ghost n = self.rules@.len();
        assert(self.rules@.len() == self.rules.len());
        let mut g = Graph::new();
        let mut i: usize = 0;
        while i < self.rules.len()
            invariant
                n == self.rules@.len(),
                n <= usize::MAX,
                i <= n,
                g.wf(),
                g.view().nodes == Set::new(|x: u64| x < i),
                g.view().edges == Set::<(u64, u64)>::empty(),
            decreases n - i,
        {
            g.add_node(i as u64);
            assert(g.view().nodes =~= Set::new(|x: u64| x < i + 1));
            i += 1;
        }
        let mut i: usize = 0;
        assert(g.view().edges =~= Set::new(|e: (u64, u64)| e.0 < n && e.1 < i && self.deps@[e.1 as int]@.contains(e.0 as usize)));
        while i < self.rules.len()
            invariant
                self.planned(),
                n == self.rules@.len(),
                n <= usize::MAX,
                i <= n,
                g.wf(),
                g.view().nodes == Set::new(|x: u64| x < n),
                g.view().edges == Set::new(|e: (u64, u64)| e.0 < n && e.1 < i && self.deps@[e.1 as int]@.contains(e.0 as usize)),
            decreases n - i,
        {
            let ds = &self.deps[i];
            let mut k: usize = 0;
            assert(g.view().edges =~= Set::new(|e: (u64, u64)| e.0 < n && (e.1 < i && self.deps@[e.1 as int]@.contains(e.0 as usize)
                || e.1 == i && ds@.take(k as int).contains(e.0 as usize))));
            while k < ds.len()
                invariant
                    self.planned(),
                    n == self.rules@.len(),
                    n <= usize::MAX,
                    i < n,
                    ds == self.deps@[i as int],
                    k <= ds@.len(),
                    g.wf(),
                    g.view().nodes == Set::new(|x: u64| x < n),
                    g.view().edges == Set::new(|e: (u64, u64)| e.0 < n && (e.1 < i && self.deps@[e.1 as int]@.contains(e.0 as usize)
                        || e.1 == i && ds@.take(k as int).contains(e.0 as usize))),
                decreases ds@.len() - k,
            {
                let d = ds[k];
                assert(d < n);
                let ghost e0 = g.view().edges;
                g.add_edge(d as u64, i as u64);
                proof {
                    assert(g.view().nodes =~= Set::new(|x: u64| x < n));
                    let t0 = ds@.take(k as int);
                    let t1 = ds@.take(k + 1);
                    assert(t1 =~= t0.push(d));
                    assert forall|x: usize| #[trigger] t1.contains(x) <==> t0.contains(x) || x == d by {
                        if t1.contains(x) {
                            let m = choose|m: int| 0 <= m < t1.len() && t1[m] == x;
                            if m < t0.len() {
                                assert(t0[m] == x);
                            }
                        }
                        if t0.contains(x) {
                            let m = choose|m: int| 0 <= m < t0.len() && t0[m] == x;
                            assert(t1[m] == x);
                        }
                        if x == d {
                            assert(t1[k as int] == d);
                        }
                    }
                    assert(g.view().edges =~= Set::new(|e: (u64, u64)| e.0 < n && (e.1 < i && self.deps@[e.1 as int]@.contains(e.0 as usize)
                        || e.1 == i && t1.contains(e.0 as usize))));
                }
                k += 1;
            }
            assert(ds@.take(k as int) =~= ds@);
            assert(g.view().edges =~= Set::new(|e: (u64, u64)| e.0 < n && e.1 < i + 1 && self.deps@[e.1 as int]@.contains(e.0 as usize)));
            i += 1;
        }
        proof {
            let dg = self.dependency_graph();
            assert(g.view().nodes =~= dg.nodes);
            assert forall|e: (u64, u64)| #[trigger] g.view().edges.contains(e) <==> dg.edges.contains(e) by {
                if e.0 < n && e.1 < n {
                    assert(self.deps@[e.1 as int]@.contains((e.0 as int) as usize) <==> self.depends(e.1 as int, e.0 as int));
                }
            }
            assert(g.view().edges =~= dg.edges);
        }
        g
    }
}

/// How many entries of `status` are not done.
spec fn unfinished(status: Seq<u8>) -> nat
    decreases status.len(),
{
    if status.len() == 0 {
        0
    } else {
        unfinished(status.drop_last()) + if status.last() == 2 {
            0nat
        } else {
            1nat
        }
    }
}

proof fn lemma_unfinished_done(status: Seq<u8>, x: int)
    requires
        0 <= x < status.len(),
        status[x] != 2,
    ensures
        unfinished(status.update(x, 2)) + 1 == unfinished(status),
    decreases status.len(),
{
    let s2 = status.update(x, 2);
    if x == status.len() - 1 {
        assert(s2.drop_last() =~= status.drop_last());
    } else {
        assert(s2.drop_last() =~= status.drop_last().update(x, 2));
        lemma_unfinished_done(status.drop_last(), x);
    }
}

proof fn lemma_unfinished_same(s1: Seq<u8>, s2: Seq<u8>)
    requires
        s1.len() == s2.len(),
        forall|k: int| 0 <= k < s1.len() ==> (#[trigger] s1[k] == 2) == (s2[k] == 2),
    ensures
        unfinished(s1) == unfinished(s2),
    decreases s1.len(),
{
    if s1.len() > 0 {
        assert forall|k: int| 0 <= k < s1.len() - 1 implies (#[trigger] s1.drop_last()[k] == 2) == (s2.drop_last()[k] == 2) by {
            assert(s1.drop_last()[k] == s1[k] && s2.drop_last()[k] == s2[k]);
        }
        lemma_unfinished_same(s1.drop_last(), s2.drop_last());
        assert((s1[s1.len() - 1] == 2) == (s2[s1.len() - 1] == 2));
    }
}

impl<H> Manager<H> {
    /// `entries` name each dependency of the rule at `i`, in order, with
    /// its finished bind.
    pub closed spec fn fits_snapshot(&self, i: int, entries: Seq<(String, Arc<Bind>)>) -> bool {
        &&& entries.len() == self.deps@[i]@.len()
        &&& forall|k: int|
            0 <= k < entries.len() ==> (#[trigger] entries[k]).0@ == self.rules@[self.deps@[i]@[k] as int].spec_name()
                && self.finished@[self.deps@[i]@[k] as int] == Some(entries[k].1)
    }

    /// The bookkeeping of a run, between steps.
    closed spec fn scheduled(&self) -> bool {
        let n = self.rules@.len();
        let st = self.status@;
        let o = self.order@;
        let log = self.log@;
        &&& self.planned()
        &&& st.len() == n
        &&& self.remaining@.len() == n
        &&& forall|i: int| 0 <= i < n ==> #[trigger] st[i] <= 2
        &&& forall|i: int| 0 <= i < n && #[trigger] st[i] == 2 ==> self.finished@[i] is Some
        &&& forall|i: int| 0 <= i < n && #[trigger] st[i] == 0 ==> self.remaining@[i] == pending(self.deps@[i]@, st)
        &&& forall|i: int, k: int|
            0 <= i < n && st[i] == 1 && 0 <= k < self.deps@[i]@.len() ==> st[#[trigger] self.deps@[i]@[k] as int] == 2
        &&& forall|i: int| 0 <= i < n && #[trigger] st[i] != 2 ==> o.contains(i as usize)
        &&& o.no_duplicates()
        &&& forall|p: int| 0 <= p < o.len() ==> #[trigger] o[p] < n
        &&& forall|p: int, q: int|
            0 <= p < o.len() && 0 <= q < o.len() && #[trigger] self.deps@[o[q] as int]@.contains(#[trigger] o[p]) ==> p < q
        &&& forall|p: int, k: int|
            0 <= p < o.len() && 0 <= k < self.deps@[o[p] as int]@.len() ==> st[#[trigger] self.deps@[o[p] as int]@[k] as int] == 2
                || o.contains(self.deps@[o[p] as int]@[k])
        &&& log.no_duplicates()
        &&& forall|t: int| 0 <= t < log.len() ==> #[trigger] log[t] < n && st[log[t] as int] == 2 && o.contains(log[t])
        &&& forall|p: int| 0 <= p < o.len() && #[trigger] st[o[p] as int] == 2 ==> log.contains(o[p])
        &&& forall|t: int|
            0 <= t < log.len() ==> self.fits_snapshot(#[trigger] log[t] as int, self.finished@[log[t] as int]->Some_0.shared().dependencies@)
        &&& forall|t: int| 0 <= t < log.len() ==> whole(*self.finished@[#[trigger] log[t] as int]->Some_0)
        &&& self.given@.len() == n
        &&& forall|i: int| 0 <= i < n && #[trigger] st[i] == 0 ==> self.prepared@[i] == self.given@[i]
        &&& forall|t: int, k: int|
            0 <= t < log.len() && 0 <= k < self.deps@[log[t] as int]@.len() ==> st[#[trigger] self.deps@[log[t] as int]@[k] as int] == 2
        &&& forall|t: int, k: int|
            0 <= t < log.len() && 0 <= k < self.deps@[log[t] as int]@.len() && o.contains(#[trigger] self.deps@[log[t] as int]@[k])
                ==> exists|u: int| 0 <= u < t && log[u] == self.deps@[log[t] as int]@[k]
    }

    /// No waiting rule is ready.
    closed spec fn settled(&self) -> bool {
        forall|i: int| 0 <= i < self.rules@.len() && #[trigger] self.status@[i] == 0 ==> self.remaining@[i] > 0
    }

    /// `job` is what the rule at `i` was dispatched with.
    closed spec fn fits_job(&self, i: int, job: Job<H>) -> bool {
        &&& job.bind_data.name@ == self.rules@[i].spec_name()
        &&& self.fits_snapshot(i, job.bind_data.dependencies@)
        &&& job.kind == self.rules@[i].spec_kind()
        &&& job.handler == self.rules@[i].spec_handler()
        &&& job.paths == self.paths
    }

    /// `queue` holds fitting jobs of dispatched rules, one per rule.
    closed spec fn queue_ok(&self, queue: Seq<(usize, Job<H>)>) -> bool {
        &&& forall|t: int| 0 <= t < queue.len() ==> (#[trigger] queue[t]).0 < self.rules@.len()
            && self.status@[queue[t].0 as int] == 1 && self.fits_job(queue[t].0 as int, queue[t].1)
        &&& forall|t: int, u: int| 0 <= t < queue.len() && 0 <= u < queue.len() && t != u ==> (#[trigger] queue[t]).0 != (#[trigger] queue[u]).0
    }

    /// Every dispatched rule has its job in `queue`.
    closed spec fn queue_covers(&self, queue: Seq<(usize, Job<H>)>) -> bool {
        forall|i: int| 0 <= i < self.rules@.len() && #[trigger] self.status@[i] == 1 ==> exists|t: int| 0 <= t < queue.len() && (#[trigger] queue[t]).0 == i
    }
}

impl<H: Handle<Bind>> Manager<H> {
    /// The job of the rule at `i`, whose dependencies are all done: its
    /// data holds the finished bind of each, and it takes the bind prepared
    /// for it, if any.
    fn make_job(&mut self, i: usize) -> (job: Job<H>)
        requires
            old(self).scheduled(),
            i < old(self).rules@.len(),
            forall|k: int| 0 <= k < old(self).deps@[i as int]@.len() ==> old(self).status@[#[trigger] old(self).deps@[i as int]@[k] as int] == 2,
        ensures
            final(self).fits_job(i as int, job),
            job.bind == old(self).prepared@[i as int],
            *final(self) == (Manager { prepared: final(self).prepared, ..*old(self) }),
            final(self).prepared@ == old(self).prepared@.update(i as int, None),
    {
        let mut data = Data::new(self.rules[i].name().clone(), self.configuration.clone());
        let mut k: usize = 0;
        while k < self.deps[i].len()
            invariant
                self.scheduled(),
                *self == *old(self),
                i < self.rules@.len(),
                forall|m: int| 0 <= m < self.deps@[i as int]@.len() ==> self.status@[#[trigger] self.deps@[i as int]@[m] as int] == 2,
                k <= self.deps@[i as int]@.len(),
                data.name@ == self.rules@[i as int].spec_name(),
                data.dependencies@.len() == k,
                forall|m: int| 0 <= m < k ==> (#[trigger] data.dependencies@[m]).0@ == self.rules@[self.deps@[i as int]@[m] as int].spec_name()
                    && self.finished@[self.deps@[i as int]@[m] as int] == Some(data.dependencies@[m].1),
            decreases self.deps@[i as int]@.len() - k,
        {
            let d = self.deps[i][k];
            assert(self.status@[d as int] == 2);
            match &self.finished[d] {
                Some(b) => {
                    data.dependencies.push((self.rules[d].name().clone(), b.clone()));
                },
                None => {
                    assert(false);
                },
            }
            k += 1;
        }
        let mut job = Job::new(data, self.rules[i].kind().clone(), self.rules[i].handler().clone(), self.paths.clone());
        job.bind = self.prepared[i].take();
        job
    }

    /// Dispatches every waiting rule whose dependencies are all done, in
    /// the order of the run.
    fn enqueue_ready(&mut self, queue: &mut Vec<(usize, Job<H>)>)
        requires
            old(self).scheduled(),
            old(self).queue_ok(old(queue)@),
        ensures
            final(self).scheduled(),
            final(self).settled(),
            final(self).queue_ok(final(queue)@),
            final(self).rules == old(self).rules,
            final(self).finished == old(self).finished,
            final(self).deps == old(self).deps,
            final(self).order == old(self).order,
            final(self).log == old(self).log,
            final(self).paths == old(self).paths,
            final(self).graph == old(self).graph,
            final(self).prepared@.len() == old(self).prepared@.len(),
            forall|x: int| 0 <= x < old(self).status@.len() ==> (#[trigger] final(self).status@[x] == 2) == (old(self).status@[x] == 2),
            final(self).status@.len() == old(self).status@.len(),
            old(queue)@.is_prefix_of(final(queue)@),
            forall|j: int| 0 <= j < old(self).rules@.len() && #[trigger] final(self).status@[j] == 1 ==> old(self).status@[j] == 1
                || exists|t: int| 0 <= t < final(queue)@.len() && (#[trigger] final(queue)@[t]).0 == j,
            final(self).out == old(self).out,
            forall|t: int| old(queue)@.len() <= t < final(queue)@.len() ==> old(self).status@[(#[trigger] final(queue)@[t]).0 as int] == 0,
            final(self).given == old(self).given,
            final(self).seen == old(self).seen,
            forall|t: int| old(queue)@.len() <= t < final(queue)@.len() ==> (#[trigger] final(queue)@[t]).1.bind == old(self).given@[final(queue)@[t].0 as int],
    {
        let mut p: usize = 0;
        while p < self.order.len()
            invariant
                self.scheduled(),
                self.queue_ok(queue@),
                p <= self.order@.len(),
                self.rules == old(self).rules,
                self.finished == old(self).finished,
                self.deps == old(self).deps,
                self.order == old(self).order,
                self.log == old(self).log,
                self.paths == old(self).paths,
                self.graph == old(self).graph,
                self.prepared@.len() == old(self).prepared@.len(),
                self.status@.len() == old(self).status@.len(),
                forall|x: int| 0 <= x < old(self).status@.len() ==> (#[trigger] self.status@[x] == 2) == (old(self).status@[x] == 2),
                forall|q: int| 0 <= q < p ==> self.status@[#[trigger] self.order@[q] as int] != 0 || self.remaining@[self.order@[q] as int] > 0,
                old(queue)@.is_prefix_of(queue@),
                forall|j: int| 0 <= j < old(self).rules@.len() && #[trigger] self.status@[j] == 1 ==> old(self).status@[j] == 1
                    || exists|t: int| 0 <= t < queue@.len() && (#[trigger] queue@[t]).0 == j,
                self.out == old(self).out,
                forall|x: int| 0 <= x < self.status@.len() && #[trigger] self.status@[x] == 0 ==> old(self).status@[x] == 0,
                forall|t: int| old(queue)@.len() <= t < queue@.len() ==> old(self).status@[(#[trigger] queue@[t]).0 as int] == 0,
                self.given == old(self).given,
                self.seen == old(self).seen,
                forall|t: int| old(queue)@.len() <= t < queue@.len() ==> (#[trigger] queue@[t]).1.bind == old(self).given@[queue@[t].0 as int],
            decreases self.order@.len() - p,
        {
            let i = self.order[p];
            if self.status[i] == 0 && self.remaining[i] == 0 {
                let ghost s0 = *self;
                let ghost q0 = queue@;
                proof {
                    lemma_pending_zero(self.deps@[i as int]@, self.status@);
                }
                let job = self.make_job(i);
                let ghost s1 = *self;
                self.status.set(i, 1);
                proof {
                    let st0 = s0.status@;
                    let st = self.status@;
                    assert forall|x: int| 0 <= x < st.len() implies (#[trigger] st[x] == 2) == (st0[x] == 2) by {}
                    assert forall|j: int| 0 <= j < self.rules@.len() && #[trigger] st[j] == 0 implies self.remaining@[j] == pending(self.deps@[j]@, st) by {
                        assert forall|k: int| 0 <= k < self.deps@[j]@.len() implies (st0[#[trigger] self.deps@[j]@[k] as int] == 2) == (st[self.deps@[j]@[k] as int] == 2) by {}
                        lemma_pending_same(self.deps@[j]@, st0, st);
                    }
                    assert(self.scheduled());
                    assert forall|t: int| 0 <= t < q0.len() implies (#[trigger] q0[t]).0 < self.rules@.len()
                        && self.status@[q0[t].0 as int] == 1 && self.fits_job(q0[t].0 as int, q0[t].1) by {
                        assert(s0.fits_job(q0[t].0 as int, q0[t].1));
                        assert(q0[t].0 != i);
                    }
                }
                queue.push((i, job));
                proof {
                    let q1 = queue@;
                    let st = self.status@;
                    assert(q1[q1.len() - 1] == (i, job));
                    assert forall|t: int| 0 <= t < q1.len() implies (#[trigger] q1[t]).0 < self.rules@.len()
                        && self.status@[q1[t].0 as int] == 1 && self.fits_job(q1[t].0 as int, q1[t].1) by {
                        if t < q0.len() {
                            assert(q1[t] == q0[t]);
                        }
                    }
                    assert forall|t: int, u: int| 0 <= t < q1.len() && 0 <= u < q1.len() && t != u implies (#[trigger] q1[t]).0 != (#[trigger] q1[u]).0 by {
                        if t < q0.len() && u < q0.len() {
                            assert(q1[t] == q0[t] && q1[u] == q0[u]);
                        } else if t < q0.len() {
                            assert(q1[t] == q0[t]);
                            assert(s0.status@[q0[t].0 as int] == 1);
                        } else if u < q0.len() {
                            assert(q1[u] == q0[u]);
                            assert(s0.status@[q0[u].0 as int] == 1);
                        }
                    }
                    assert forall|j: int| 0 <= j < old(self).rules@.len() && #[trigger] st[j] == 1 implies old(self).status@[j] == 1
                        || exists|t: int| 0 <= t < q1.len() && (#[trigger] q1[t]).0 == j by {
                        if j == i as int {
                            assert(q1[q1.len() - 1].0 == j);
                        } else {
                            assert(s0.status@[j] == 1);
                            if old(self).status@[j] != 1 {
                                let t = choose|t: int| 0 <= t < q0.len() && (#[trigger] q0[t]).0 == j;
                                assert(q1[t] == q0[t]);
                            }
                        }
                    }
                    assert forall|t: int| old(queue)@.len() <= t < q1.len() implies old(self).status@[(#[trigger] q1[t]).0 as int] == 0 by {
                        if t < q0.len() {
                            assert(q1[t] == q0[t]);
                        }
                    }
                    assert forall|t: int| old(queue)@.len() <= t < q1.len() implies (#[trigger] q1[t]).1.bind == old(self).given@[q1[t].0 as int] by {
                        if t < q0.len() {
                            assert(q1[t] == q0[t]);
                        }
                    }
                    assert(old(queue)@.is_prefix_of(q1)) by {
                        assert forall|t: int| 0 <= t < old(queue)@.len() implies old(queue)@[t] == q1[t] by {
                            assert(q0[t] == old(queue)@[t]);
                        }
                    }
                    assert(self.queue_ok(q1));
                }
            }
            p += 1;
        }
        proof {
            assert(self.rules.len() == self.rules@.len());
            assert forall|i: int| 0 <= i < self.rules@.len() && #[trigger] self.status@[i] == 0 implies self.remaining@[i] > 0 by {
                assert(self.order@.contains(i as usize));
                let q = choose|q: int| 0 <= q < self.order@.len() && self.order@[q] == i as usize;
                assert(self.status@[self.order@[q] as int] != 0 || self.remaining@[self.order@[q] as int] > 0);
            }
        }
    }
}

impl<H: Handle<Bind>> Manager<H> {
    /// One dependency fewer for each waiting rule that depends on the rule
    /// at `i`, which is now done.
    fn satisfy(&mut self, i: usize, Ghost(before): Ghost<Seq<u8>>)
        requires
            old(self).planned(),
            old(self).status@.len() == old(self).rules@.len(),
            old(self).remaining@.len() == old(self).rules@.len(),
            before.len() == old(self).rules@.len(),
            i < old(self).rules@.len(),
            before[i as int] != 2,
            old(self).status@ == before.update(i as int, 2),
            forall|j: int| 0 <= j < old(self).rules@.len() && #[trigger] before[j] == 0 ==> old(self).remaining@[j] == pending(old(self).deps@[j]@, before),
        ensures
            *final(self) == (Manager { remaining: final(self).remaining, ..*old(self) }),
            final(self).remaining@.len() == old(self).remaining@.len(),
            forall|j: int| 0 <= j < old(self).rules@.len() && #[trigger] old(self).status@[j] == 0 ==> final(self).remaining@[j] == pending(old(self).deps@[j]@, old(self).status@),
    {
        let mut j: usize = 0;
        while j < self.rules.len()
            invariant
                self.planned(),
                *self == (Manager { remaining: self.remaining, ..*old(self) }),
                self.remaining@.len() == self.rules@.len(),
                self.status@.len() == self.rules@.len(),
                before.len() == self.rules@.len(),
                i < self.rules@.len(),
                before[i as int] != 2,
                self.status@ == before.update(i as int, 2),
                j <= self.rules@.len(),
                forall|x: int| 0 <= x < j && #[trigger] self.status@[x] == 0 ==> self.remaining@[x] == pending(self.deps@[x]@, self.status@),
                forall|x: int| j <= x < self.rules@.len() && #[trigger] before[x] == 0 ==> self.remaining@[x] == pending(self.deps@[x]@, before),
            decreases self.rules@.len() - j,
        {
            if self.status[j] == 0 {
                proof {
                    assert(before[j as int] == 0);
                    assert forall|k: int| 0 <= k < self.deps@[j as int]@.len() implies #[trigger] self.deps@[j as int]@[k] < before.len() by {}
                    lemma_pending_done(self.deps@[j as int]@, before, i);
                }
                if holds(&self.deps[j], i) {
                    self.remaining.set(j, self.remaining[j] - 1);
                }
            }
            j += 1;
        }
    }

    /// Records the job of the rule at `i` as done: its bind, whole again
    /// and sharing the job's data, becomes the rule's finished bind, and
    /// each waiting rule that depends on it has one dependency fewer to
    /// wait for.
    fn handle_done(&mut self, i: usize, job: Job<H>)
        requires
            old(self).scheduled(),
            i < old(self).rules@.len(),
            old(self).status@[i as int] == 1,
            old(self).fits_job(i as int, job),
            job.bind is Some,
        ensures
            final(self).scheduled(),
            final(self).status@ == old(self).status@.update(i as int, 2),
            final(self).finished@.len() == old(self).finished@.len(),
            forall|x: int| 0 <= x < old(self).finished@.len() && x != i ==> #[trigger] final(self).finished@[x] == old(self).finished@[x],
            final(self).log@ == old(self).log@.push(i),
            final(self).rules == old(self).rules,
            final(self).deps == old(self).deps,
            final(self).order == old(self).order,
            final(self).paths == old(self).paths,
            final(self).graph == old(self).graph,
            final(self).prepared == old(self).prepared,
            forall|j: int, jb: Job<H>|
                0 <= j < old(self).rules@.len() && old(self).status@[j] == 1 && j != i && #[trigger] old(self).fits_job(j, jb) ==> final(self).fits_job(j, jb),
            final(self).out == old(self).out,
            final(self).remaining@.len() == old(self).remaining@.len(),
            final(self).given == old(self).given,
            final(self).seen == old(self).seen,
            final(self).finished@[i as int] is Some,
            settled_from(job.bind->Some_0, *final(self).finished@[i as int]->Some_0),
            final(self).finished@[i as int]->Some_0.shared().dependencies@ == job.bind_data.dependencies@,
    {
        let ghost s0 = *self;
        let ghost jb = job;
        let Job { bind_data, bind, .. } = job;
        match bind {
            Some(mut b) => {
                let ghost b0 = b;
                b.settle(Arc::new(bind_data));
                assert(whole(b));
                assert(settled_from(b0, b));
                self.finished.set(i, Some(Arc::new(b)));
            },
            None => {
                assert(false);
            },
        }
        self.status.set(i, 2);
        self.log = Ghost(self.log@.push(i));
        self.satisfy(i, Ghost(s0.status@));
        proof {
            let n = self.rules@.len();
            let st = self.status@;
            let st0 = s0.status@;
            let o = self.order@;
            let log = self.log@;
            assert(!s0.deps@[i as int]@.contains(i)) by {
                if s0.deps@[i as int]@.contains(i) {
                    let k = choose|k: int| 0 <= k < s0.deps@[i as int]@.len() && s0.deps@[i as int]@[k] == i;
                    assert(st0[s0.deps@[i as int]@[k] as int] == 2);
                }
            }
            assert forall|j: int, jb: Job<H>|
                0 <= j < n && st0[j] == 1 && j != i && #[trigger] s0.fits_job(j, jb) implies self.fits_job(j, jb) by {
                assert forall|k: int| 0 <= k < self.deps@[j]@.len() implies #[trigger] self.deps@[j]@[k] != i by {
                    assert(st0[self.deps@[j]@[k] as int] == 2);
                }
            }
            assert forall|t: int| 0 <= t < log.len() implies self.fits_snapshot(#[trigger] log[t] as int, self.finished@[log[t] as int]->Some_0.shared().dependencies@) by {
                if t < log.len() - 1 {
                    let x = log[t] as int;
                    assert(log[t] == s0.log@[t]);
                    assert(s0.fits_snapshot(x, s0.finished@[x]->Some_0.shared().dependencies@));
                    assert(x != i);
                    assert forall|k: int| 0 <= k < self.deps@[x]@.len() implies #[trigger] self.deps@[x]@[k] != i by {
                        assert(st0[self.deps@[x]@[k] as int] == 2);
                    }
                } else {
                    assert(log[t] == i);
                    assert forall|k: int| 0 <= k < self.deps@[i as int]@.len() implies #[trigger] self.deps@[i as int]@[k] != i by {
                        assert(st0[self.deps@[i as int]@[k] as int] == 2);
                    }
                }
            }
            assert forall|t: int, k: int|
                0 <= t < log.len() && 0 <= k < self.deps@[log[t] as int]@.len() && o.contains(#[trigger] self.deps@[log[t] as int]@[k])
                implies exists|u: int| 0 <= u < t && log[u] == self.deps@[log[t] as int]@[k] by {
                if t < log.len() - 1 {
                    assert(log[t] == s0.log@[t]);
                    let u = choose|u: int| 0 <= u < t && s0.log@[u] == self.deps@[log[t] as int]@[k];
                    assert(log[u] == s0.log@[u]);
                } else {
                    let d = self.deps@[i as int]@[k];
                    assert(st0[d as int] == 2);
                    let p = choose|p: int| 0 <= p < o.len() && o[p] == d;
                    assert(s0.log@.contains(o[p]));
                    let u = choose|u: int| 0 <= u < s0.log@.len() && s0.log@[u] == d;
                    assert(log[u] == d);
                }
            }
            assert forall|t: int| 0 <= t < log.len() implies whole(*self.finished@[#[trigger] log[t] as int]->Some_0) by {
                if t < log.len() - 1 {
                    assert(log[t] == s0.log@[t]);
                    assert(log[t] != i);
                }
            }
            assert forall|t: int, k: int|
                0 <= t < log.len() && 0 <= k < self.deps@[log[t] as int]@.len() implies st[#[trigger] self.deps@[log[t] as int]@[k] as int] == 2 by {
                if t < log.len() - 1 {
                    assert(log[t] == s0.log@[t]);
                }
            }
            assert(!s0.log@.contains(i)) by {
                if s0.log@.contains(i) {
                    let t = choose|t: int| 0 <= t < s0.log@.len() && s0.log@[t] == i;
                    assert(st0[s0.log@[t] as int] == 2);
                }
            }
            assert forall|t: int| 0 <= t < log.len() implies #[trigger] log[t] < n && st[log[t] as int] == 2 && o.contains(log[t]) by {
                if t < log.len() - 1 {
                    assert(log[t] == s0.log@[t]);
                } else {
                    assert(st0[i as int] != 2);
                }
            }
            assert forall|p: int| 0 <= p < o.len() && #[trigger] st[o[p] as int] == 2 implies log.contains(o[p]) by {
                if o[p] == i {
                    assert(log[log.len() - 1] == i);
                } else {
                    assert(st0[o[p] as int] == 2);
                    let t = choose|t: int| 0 <= t < s0.log@.len() && s0.log@[t] == o[p];
                    assert(log[t] == o[p]);
                }
            }
            assert forall|x: int, k: int|
                0 <= x < n && st[x] == 1 && 0 <= k < self.deps@[x]@.len() implies st[#[trigger] self.deps@[x]@[k] as int] == 2 by {
                assert(st0[x] == 1);
            }
            assert(self.scheduled());
        }
    }
}


impl<H: Handle<Bind>> Manager<H> {
    /// Sets up a run of the rules in `order`: each of them waits for its
    /// dependencies in `order`; every other rule counts as done. A full
    /// build runs every rule, so each count is the rule's dependency count;
    /// an update runs the affected rules, so their dependencies outside it,
    /// whose finished binds stay valid, count as satisfied.
    fn sort_jobs(&mut self, order: Vec<usize>)
        requires
            old(self).planned(),
            order@.no_duplicates(),
            forall|p: int| 0 <= p < order@.len() ==> #[trigger] order@[p] < old(self).rules@.len(),
            forall|p: int, q: int|
                0 <= p < order@.len() && 0 <= q < order@.len() && #[trigger] old(self).deps@[order@[q] as int]@.contains(#[trigger] order@[p]) ==> p < q,
            forall|x: int| 0 <= x < old(self).rules@.len() && !order@.contains(x as usize) ==> (#[trigger] old(self).finished@[x]) is Some,
        ensures
            final(self).scheduled(),
            final(self).rules == old(self).rules,
            final(self).finished == old(self).finished,
            final(self).deps == old(self).deps,
            final(self).paths == old(self).paths,
            final(self).graph == old(self).graph,
            final(self).prepared == old(self).prepared,
            final(self).order@ == order@,
            final(self).log@ == Seq::<usize>::empty(),
            final(self).given@ == old(self).prepared@,
            final(self).seen == old(self).seen,
            final(self).out == old(self).out,
            forall|x: int| 0 <= x < old(self).rules@.len() ==> (#[trigger] final(self).status@[x] == 2) == !order@.contains(x as usize),
            forall|x: int| 0 <= x < old(self).rules@.len() ==> #[trigger] final(self).status@[x] != 1,
            final(self).status@.len() == old(self).rules@.len(),
            forall|x: int|
                0 <= x < old(self).rules@.len() ==> #[trigger] final(self).remaining@[x] == pending(final(self).deps@[x]@, final(self).status@),
    {
        let n = self.rules.len();
        let mut status: Vec<u8> = Vec::new();
        let mut j: usize = 0;
        while j < n
            invariant
                n == self.rules@.len(),
                j <= n,
                status@.len() == j,
                forall|x: int| 0 <= x < j ==> (#[trigger] status@[x] == 0) == order@.contains(x as usize),
                forall|x: int| 0 <= x < j ==> #[trigger] status@[x] == 0 || status@[x] == 2,
            decreases n - j,
        {
            if holds(&order, j) {
                status.push(0);
            } else {
                status.push(2);
            }
            j += 1;
        }
        let mut remaining: Vec<usize> = Vec::new();
        let mut j: usize = 0;
        while j < n
            invariant
                self.planned(),
                n == self.rules@.len(),
                status@.len() == n,
                j <= n,
                remaining@.len() == j,
                forall|x: int| 0 <= x < j ==> #[trigger] remaining@[x] == pending(self.deps@[x]@, status@),
            decreases n - j,
        {
            let ds = &self.deps[j];
            let mut c: usize = 0;
            let mut k: usize = 0;
            while k < ds.len()
                invariant
                    self.planned(),
                    j < n,
                    n == self.rules@.len(),
                    status@.len() == n,
                    ds == self.deps@[j as int],
                    k <= ds@.len(),
                    c <= k,
                    c == pending(ds@.take(k as int), status@),
                decreases ds@.len() - k,
            {
                assert(ds@.take(k + 1).drop_last() =~= ds@.take(k as int));
                if status[ds[k]] != 2 {
                    c += 1;
                }
                k += 1;
            }
            assert(ds@.take(k as int) =~= ds@);
            remaining.push(c);
            j += 1;
        }
        self.status = status;
        self.remaining = remaining;
        self.order = order;
        self.log = Ghost(Seq::empty());
        self.given = Ghost(self.prepared@);
        proof {
            let st = self.status@;
            let o = self.order@;
            assert forall|x: int| 0 <= x < n implies (#[trigger] st[x] == 2) == !o.contains(x as usize) by {}
            assert forall|p: int, k: int|
                0 <= p < o.len() && 0 <= k < self.deps@[o[p] as int]@.len() implies st[#[trigger] self.deps@[o[p] as int]@[k] as int] == 2
                    || o.contains(self.deps@[o[p] as int]@[k]) by {
                let d = self.deps@[o[p] as int]@[k];
                assert(d < n);
            }
            assert(self.scheduled());
        }
    }

    /// With nothing dispatched and no waiting rule ready, the first `p`
    /// rules of the run are done.
    proof fn lemma_done_prefix(&self, p: int)
        requires
            self.scheduled(),
            self.settled(),
            forall|x: int| 0 <= x < self.rules@.len() ==> #[trigger] self.status@[x] != 1,
            0 <= p <= self.order@.len(),
        ensures
            forall|q: int| 0 <= q < p ==> self.status@[#[trigger] self.order@[q] as int] == 2,
        decreases p,
    {
        if p > 0 {
            self.lemma_done_prefix(p - 1);
            let o = self.order@;
            let st = self.status@;
            let i = o[p - 1] as int;
            let ds = self.deps@[i]@;
            assert forall|k: int| 0 <= k < ds.len() implies st[#[trigger] ds[k] as int] == 2 by {
                if st[ds[k] as int] != 2 {
                    assert(o.contains(ds[k]));
                    let q = choose|q: int| 0 <= q < o.len() && o[q] == ds[k];
                    assert(self.deps@[o[p - 1] as int]@.contains(o[q]));
                }
            }
            lemma_pending_zero(ds, st);
        }
    }

    /// With nothing dispatched and no waiting rule ready, every rule of the
    /// run is done.
    proof fn lemma_all_done(&self)
        requires
            self.scheduled(),
            self.settled(),
            forall|x: int| 0 <= x < self.rules@.len() ==> #[trigger] self.status@[x] != 1,
        ensures
            forall|p: int| 0 <= p < self.order@.len() ==> self.status@[#[trigger] self.order@[p] as int] == 2,
    {
        self.lemma_done_prefix(self.order@.len() as int);
    }

    /// Runs the jobs of the run one at a time, each as soon as its
    /// dependencies are done, and stops at the first handler that fails.
    fn run_jobs(&mut self) -> (r: Result<(), BuildError>)
        requires
            old(self).scheduled(),
            forall|x: int| 0 <= x < old(self).rules@.len() ==> #[trigger] old(self).status@[x] != 1,
        ensures
            final(self).scheduled(),
            final(self).rules == old(self).rules,
            final(self).deps == old(self).deps,
            final(self).order == old(self).order,
            final(self).paths == old(self).paths,
            final(self).graph == old(self).graph,
            final(self).finished@.len() == old(self).finished@.len(),
            forall|x: int| 0 <= x < old(self).rules@.len() && !old(self).order@.contains(x as usize) ==> #[trigger] final(self).finished@[x] == old(self).finished@[x],
            old(self).log@.is_prefix_of(final(self).log@),
            r is Ok ==> forall|p: int| 0 <= p < final(self).order@.len() ==> final(self).status@[#[trigger] final(self).order@[p] as int] == 2,
            r matches Err(e) ==> e is Failed,
            old(self).handlers_succeed() ==> r is Ok,
            final(self).given == old(self).given,
            forall|t: int|
                old(self).log@.len() <= t < final(self).log@.len() ==> final(self).logged_ok(#[trigger] final(self).log@[t]),
            final(self).paths == old(self).paths,
    {
        let mut queue: Vec<(usize, Job<H>)> = Vec::new();
        proof {
            assert(self.queue_ok(queue@));
        }
        self.enqueue_ready(&mut queue);
        proof {
            assert forall|j: int| 0 <= j < self.rules@.len() && #[trigger] self.status@[j] == 1 implies exists|t: int| 0 <= t < queue@.len() && (#[trigger] queue@[t]).0 == j by {}
        }
        while queue.len() > 0
            invariant
                self.scheduled(),
                self.settled(),
                self.queue_ok(queue@),
                self.queue_covers(queue@),
                self.rules == old(self).rules,
                self.deps == old(self).deps,
                self.order == old(self).order,
                self.paths == old(self).paths,
                self.graph == old(self).graph,
                self.finished@.len() == old(self).finished@.len(),
                forall|x: int| 0 <= x < old(self).rules@.len() && !old(self).order@.contains(x as usize) ==> #[trigger] self.finished@[x] == old(self).finished@[x],
                old(self).log@.is_prefix_of(self.log@),
                self.given == old(self).given,
                forall|t: int| 0 <= t < queue@.len() ==> (#[trigger] queue@[t]).1.bind == self.given@[queue@[t].0 as int],
                forall|t: int|
                    old(self).log@.len() <= t < self.log@.len() ==> self.logged_ok(#[trigger] self.log@[t]),
            decreases unfinished(self.status@),
        {
            let ghost q0 = queue@;
            let ghost s0 = *self;
            let entry = queue.pop();
            match entry {
                Some((i, mut job)) => {
                    assert(q0[q0.len() - 1] == (i, job));
                    let ghost j0 = job;
                    let res = job.process();
                    let ghost rg = res;
                    match res {
                        Err(e) => {
                            proof {
                                if old(self).handlers_succeed() {
                                    assert(self.fits_job(i as int, j0));
                                    let st = choose|st: Bind| #[trigger] j0.handler.outcome(st, job.bind->Some_0, rg)
                                        && st.shared().name == j0.bind_data.name;
                                    assert(self.spec_rules()[i as int].spec_handler().outcome(st, job.bind->Some_0, rg));
                                    assert(self.spec_rules() == old(self).spec_rules());
                                    assert(old(self).spec_rules()[i as int].spec_handler().outcome(st, job.bind->Some_0, rg));
                                    assert(rg is Ok);
                                }
                            }
                            return Err(BuildError::Failed { rule: self.rules[i].name().clone(), error: e });
                        },
                        Ok(()) => {},
                    }
                    assert(self.fits_job(i as int, job));
                    let ghost st = choose|st: Bind| #[trigger] j0.handler.outcome(st, job.bind->Some_0, rg)
                        && (j0.bind matches Some(b) ==> kept(b, st)) && st.shared().dependencies@ == j0.bind_data.dependencies@
                        && (j0.bind is None ==> crate::job::routes(st.contents()) == crate::job::matched_routes(*j0.kind, j0.paths@));
                    let ghost ja = job;
                    proof {
                        assert(self.fits_job(i as int, j0));
                        assert(j0.bind == self.given@[i as int]);
                        assert(self.spec_rules()[i as int].spec_handler().outcome(st, job.bind->Some_0, rg));
                        assert(!self.log@.contains(i)) by {
                            if self.log@.contains(i) {
                                let t = choose|t: int| 0 <= t < self.log@.len() && self.log@[t] == i;
                                assert(self.status@[self.log@[t] as int] == 2);
                            }
                        }
                    }
                    self.seen = Ghost(self.seen@.insert(i, st));
                    let ghost s3 = *self;
                    self.handle_done(i, job);
                    proof {
                        lemma_unfinished_done(s0.status@, i as int);
                        let q1 = queue@;
                        assert forall|t: int| 0 <= t < q1.len() implies (#[trigger] q1[t]).0 < self.rules@.len()
                            && self.status@[q1[t].0 as int] == 1 && self.fits_job(q1[t].0 as int, q1[t].1) by {
                            assert(q1[t] == q0[t]);
                            assert(q0[t].0 != i);
                            assert(s0.fits_job(q0[t].0 as int, q0[t].1));
                        }
                        assert forall|t: int, u: int| 0 <= t < q1.len() && 0 <= u < q1.len() && t != u implies (#[trigger] q1[t]).0 != (#[trigger] q1[u]).0 by {
                            assert(q1[t] == q0[t] && q1[u] == q0[u]);
                        }
                        assert forall|j: int| 0 <= j < self.rules@.len() && #[trigger] self.status@[j] == 1 implies exists|t: int| 0 <= t < q1.len() && (#[trigger] q1[t]).0 == j by {
                            assert(s0.status@[j] == 1);
                            let t = choose|t: int| 0 <= t < q0.len() && (#[trigger] q0[t]).0 == j;
                            assert(t != q0.len() - 1);
                            assert(q1[t] == q0[t]);
                        }
                        assert(self.queue_ok(q1));
                        assert(self.queue_covers(q1));
                        assert forall|x: int| 0 <= x < old(self).rules@.len() && !old(self).order@.contains(x as usize) implies #[trigger] self.finished@[x] == old(self).finished@[x] by {
                            assert(s0.status@[x] == 2) by {
                                if s0.status@[x] != 2 {
                                    assert(s0.order@.contains(x as usize));
                                }
                            }
                        }
                        assert forall|t: int|
                            old(self).log@.len() <= t < self.log@.len() implies self.logged_ok(#[trigger] self.log@[t]) by {
                            if t < self.log@.len() - 1 {
                                assert(self.log@[t] == s0.log@[t]);
                                assert(self.log@[t] != i);
                                assert(s0.logged_ok(self.log@[t]));
                                let x = self.log@[t] as int;
                                assert(self.finished@[x] == s0.finished@[x]);
                                let (a, res) = choose|a: Bind, res: crate::handle::Result| res is Ok
                                    && #[trigger] s0.spec_rules()[x].spec_handler().outcome(s0.seen@[self.log@[t]], a, res)
                                    && settled_from(a, *s0.spec_finished()[x]->Some_0);
                                assert(self.spec_rules()[x].spec_handler().outcome(self.seen@[self.log@[t]], a, res));
                            } else {
                                assert(self.log@[t] == i);
                                assert(self.spec_rules()[i as int].spec_handler().outcome(self.seen@[i], ja.bind->Some_0, rg));
                                assert(settled_from(ja.bind->Some_0, *self.spec_finished()[i as int]->Some_0));
                            }
                        }
                        assert forall|t: int| 0 <= t < q1.len() implies (#[trigger] q1[t]).1.bind == self.given@[q1[t].0 as int] by {
                            assert(q1[t] == q0[t]);
                        }
                        assert(old(self).log@.is_prefix_of(self.log@)) by {
                            assert(old(self).log@.is_prefix_of(s0.log@));
                        }
                    }
                    let ghost s1 = *self;
                    let ghost q1 = queue@;
                    self.enqueue_ready(&mut queue);
                    proof {
                        assert forall|t: int| 0 <= t < queue@.len() implies (#[trigger] queue@[t]).1.bind == self.given@[queue@[t].0 as int] by {
                            if t < q1.len() {
                                assert(queue@[t] == q1[t]);
                            }
                        }
                        assert forall|t: int|
                            old(self).log@.len() <= t < self.log@.len() implies self.logged_ok(#[trigger] self.log@[t]) by {
                            let x = self.log@[t] as int;
                            assert(s1.log@[t] == self.log@[t]);
                            assert(s1.logged_ok(self.log@[t]));
                            let (a, res) = choose|a: Bind, res: crate::handle::Result| res is Ok
                                && #[trigger] s1.spec_rules()[x].spec_handler().outcome(s1.seen@[self.log@[t]], a, res)
                                && settled_from(a, *s1.spec_finished()[x]->Some_0);
                            assert(self.spec_rules()[x].spec_handler().outcome(self.seen@[self.log@[t]], a, res));
                        }
                        lemma_unfinished_same(s1.status@, self.status@);
                        assert forall|j: int| 0 <= j < self.rules@.len() && #[trigger] self.status@[j] == 1 implies exists|t: int| 0 <= t < queue@.len() && (#[trigger] queue@[t]).0 == j by {
                            if s1.status@[j] == 1 {
                                let t = choose|t: int| 0 <= t < q1.len() && (#[trigger] q1[t]).0 == j;
                                assert(queue@[t] == q1[t]);
                            }
                        }
                    }
                },
                None => {
                    assert(false);
                },
            }
        }
        proof {
            assert forall|x: int| 0 <= x < self.rules@.len() implies #[trigger] self.status@[x] != 1 by {
                if self.status@[x] == 1 {
                    let t = choose|t: int| 0 <= t < queue@.len() && (#[trigger] queue@[t]).0 == x;
                }
            }
            self.lemma_all_done();
        }
        Ok(())
    }
}

proof fn lemma_lookup_unique(entries: Seq<(String, Arc<Bind>)>, k: int, x: Seq<char>)
    requires
        0 <= k < entries.len(),
        entries[k].0@ == x,
        forall|m: int| 0 <= m < entries.len() && m != k ==> (#[trigger] entries[m]).0@ != x,
    ensures
        lookup(entries, x) == Some(entries[k].1),
    decreases entries.len(),
{
    if k > 0 {
        let rest = entries.drop_first();
        assert(entries[0].0@ != x);
        assert forall|m: int| 0 <= m < rest.len() && m != k - 1 implies (#[trigger] rest[m]).0@ != x by {
            assert(rest[m] == entries[m + 1]);
        }
        lemma_lookup_unique(rest, k - 1, x);
    }
}

impl<H> Manager<H> {
    /// The bind that each rule's handler got in the last run.
    pub closed spec fn spec_seen(&self) -> Map<usize, Bind> {
        self.seen@
    }

    /// What was prepared for each rule before the last run.
    closed spec fn spec_given(&self) -> Seq<Option<Bind>> {
        self.given@
    }

    /// The rules whose jobs the last run completed, in the order they
    /// completed.
    pub closed spec fn spec_log(&self) -> Seq<usize> {
        self.log@
    }

    /// `c` names, rule by rule, the positions `ids`.
    pub open spec fn names_along(&self, c: Seq<String>, ids: Seq<u64>) -> bool {
        &&& c.len() == ids.len()
        &&& forall|k: int| 0 <= k < c.len() ==> (#[trigger] c[k])@ == self.spec_rules()[ids[k] as int].spec_name()
    }

    /// Each rule of `done` sees, under the name of each of its
    /// dependencies, that dependency's finished bind.
    pub open spec fn sees_dependencies(&self, done: Set<usize>) -> bool {
        &&& forall|i: int, j: int|
            done.contains(i as usize) && #[trigger] self.depends(i, j) ==> self.spec_finished()[i] is Some && lookup(
                self.spec_finished()[i]->Some_0.shared().dependencies@,
                self.spec_rules()[j].spec_name(),
            ) == self.spec_finished()[j]
        &&& forall|i: int, k: int|
            0 <= i < self.spec_rules().len() && done.contains(i as usize) && self.spec_finished()[i] is Some && 0 <= k
                < self.spec_finished()[i]->Some_0.shared().dependencies@.len() ==> #[trigger] self.names_a_dependency(i, k)
    }

    /// Entry `k` of the dependencies that the finished bind of the rule at
    /// `i` shares names a dependency of that rule.
    pub open spec fn names_a_dependency(&self, i: int, k: int) -> bool {
        exists|j: int|
            #[trigger] self.depends(i, j) && self.spec_finished()[i]->Some_0.shared().dependencies@[k].0@
                == self.spec_rules()[j].spec_name()
    }

    /// Each rule of `scope` has a finished bind, and it is whole.
    pub open spec fn finished_whole(&self, scope: Set<usize>) -> bool {
        forall|i: int|
            0 <= i < self.spec_rules().len() && scope.contains(i as usize) ==> (#[trigger] self.spec_finished()[i]) is Some
                && whole(*self.spec_finished()[i]->Some_0)
    }

    /// The last run completed each rule of `scope` exactly once, each after
    /// the rules of `scope` that it depends on.
    pub open spec fn ran_each_once(&self, scope: Set<usize>) -> bool {
        &&& self.spec_log().no_duplicates()
        &&& forall|x: usize| #[trigger] self.spec_log().contains(x) <==> scope.contains(x)
        &&& forall|t: int, u: int|
            0 <= t < self.spec_log().len() && 0 <= u < self.spec_log().len() && #[trigger] self.depends(
                self.spec_log()[u] as int,
                self.spec_log()[t] as int,
            ) ==> t < u
    }

    /// What a completed run of `order` leaves: each rule of the run ran
    /// once, after its dependencies, and sees their finished binds.
    proof fn lemma_run_complete(&self)
        requires
            self.scheduled(),
            forall|p: int| 0 <= p < self.order@.len() ==> self.status@[#[trigger] self.order@[p] as int] == 2,
        ensures
            self.ran_each_once(self.order@.to_set()),
            self.sees_dependencies(self.order@.to_set()),
            self.finished_whole(self.order@.to_set()),
    {
        let log = self.log@;
        let o = self.order@;
        let n = self.rules@.len();
        assert forall|x: usize| #[trigger] log.contains(x) <==> o.to_set().contains(x) by {
            if o.contains(x) {
                let p = choose|p: int| 0 <= p < o.len() && o[p] == x;
                assert(self.status@[o[p] as int] == 2);
            }
            if log.contains(x) {
                let t = choose|t: int| 0 <= t < log.len() && log[t] == x;
                assert(o.contains(log[t]));
            }
        }
        assert forall|t: int, u: int|
            0 <= t < log.len() && 0 <= u < log.len() && #[trigger] self.depends(log[u] as int, log[t] as int) implies t < u by {
            let i = log[u] as int;
            let j = log[t] as int;
            assert(self.deps@[i]@.contains(j as usize));
            let k = choose|k: int| 0 <= k < self.deps@[i]@.len() && self.deps@[i]@[k] == j as usize;
            assert(o.contains(log[t]));
            assert(o.contains(self.deps@[log[u] as int]@[k]));
            let w = choose|w: int| 0 <= w < u && log[w] == self.deps@[log[u] as int]@[k];
            assert(log[w] == log[t]);
        }
        assert forall|i: int, j: int| o.to_set().contains(i as usize) && #[trigger] self.depends(i, j) implies self.spec_finished()[i] is Some
            && lookup(self.spec_finished()[i]->Some_0.shared().dependencies@, self.spec_rules()[j].spec_name()) == self.spec_finished()[j] by {
            assert(o.contains(i as usize));
            let p = choose|p: int| 0 <= p < o.len() && o[p] == i as usize;
            assert(self.status@[o[p] as int] == 2);
            assert(log.contains(o[p]));
            let t = choose|t: int| 0 <= t < log.len() && log[t] == o[p];
            let entries = self.finished@[i]->Some_0.shared().dependencies@;
            assert(self.fits_snapshot(log[t] as int, self.finished@[log[t] as int]->Some_0.shared().dependencies@));
            let ds = self.deps@[i]@;
            assert(ds.contains(j as usize));
            let k = choose|k: int| 0 <= k < ds.len() && ds[k] == j as usize;
            assert(entries[k].0@ == self.rules@[j].spec_name());
            assert forall|m: int| 0 <= m < entries.len() && m != k implies (#[trigger] entries[m]).0@ != self.rules@[j].spec_name() by {
                assert(ds[m] != ds[k]);
                assert(entries[m].0@ == self.rules@[ds[m] as int].spec_name());
            }
            lemma_lookup_unique(entries, k, self.rules@[j].spec_name());
        }
        assert forall|i: int, k: int|
            0 <= i < self.spec_rules().len() && o.to_set().contains(i as usize) && self.spec_finished()[i] is Some && 0 <= k
                < self.spec_finished()[i]->Some_0.shared().dependencies@.len() implies #[trigger] self.names_a_dependency(i, k) by {
            assert(o.contains(i as usize));
            let p = choose|p: int| 0 <= p < o.len() && o[p] == i as usize;
            assert(self.status@[o[p] as int] == 2);
            assert(log.contains(o[p]));
            let t = choose|t: int| 0 <= t < log.len() && log[t] == o[p];
            assert(self.fits_snapshot(log[t] as int, self.finished@[log[t] as int]->Some_0.shared().dependencies@));
            assert(log[t] as int == i);
            let entries = self.finished@[i]->Some_0.shared().dependencies@;
            assert(entries.len() == self.deps@[i]@.len());
            let d = self.deps@[i]@[k];
            assert(d < self.rules@.len());
            assert(self.deps@[i]@.contains((d as int) as usize));
            assert(self.depends(i, d as int));
            assert(entries[k].0@ == self.rules@[d as int].spec_name());
        }
        assert forall|i: int| 0 <= i < self.spec_rules().len() && o.to_set().contains(i as usize) implies (#[trigger] self.spec_finished()[i]) is Some
            && whole(*self.spec_finished()[i]->Some_0) by {
            assert(o.contains(i as usize));
            let p = choose|p: int| 0 <= p < o.len() && o[p] == i as usize;
            assert(self.status@[o[p] as int] == 2);
            assert(log.contains(o[p]));
            let t = choose|t: int| 0 <= t < log.len() && log[t] == o[p];
        }
    }
}

impl<H: Handle<Bind>> Manager<H> {
    /// The names of the rules at `ids`.
    fn names_of(&self, ids: &Vec<u64>) -> (r: Vec<String>)
        requires
            self.wf(),
            forall|k: int| 0 <= k < ids@.len() ==> #[trigger] ids@[k] < self.rules@.len(),
        ensures
            self.names_along(r@, ids@),
    {
        let mut r: Vec<String> = Vec::new();
        let mut k: usize = 0;
        while k < ids.len()
            invariant
                self.wf(),
                forall|m: int| 0 <= m < ids@.len() ==> #[trigger] ids@[m] < self.rules@.len(),
                k <= ids@.len(),
                r@.len() == k,
                forall|m: int| 0 <= m < k ==> (#[trigger] r@[m])@ == self.spec_rules()[ids@[m] as int].spec_name(),
            decreases ids@.len() - k,
        {
            r.push(self.rules[ids[k] as usize].name().clone());
            k += 1;
        }
        r
    }

    /// A topological order over the rule positions of the graph, as positions.
    fn positions_of(&self, order: &Vec<u64>) -> (r: Vec<usize>)
        requires
            self.planned(),
            self.dependency_graph().is_topological(order@),
            forall|v: u64| #[trigger] order@.contains(v) ==> self.dependency_graph().nodes.contains(v),
        ensures
            r@.len() == order@.len(),
            forall|p: int| 0 <= p < r@.len() ==> #[trigger] r@[p] as int == order@[p] as int,
            r@.no_duplicates(),
            forall|p: int| 0 <= p < r@.len() ==> #[trigger] r@[p] < self.rules@.len(),
            forall|p: int, q: int|
                0 <= p < r@.len() && 0 <= q < r@.len() && #[trigger] self.deps@[r@[q] as int]@.contains(#[trigger] r@[p]) ==> p < q,
    {
        let mut r: Vec<usize> = Vec::new();
        let mut k: usize = 0;
        while k < order.len()
            invariant
                self.planned(),
                forall|v: u64| #[trigger] order@.contains(v) ==> self.dependency_graph().nodes.contains(v),
                k <= order@.len(),
                r@.len() == k,
                forall|p: int| 0 <= p < k ==> #[trigger] r@[p] as int == order@[p] as int,
                forall|p: int| 0 <= p < k ==> #[trigger] r@[p] < self.rules@.len(),
            decreases order@.len() - k,
        {
            assert(order@.contains(order@[k as int]));
            r.push(order[k] as usize);
            k += 1;
        }
        proof {
            let g = self.dependency_graph();
            assert forall|p: int, q: int| 0 <= p < r@.len() && 0 <= q < r@.len() && p != q implies r@[p] != r@[q] by {
                assert(order@[p] != order@[q]);
            }
            assert forall|p: int, q: int|
                0 <= p < r@.len() && 0 <= q < r@.len() && #[trigger] self.deps@[r@[q] as int]@.contains(#[trigger] r@[p]) implies p < q by {
                assert(self.deps@[r@[q] as int]@.contains((r@[p] as int) as usize));
                assert(self.depends(r@[q] as int, r@[p] as int));
                assert(g.edges.contains((order@[p], order@[q])));
            }
        }
        r
    }

    /// Plans a run of every rule: resolves the dependency graph and sets
    /// every rule waiting for its dependencies.
    fn prepare_full(&mut self) -> (r: Result<(), BuildError>)
        requires
            old(self).wf(),
        ensures
            final(self).wf(),
            final(self).spec_rules() == old(self).spec_rules(),
            final(self).rules == old(self).rules,
            (r matches Err(BuildError::MissingDependency { .. })) <==> !old(self).dependencies_known(),
            (r matches Err(BuildError::Cycle(_))) <==> old(self).dependencies_known() && old(self).dependency_graph().has_cycle(),
            r matches Err(BuildError::Cycle(c)) ==> exists|ids: Seq<u64>|
                #[trigger] old(self).dependency_graph().is_cycle(ids) && old(self).names_along(c@, ids),
            !(r matches Err(BuildError::NotBuilt { .. })),
            !(r matches Err(BuildError::NotDispatched { .. })),
            !(r matches Err(BuildError::Failed { .. })),
            r is Ok ==> final(self).scheduled(),
            r is Ok ==> final(self).order@.to_set() == Set::new(|x: usize| x < old(self).spec_rules().len()),
            r is Ok ==> forall|x: int| 0 <= x < final(self).rules@.len() ==> #[trigger] final(self).status@[x] != 1,
            r is Ok ==> final(self).out@.len() == final(self).rules@.len(),
            r is Err ==> final(self).finished == old(self).finished && final(self).log == old(self).log,
            r is Ok ==> forall|x: int| 0 <= x < final(self).rules@.len() ==> #[trigger] final(self).status@[x] == 0,
            r is Ok ==> final(self).log@ == Seq::<usize>::empty(),
            r is Ok ==> forall|x: int| 0 <= x < final(self).rules@.len() ==> #[trigger] final(self).given@[x] is None,
            final(self).paths == old(self).paths,
    {
        match self.plan() {
            Err(e) => {
                return Err(e);
            },
            Ok(()) => {},
        }
        let g = self.build_graph();
        self.graph = g;
        proof {
            assert(self.spec_rules() == old(self).spec_rules());
            assert(self.graph.view().nodes =~= old(self).dependency_graph().nodes);
            assert(self.graph.view().edges =~= old(self).dependency_graph().edges);
            assert(self.graph.view() == old(self).dependency_graph());
            assert(self.dependency_graph().nodes =~= old(self).dependency_graph().nodes);
            assert(self.dependency_graph().edges =~= old(self).dependency_graph().edges);
            assert(self.dependency_graph() == old(self).dependency_graph());
        }
        match self.graph.resolve() {
            Err(ids) => {
                proof {
                    assert forall|k: int| 0 <= k < ids@.len() implies #[trigger] ids@[k] < self.rules@.len() by {
                        if k < ids@.len() - 1 {
                            assert(self.dependency_graph().edges.contains((ids@[k], ids@[k + 1])));
                        } else {
                            let z = 0int;
                            assert(self.dependency_graph().edges.contains((ids@[z], ids@[z + 1])));
                        }
                    }
                }
                let names = self.names_of(&ids);
                Err(BuildError::Cycle(names))
            },
            Ok(order) => {
                let ghost n = self.rules@.len();
                let ord = self.positions_of(&order);
                proof {
                    assert forall|x: int| 0 <= x < n && !ord@.contains(x as usize) implies (#[trigger] self.finished@[x]) is Some by {
                        assert(self.dependency_graph().nodes.contains(x as u64));
                        assert(order@.to_set().contains(x as u64));
                        let p = choose|p: int| 0 <= p < order@.len() && order@[p] == x as u64;
                        assert(ord@[p] as int == x);
                    }
                }
                let ghost sb = *self;
                let mut k: usize = 0;
                while k < self.rules.len()
                    invariant
                        *self == (Manager { prepared: self.prepared, ..sb }),
                        self.prepared@.len() == n,
                        n == self.rules@.len(),
                        k <= n,
                        forall|m: int| 0 <= m < k ==> #[trigger] self.prepared@[m] is None,
                    decreases n - k,
                {
                    self.prepared.set(k, None);
                    k += 1;
                }
                proof {
                    assert(self.planned());
                }
                self.sort_jobs(ord);
                let mut out: Vec<Option<Data>> = Vec::new();
                let mut k: usize = 0;
                while k < self.rules.len()
                    invariant
                        k <= self.rules@.len(),
                        out@.len() == k,
                    decreases self.rules@.len() - k,
                {
                    out.push(None);
                    k += 1;
                }
                self.out = out;
                proof {
                    let all = Set::new(|x: usize| x < n);
                    assert forall|x: usize| #[trigger] self.order@.to_set().contains(x) <==> all.contains(x) by {
                        if x < n {
                            assert(self.dependency_graph().nodes.contains(x as u64));
                            assert(order@.to_set().contains(x as u64));
                            let p = choose|p: int| 0 <= p < order@.len() && order@[p] == x as u64;
                            assert(self.order@[p] == x);
                        }
                        if self.order@.to_set().contains(x) {
                            let p = choose|p: int| 0 <= p < self.order@.len() && self.order@[p] == x;
                        }
                    }
                    assert(self.order@.to_set() =~= all);
                    assert(self.scheduled());
                    assert forall|x: int| 0 <= x < self.rules@.len() implies #[trigger] self.status@[x] == 0 by {
                        assert(all.contains(x as usize));
                        assert(self.order@.contains(x as usize));
                    }
                }
                Ok(())
            },
        }
    }

    /// Runs every rule once, each after the rules it depends on, each
    /// handler seeing the finished binds of its dependencies.
    #[verifier::spinoff_prover]
    pub fn build(&mut self) -> (r: Result<(), BuildError>)
        requires
            old(self).wf(),
        ensures
            final(self).wf(),
            final(self).spec_rules() == old(self).spec_rules(),
            (r matches Err(BuildError::MissingDependency { .. })) <==> !old(self).dependencies_known(),
            (r matches Err(BuildError::Cycle(_))) <==> old(self).dependencies_known() && old(self).dependency_graph().has_cycle(),
            r matches Err(BuildError::Cycle(c)) ==> exists|ids: Seq<u64>|
                #[trigger] old(self).dependency_graph().is_cycle(ids) && old(self).names_along(c@, ids),
            !(r matches Err(BuildError::NotBuilt { .. })),
            !(r matches Err(BuildError::NotDispatched { .. })),
            r is Ok ==> final(self).ran_each_once(Set::new(|x: usize| x < old(self).spec_rules().len())),
            r is Ok ==> forall|i: int| 0 <= i < final(self).spec_rules().len() ==> (#[trigger] final(self).spec_finished()[i]) is Some,
            r is Ok ==> final(self).sees_dependencies(Set::new(|x: usize| x < old(self).spec_rules().len())),
            r is Ok ==> final(self).finished_whole(Set::new(|x: usize| x < old(self).spec_rules().len())),
            r is Ok ==> final(self).handlers_ran(old(self).spec_rules().len()),
            old(self).dependencies_known() && !old(self).dependency_graph().has_cycle() && old(self).handlers_succeed() ==> r is Ok,
            (r matches Err(BuildError::MissingDependency { .. })) || (r matches Err(BuildError::Cycle(_)))
                ==> final(self).spec_finished() == old(self).spec_finished() && final(self).spec_log() == old(self).spec_log(),
            old(self).spec_rules().len() == 0 ==> r is Ok && final(self).spec_finished() == old(self).spec_finished(),
    {
        proof {
            if old(self).spec_rules().len() == 0 {
                let g = old(self).dependency_graph();
                if g.has_cycle() {
                    let c = choose|c: Seq<u64>| #[trigger] g.is_cycle(c);
                    let z = 0int;
                    assert(g.edges.contains((c[z], c[z + 1])));
                }
            }
        }
        match self.prepare_full() {
            Err(e) => {
                return Err(e);
            },
            Ok(()) => {},
        }
        let ghost n = self.rules@.len();
        proof {
            assert(self.spec_rules() == old(self).spec_rules());
            if old(self).handlers_succeed() {
                assert forall|i: int, b: Bind, a: Bind, res: crate::handle::Result|
                    0 <= i < self.spec_rules().len() && #[trigger] self.spec_rules()[i].spec_handler().outcome(b, a, res) implies res is Ok by {
                    assert(old(self).spec_rules()[i].spec_handler().outcome(b, a, res));
                }
            }
        }
        let r = self.run_jobs();
        proof {
            if r is Ok {
                self.lemma_run_complete();
                let all = Set::new(|x: usize| x < n);
                assert(self.order@.to_set() == all);
                assert(self.finished_whole(all));
                assert forall|i: int| 0 <= i < old(self).spec_rules().len() implies #[trigger] self.spec_seen().contains_key(i as usize)
                    && self.ran_on(i, self.spec_seen()[i as usize])
                    && self.spec_seen()[i as usize].shared().dependencies@ == self.spec_finished()[i]->Some_0.shared().dependencies@
                    && crate::job::routes(self.spec_seen()[i as usize].contents()) == crate::job::matched_routes(
                    *self.spec_rules()[i].spec_kind(),
                    self.spec_paths(),
                ) by {
                    assert(all.contains(i as usize));
                    assert(self.spec_log().contains(i as usize));
                    let t = choose|t: int| 0 <= t < self.log@.len() && self.log@[t] == i as usize;
                    assert(self.log@[t] == i as usize);
                    assert(self.logged_ok(self.log@[t]));
                    assert(self.given@[i] is None);
                }
                assert(n == old(self).spec_rules().len());
                assert(self.handlers_ran(old(self).spec_rules().len()));
                if n == 0 {
                    assert(self.spec_finished() =~= old(self).spec_finished());
                }
                assert forall|i: int| 0 <= i < self.spec_rules().len() implies (#[trigger] self.spec_finished()[i]) is Some by {
                    assert(all.contains(i as usize));
                    assert(self.order@.to_set().contains(i as usize));
                    let p = choose|p: int| 0 <= p < self.order@.len() && self.order@[p] == i as usize;
                    assert(self.status@[self.order@[p] as int] == 2);
                }
            }
        }
        r
    }

    /// Plans a run of every rule and hands out the jobs that are ready.
    /// The caller runs each job's [`Job::process`] and gives back its bind
    /// with [`Manager::complete`], until no job is out.
    pub fn start(&mut self) -> (r: Result<Vec<(usize, Job<H>)>, BuildError>)
        requires
            old(self).wf(),
        ensures
            final(self).wf(),
            final(self).spec_rules() == old(self).spec_rules(),
            (r matches Err(BuildError::MissingDependency { .. })) <==> !old(self).dependencies_known(),
            (r matches Err(BuildError::Cycle(_))) <==> old(self).dependencies_known() && old(self).dependency_graph().has_cycle(),
            r matches Err(BuildError::Cycle(c)) ==> exists|ids: Seq<u64>|
                #[trigger] old(self).dependency_graph().is_cycle(ids) && old(self).names_along(c@, ids),
            r is Ok ==> final(self).stepping(),
            old(self).dependencies_known() && !old(self).dependency_graph().has_cycle() ==> r is Ok,
            !(r matches Err(BuildError::NotBuilt { .. })),
            !(r matches Err(BuildError::NotDispatched { .. })),
            !(r matches Err(BuildError::Failed { .. })),
            r matches Ok(jobs) ==> forall|i: int|
                0 <= i < old(self).spec_rules().len() ==> (#[trigger] hands_out(jobs@, i)
                    <==> old(self).spec_rules()[i].spec_dependencies().len() == 0),
            r matches Ok(jobs) ==> forall|t: int| 0 <= t < jobs@.len() ==> final(self).is_out((#[trigger] jobs@[t]).0 as int),
    {
        match self.prepare_full() {
            Err(e) => {
                return Err(e);
            },
            Ok(()) => {},
        }
        let ghost s0 = *self;
        proof {
            assert forall|i: int| 0 <= i < self.rules@.len() && #[trigger] self.status@[i] == 1 implies self.keeps(i, self.out@[i]) by {}
        }
        let jobs = self.dispatch();
        proof {
            let n = self.rules@.len();
            assert forall|i: int| 0 <= i < n implies (#[trigger] hands_out(jobs@, i)
                <==> old(self).spec_rules()[i].spec_dependencies().len() == 0) by {
                let ds = self.deps@[i]@;
                let names = self.rules@[i].spec_dependencies();
                assert(old(self).spec_rules()[i] == self.rules@[i]);
                // the positions of the dependencies are empty exactly when no name is given
                if names.len() > 0 {
                    assert(names_hold(old(self).spec_rules()[i].spec_dependencies(), names[0]@));
                    assert(old(self).resolvable(names[0]@));
                    let j = choose|j: int| 0 <= j < old(self).spec_rules().len() && #[trigger] old(self).spec_rules()[j].spec_name() == names[0]@;
                    assert(self.spec_rules()[j] == old(self).spec_rules()[j]);
                    assert(self.depends(i, j));
                    assert(ds.contains(j as usize));
                }
                if ds.len() > 0 {
                    assert(ds.contains(ds[0]));
                    assert(self.depends(i, ds[0] as int));
                }
                if self.status@[i] == 1 {
                    if ds.len() > 0 {
                        assert(self.status@[ds[0] as int] == 2);
                        assert(s0.status@[ds[0] as int] == 0);
                    }
                } else {
                    if ds.len() == 0 {
                        assert(self.status@[i] != 2);
                        lemma_pending_zero(ds, self.status@);
                    }
                }
            }
            assert forall|t: int| 0 <= t < jobs@.len() implies self.is_out((#[trigger] jobs@[t]).0 as int) by {}
        }
        Ok(jobs)
    }

    /// Takes back the bind of the job handed out for the rule at
    /// `position`, makes it the rule's finished bind, and hands out the
    /// jobs that became ready; refuses a position with no job out.
    pub fn complete(&mut self, position: usize, bind: Bind) -> (r: Result<Vec<(usize, Job<H>)>, BuildError>)
        requires
            old(self).stepping(),
        ensures
            final(self).stepping(),
            final(self).wf(),
            final(self).spec_rules() == old(self).spec_rules(),
            r is Err <==> position >= old(self).spec_rules().len() || !old(self).is_out(position as int),
            r is Ok ==> final(self).spec_finished()[position as int] is Some,
            r matches Ok(jobs) ==> forall|j: int|
                0 <= j < old(self).spec_rules().len() ==> (#[trigger] hands_out(jobs@, j)
                    <==> final(self).is_out(j) && !old(self).is_out(j)),
            r is Err ==> *final(self) == *old(self),
            r matches Ok(jobs) ==> (jobs@.len() == 0 && final(self).nothing_out() ==> {
                &&& final(self).ran_each_once(Set::new(|x: usize| x < old(self).spec_rules().len()))
                &&& forall|i: int|
                    0 <= i < final(self).spec_rules().len() ==> (#[trigger] final(self).spec_finished()[i]) is Some
                &&& final(self).sees_dependencies(Set::new(|x: usize| x < old(self).spec_rules().len()))
            }),
    {
        if position >= self.rules.len() || self.status[position] != 1 {
            return Err(BuildError::NotDispatched { position });
        }
        let ghost s0 = *self;
        let data = self.out[position].take();
        match data {
            Some(bind_data) => {
                let job = Job {
                    bind_data,
                    kind: self.rules[position].kind().clone(),
                    handler: self.rules[position].handler().clone(),
                    bind: Some(bind),
                    paths: self.paths.clone(),
                };
                proof {
                    assert(s0.keeps(position as int, s0.out@[position as int]));
                    assert(self.fits_job(position as int, job));
                }
                let ghost s1 = *self;
                self.handle_done(position, job);
                proof {
                    assert forall|i: int| 0 <= i < self.rules@.len() && #[trigger] self.status@[i] == 1 implies self.keeps(i, self.out@[i]) by {
                        assert(s1.status@[i] == 1);
                        assert(i != position as int);
                        assert(s0.keeps(i, s0.out@[i]));
                        assert(self.out@[i] == s0.out@[i]);
                        let d = s0.out@[i]->Some_0;
                        assert(s1.fits_snapshot(i, d.dependencies@));
                        let jb = Job { bind_data: d, kind: self.rules@[i].spec_kind(), handler: self.rules@[i].spec_handler(), bind: None, paths: self.paths };
                        assert(s1.fits_job(i, jb));
                        assert(self.fits_job(i, jb));
                    }
                    assert(self.out_ok());
                    assert(self.status@[position as int] == 2);
                }
                let ghost s2 = *self;
                let jobs = self.dispatch();
                proof {
                    assert(self.status@[position as int] == 2);
                    assert(self.finished@[position as int] is Some);
                    assert forall|j: int| 0 <= j < old(self).spec_rules().len() implies (#[trigger] hands_out(jobs@, j)
                        <==> self.is_out(j) && !old(self).is_out(j)) by {
                        assert(s2.status@ == s0.status@.update(position as int, 2));
                        if j == position as int {
                            assert(self.status@[j] == 2);
                            assert(!self.is_out(j));
                        } else {
                            assert(s2.status@[j] == s0.status@[j]);
                            assert(self.is_out(j) == (self.status@[j] == 1));
                            assert(old(self).is_out(j) == (s0.status@[j] == 1));
                        }
                    }
                    if jobs@.len() == 0 && self.nothing_out() {
                        self.lemma_all_done();
                        self.lemma_run_complete();
                        let all = Set::new(|x: usize| x < self.rules@.len());
                        assert forall|i: int| 0 <= i < self.spec_rules().len() implies (#[trigger] self.spec_finished()[i]) is Some by {
                            assert(all.contains(i as usize));
                            assert(self.order@.to_set().contains(i as usize));
                            let p = choose|p: int| 0 <= p < self.order@.len() && self.order@[p] == i as usize;
                            assert(self.status@[self.order@[p] as int] == 2);
                        }
                    }
                }
                Ok(jobs)
            },
            None => {
                assert(false);
                Err(BuildError::NotDispatched { position })
            },
        }
    }

}

impl<H> Manager<H> {
    /// The rule at `i` has a finished bind and matches one of `paths`.
    pub open spec fn touched(&self, i: int, paths: Seq<String>) -> bool {
        &&& self.spec_finished()[i] is Some
        &&& *self.spec_rules()[i].spec_kind() matches Kind::Matching(p)
        &&& exists|k: int| 0 <= k < paths.len() && #[trigger] glob_matches(p.view(), paths[k]@)
    }

    /// The positions of the rules that `paths` touch.
    pub open spec fn touched_set(&self, paths: Seq<String>) -> Set<u64> {
        Set::new(|x: u64| x < self.spec_rules().len() && self.touched(x as int, paths))
    }

    /// What a rebuild after `paths` changed prepares for the rule at `i`:
    /// for a touched rule, the copy of its finished bind that
    /// [`dirty_copy`] describes; nothing for any other.
    pub open spec fn prepared_as(&self, i: int, prepared: Option<Bind>, paths: Seq<String>) -> bool {
        if self.touched(i, paths) {
            prepared matches Some(b) && (*self.spec_rules()[i].spec_kind() matches Kind::Matching(p) && dirty_copy(
                *self.spec_finished()[i]->Some_0,
                b,
                p.view(),
                paths,
            ))
        } else {
            prepared is None
        }
    }

    /// The rules that `paths` touch and every rule that depends on them,
    /// directly or not.
    pub open spec fn affected(&self, paths: Seq<String>) -> Set<usize> {
        Set::new(
            |x: usize|
                x < self.spec_rules().len() && self.dependency_graph().reaches(self.touched_set(paths), x as u64),
        )
    }
}

impl<H: Handle<Bind>> Manager<H> {
    /// The paths of `paths` that `pattern` matches.
    fn matching(kind: &Kind, paths: &Vec<String>) -> (r: Vec<String>)
        ensures
            kind matches Kind::Matching(p) ==> (r@.len() > 0 <==> exists|k: int|
                0 <= k < paths@.len() && #[trigger] glob_matches(p.view(), paths@[k]@)),
            kind matches Kind::Matching(p) ==> forall|x: Seq<char>|
                #[trigger] names_hold(r@, x) <==> names_hold(paths@, x) && glob_matches(p.view(), x),
            kind is Creating ==> r@.len() == 0,
    {
        let mut r: Vec<String> = Vec::new();
        match kind {
            Kind::Creating => {},
            Kind::Matching(pattern) => {
                let mut k: usize = 0;
                while k < paths.len()
                    invariant
                        k <= paths@.len(),
                        r@.len() > 0 <==> exists|m: int| 0 <= m < k && #[trigger] glob_matches(pattern.view(), paths@[m]@),
                        forall|x: Seq<char>| #[trigger] names_hold(r@, x) <==> names_hold(paths@.take(k as int), x)
                            && glob_matches(pattern.view(), x),
                    decreases paths@.len() - k,
                {
                    let ghost r0 = r@;
                    let ghost t0 = paths@.take(k as int);
                    let ghost t1 = paths@.take(k + 1);
                    if pattern.matches(paths[k].as_str()) {
                        r.push(paths[k].clone());
                    }
                    proof {
                        assert forall|x: Seq<char>| #[trigger] names_hold(r@, x) <==> names_hold(t1, x) && glob_matches(pattern.view(), x) by {
                            if names_hold(r@, x) {
                                let m = choose|m: int| 0 <= m < r@.len() && (#[trigger] r@[m])@ == x;
                                if m < r0.len() {
                                    assert(r0[m] == r@[m]);
                                    assert(names_hold(r0, x));
                                    let q = choose|q: int| 0 <= q < t0.len() && (#[trigger] t0[q])@ == x;
                                    assert(t1[q] == t0[q]);
                                } else {
                                    assert(t1[k as int] == paths@[k as int]);
                                }
                            }
                            if names_hold(t1, x) && glob_matches(pattern.view(), x) {
                                let q = choose|q: int| 0 <= q < t1.len() && (#[trigger] t1[q])@ == x;
                                if q < k {
                                    assert(t0[q] == t1[q]);
                                    assert(names_hold(t0, x));
                                    assert(names_hold(r0, x));
                                    let m = choose|m: int| 0 <= m < r0.len() && (#[trigger] r0[m])@ == x;
                                    assert(r@[m] == r0[m]);
                                } else {
                                    assert(t1[q] == paths@[k as int]);
                                    assert(r@.len() == r0.len() + 1);
                                    assert(r@[r@.len() - 1]@ == x);
                                }
                            }
                        }
                    }
                    k += 1;
                }
                assert(paths@.take(k as int) =~= paths@);
            },
        }
        r
    }

    /// A copy of `bind`, partial, with the items that read one of
    /// `affected` marked stale.
    fn dirtied(bind: &Bind, affected: &Vec<String>) -> (r: Bind)
        ensures
            r.spec_partial(),
            r.shared() == bind.shared(),
            r.contents().len() == bind.contents().len(),
            forall|k: int|
                0 <= k < bind.contents().len() ==> (#[trigger] r.contents()[k]).route == bind.contents()[k].route
                    && r.contents()[k].body == bind.contents()[k].body
                    && r.contents()[k].owner() == bind.contents()[k].owner()
                    && r.contents()[k].spec_stale() == (bind.contents()[k].spec_stale() || (bind.contents()[k].route.source() matches Some(
                    src,
                ) && names_hold(affected@, src))),
    {
        let mut copy = bind.clone();
        proof {
            lemma_bind_fields(copy);
            lemma_bind_fields(*bind);
        }
        let mut k: usize = 0;
        while k < copy.items.len()
            invariant
                k <= copy.items@.len(),
                copy.data == bind.data,
                copy.partial == bind.partial,
                copy.items@.len() == bind.items@.len(),
                forall|m: int|
                    0 <= m < bind.items@.len() ==> (#[trigger] copy.items@[m]).route == bind.items@[m].route
                        && copy.items@[m].body == bind.items@[m].body && copy.items@[m].owner() == bind.items@[m].owner(),
                forall|m: int| 0 <= m < k ==> (#[trigger] copy.items@[m]).spec_stale() == (bind.items@[m].spec_stale() || (
                    bind.items@[m].route.source() matches Some(src) && names_hold(affected@, src))),
                forall|m: int| k <= m < bind.items@.len() ==> (#[trigger] copy.items@[m]).spec_stale() == bind.items@[m].spec_stale(),
            decreases copy.items@.len() - k,
        {
            let hit = match copy.items[k].reading() {
                Some(source) => holds_name(affected, source),
                None => false,
            };
            if hit {
                set_stale(&mut copy.items[k], true);
            }
            k += 1;
        }
        proof {
            lemma_bind_fields(copy);
        }
        set_partial(&mut copy, true);
        copy
    }

    /// Prepares a partial copy of each finished bind that `paths` touch,
    /// and returns the positions of those rules.
    fn touch(&mut self, paths: &Vec<String>) -> (r: Vec<u64>)
        requires
            old(self).wf(),
        ensures
            final(self).wf(),
            final(self).rules == old(self).rules,
            final(self).finished == old(self).finished,
            final(self).paths == old(self).paths,
            forall|x: u64| #[trigger] r@.contains(x) <==> old(self).touched_set(paths@).contains(x),
            final(self).prepared@.len() == old(self).rules@.len(),
            forall|i: int| 0 <= i < old(self).rules@.len() ==> old(self).prepared_as(i, #[trigger] final(self).prepared@[i], paths@),
    {
        let n = self.rules.len();
        let mut starts: Vec<u64> = Vec::new();
        let mut i: usize = 0;
        while i < n
            invariant
                self.wf(),
                n == self.rules@.len(),
                self.rules == old(self).rules,
                self.finished == old(self).finished,
                self.paths == old(self).paths,
                i <= n,
                forall|x: u64| #[trigger] starts@.contains(x) <==> x < i && old(self).touched(x as int, paths@),
                forall|x: int| 0 <= x < i ==> old(self).prepared_as(x, #[trigger] self.prepared@[x], paths@),
            decreases n - i,
        {
            let ghost pr0 = self.prepared@;
            self.prepared.set(i, None);
            let ghost s0 = starts@;
            match &self.finished[i] {
                Some(bind) => {
                    let affected = Manager::<H>::matching(&**self.rules[i].kind(), paths);
                    if affected.len() > 0 {
                        let copy = Manager::<H>::dirtied(&**bind, &affected);
                        proof {
                            let p = self.rules@[i as int].spec_kind();
                            if let Kind::Matching(pat) = *p {
                                assert forall|k: int| 0 <= k < bind.contents().len() implies
                                    (#[trigger] copy.contents()[k]).spec_stale() == (bind.contents()[k].spec_stale() || (
                                    bind.contents()[k].route.source() matches Some(src) && names_hold(paths@, src) && glob_matches(pat.view(), src))) by {
                                    if let Some(src) = bind.contents()[k].route.source() {
                                        assert(names_hold(affected@, src) <==> names_hold(paths@, src) && glob_matches(pat.view(), src));
                                    }
                                }
                                assert(dirty_copy(**bind, copy, pat.view(), paths@));
                            }
                        }
                        self.prepared.set(i, Some(copy));
                        starts.push(i as u64);
                    }
                    proof {
                        assert forall|x: u64| #[trigger] starts@.contains(x) <==> x < i + 1 && old(self).touched(x as int, paths@) by {
                            if x == i as u64 {
                                if affected@.len() > 0 {
                                    assert(starts@[starts@.len() - 1] == x);
                                }
                            } else {
                                if starts@.contains(x) && affected@.len() > 0 {
                                    let t = choose|t: int| 0 <= t < starts@.len() && starts@[t] == x;
                                    assert(t < s0.len());
                                    assert(s0[t] == x);
                                }
                                if s0.contains(x) && affected@.len() > 0 {
                                    let t = choose|t: int| 0 <= t < s0.len() && s0[t] == x;
                                    assert(starts@[t] == x);
                                }
                            }
                        }
                    }
                },
                None => {
                    proof {
                        assert forall|x: u64| #[trigger] starts@.contains(x) <==> x < i + 1 && old(self).touched(x as int, paths@) by {
                            if x == i as u64 {
                                assert(!s0.contains(x));
                            }
                        }
                    }
                },
            }
            i += 1;
        }
        proof {
            assert forall|x: u64| #[trigger] starts@.contains(x) <==> old(self).touched_set(paths@).contains(x) by {}
        }
        starts
    }
}

impl<H> Manager<H> {
    /// Whatever the touched rules reach is a rule.
    proof fn lemma_reach_rules(&self, paths: Seq<String>, v: u64)
        requires
            self.dependency_graph().reaches(self.touched_set(paths), v),
        ensures
            v < self.spec_rules().len(),
    {
        let g = self.dependency_graph();
        let p = choose|p: Seq<u64>| #[trigger] g.is_path(p) && self.touched_set(paths).contains(p[0]) && p.last() == v;
        if p.len() > 1 {
            let j = p.len() - 2;
            assert(g.edges.contains((p[j], p[j + 1])));
        }
    }
}

impl<H: Handle<Bind>> Manager<H> {
    /// Rebuilds after `paths` changed: the rules whose finished binds match
    /// one of them, and every rule that depends on those, directly or not,
    /// each once, in dependency order; the others keep their finished
    /// binds. Returns how many jobs ran.
    pub fn update(&mut self, paths: &Vec<String>) -> (r: Result<usize, BuildError>)
        requires
            old(self).wf(),
        ensures
            final(self).wf(),
            final(self).spec_rules() == old(self).spec_rules(),
            (forall|x: u64| !old(self).touched_set(paths@).contains(x)) ==> r == Ok::<usize, BuildError>(0)
                && final(self).spec_finished() == old(self).spec_finished(),
            (exists|x: u64| old(self).touched_set(paths@).contains(x)) ==> ((r matches Err(
                BuildError::MissingDependency { .. },
            )) <==> !old(self).dependencies_known()),
            r matches Err(BuildError::Cycle(c)) ==> exists|ids: Seq<u64>|
                #[trigger] old(self).dependency_graph().is_cycle(ids) && old(self).names_along(c@, ids)
                    && old(self).dependency_graph().reaches(old(self).touched_set(paths@), ids[0]),
            r matches Err(BuildError::NotBuilt { rule }) ==> exists|i: int|
                0 <= i < old(self).spec_rules().len() && !old(self).affected(paths@).contains(i as usize)
                    && #[trigger] old(self).spec_finished()[i] is None && old(self).spec_rules()[i].spec_name() == rule@,
            r is Ok ==> final(self).spec_finished().len() == old(self).spec_finished().len(),
            r is Ok ==> forall|i: int|
                0 <= i < old(self).spec_rules().len() && !old(self).affected(paths@).contains(i as usize)
                    ==> #[trigger] final(self).spec_finished()[i] == old(self).spec_finished()[i],
            r matches Ok(k) ==> k == old(self).affected(paths@).len(),
            r matches Ok(k) && k > 0 ==> final(self).ran_each_once(old(self).affected(paths@)),
            r matches Ok(k) && k > 0 ==> final(self).sees_dependencies(old(self).affected(paths@)),
            r matches Ok(k) && k > 0 ==> final(self).finished_whole(old(self).affected(paths@)),
            r matches Ok(k) && k > 0 ==> final(self).saw_dirty_copies(*old(self), paths@),
            r matches Ok(k) && k > 0 ==> final(self).handlers_saw(old(self).affected(paths@)),
            r matches Ok(k) && k > 0 ==> final(self).populated(
                Set::new(|x: usize| old(self).affected(paths@).contains(x) && !old(self).touched(x as int, paths@)),
            ),
            (exists|x: u64| old(self).touched_set(paths@).contains(x)) ==> ((r matches Err(BuildError::Cycle(_)))
                <==> old(self).dependencies_known() && old(self).dependency_graph().has_cycle_from(old(self).touched_set(paths@))),
            (exists|x: u64| old(self).touched_set(paths@).contains(x)) ==> ((r matches Err(BuildError::NotBuilt { .. }))
                <==> old(self).dependencies_known() && !old(self).dependency_graph().has_cycle_from(old(self).touched_set(paths@))
                && exists|i: int|
                0 <= i < old(self).spec_rules().len() && !old(self).affected(paths@).contains(i as usize)
                    && #[trigger] old(self).spec_finished()[i] is None),
            !(r matches Err(BuildError::NotDispatched { .. })),
            old(self).dependencies_known() && !old(self).dependency_graph().has_cycle_from(old(self).touched_set(paths@))
                && (forall|i: int|
                0 <= i < old(self).spec_rules().len() && !old(self).affected(paths@).contains(i as usize)
                    ==> #[trigger] old(self).spec_finished()[i] is Some) && old(self).handlers_succeed() ==> r is Ok,
            !(r is Ok) && !(r matches Err(BuildError::Failed { .. })) ==> final(self).spec_finished() == old(self).spec_finished(),
    {
        let ghost n = self.rules@.len();
        let starts = self.touch(paths);
        let ghost touched = old(self).touched_set(paths@);
        let ghost prep = self.prepared@;
        proof {
            assert(self.spec_rules() == old(self).spec_rules());
            assert forall|x: Seq<char>| self.resolvable(x) == old(self).resolvable(x) by {}
            assert(self.dependencies_known() == old(self).dependencies_known());
        }
        if starts.len() == 0 {
            proof {
                assert forall|x: u64| !touched.contains(x) by {
                    if touched.contains(x) {
                        assert(starts@.contains(x));
                    }
                }
                assert forall|x: usize| !old(self).affected(paths@).contains(x) by {
                    let g = old(self).dependency_graph();
                    if g.reaches(touched, x as u64) {
                        let p = choose|p: Seq<u64>| #[trigger] g.is_path(p) && touched.contains(p[0]) && p.last() == x as u64;
                    }
                }
                assert(old(self).affected(paths@) =~= Set::<usize>::empty());
            }
            return Ok(0);
        }
        proof {
            assert(starts@.contains(starts@[0]));
            assert(touched.contains(starts@[0]));
            assert(starts@.to_set() =~= touched);
        }
        match self.plan() {
            Err(e) => {
                return Err(e);
            },
            Ok(()) => {},
        }
        let g = self.build_graph();
        self.graph = g;
        proof {
            assert(self.graph.view().nodes =~= old(self).dependency_graph().nodes);
            assert(self.graph.view().edges =~= old(self).dependency_graph().edges);
            assert(self.graph.view() == old(self).dependency_graph());
            assert(self.dependency_graph().nodes =~= old(self).dependency_graph().nodes);
            assert(self.dependency_graph().edges =~= old(self).dependency_graph().edges);
            assert(self.dependency_graph() == old(self).dependency_graph());
            assert(self.touched_set(paths@) =~= touched);
            assert forall|k: int| 0 <= k < starts@.len() implies self.graph.view().nodes.contains(#[trigger] starts@[k]) by {
                assert(touched.contains(starts@[k]));
            }
        }
        match self.graph.resolve_from(&starts) {
            Err(ids) => {
                proof {
                    assert forall|k: int| 0 <= k < ids@.len() implies #[trigger] ids@[k] < self.rules@.len() by {
                        if k < ids@.len() - 1 {
                            assert(self.dependency_graph().edges.contains((ids@[k], ids@[k + 1])));
                        } else {
                            let z = 0int;
                            assert(self.dependency_graph().edges.contains((ids@[z], ids@[z + 1])));
                        }
                    }
                }
                let names = self.names_of(&ids);
                Err(BuildError::Cycle(names))
            },
            Ok(order) => {
                proof {
                    assert forall|v: u64| #[trigger] order@.contains(v) implies self.dependency_graph().nodes.contains(v) by {
                        self.lemma_reach_rules(paths@, v);
                    }
                }
                let ord = self.positions_of(&order);
                let ghost aff = old(self).affected(paths@);
                proof {
                    assert forall|x: usize| #[trigger] ord@.contains(x) <==> aff.contains(x) by {
                        if ord@.contains(x) {
                            let p = choose|p: int| 0 <= p < ord@.len() && ord@[p] == x;
                            assert(order@.contains(order@[p]));
                            assert(order@[p] as int == x as int);
                        }
                        if aff.contains(x) {
                            assert(order@.contains(x as u64));
                            let p = choose|p: int| 0 <= p < order@.len() && order@[p] == x as u64;
                            assert(ord@[p] == x);
                        }
                    }
                }
                let ghost sp = *self;
                let mut i: usize = 0;
                while i < self.rules.len()
                    invariant
                        self.planned(),
                        *self == sp,
                        sp.rules == old(self).rules,
                        sp.finished == old(self).finished,
                        old(self).dependencies_known(),
                        exists|x: u64| touched.contains(x),
                        touched == old(self).touched_set(paths@),
                        !old(self).dependency_graph().has_cycle_from(touched),
                        aff == old(self).affected(paths@),
                        forall|x: usize| #[trigger] ord@.contains(x) <==> aff.contains(x),
                        n == self.rules@.len(),
                        i <= n,
                        forall|x: int| 0 <= x < i && !ord@.contains(x as usize) ==> (#[trigger] self.finished@[x]) is Some,
                    decreases n - i,
                {
                    if !holds(&ord, i) && self.finished[i].is_none() {
                        proof {
                            assert(!aff.contains(i));
                            assert(old(self).spec_finished()[i as int] is None);
                            assert(self.spec_rules() == old(self).spec_rules());
                        }
                        return Err(BuildError::NotBuilt { rule: self.rules[i].name().clone() });
                    }
                    i += 1;
                }
                let count = ord.len();
                proof {
                    assert(self.spec_rules() == old(self).spec_rules());
                    if old(self).handlers_succeed() {
                        assert forall|i: int, b: Bind, a: Bind, res: crate::handle::Result|
                            0 <= i < self.spec_rules().len() && #[trigger] self.spec_rules()[i].spec_handler().outcome(b, a, res) implies res is Ok by {
                            assert(old(self).spec_rules()[i].spec_handler().outcome(b, a, res));
                        }
                    }
                }
                self.sort_jobs(ord);
                let r = self.run_jobs();
                match r {
                    Err(e) => Err(e),
                    Ok(()) => {
                        proof {
                            self.lemma_run_complete();
                            assert(self.order@.to_set() =~= aff);
                            self.order@.unique_seq_to_set();
                            assert(self.given@ == prep);
                            assert forall|i: int|
                                0 <= i < n && #[trigger] old(self).touched(i, paths@)
                                implies self.spec_seen().contains_key(i as usize) && self.ran_on(i, self.spec_seen()[i as usize])
                                && exists|b: Bind| old(self).prepared_as(i, Some(b), paths@) && kept(b, self.spec_seen()[i as usize]) by {
                                assert(touched.contains(i as u64));
                                old(self).dependency_graph().lemma_reach_start(touched, i as u64);
                                assert(aff.contains(i as usize));
                                assert(self.spec_log().contains(i as usize));
                                let t = choose|t: int| 0 <= t < self.log@.len() && self.log@[t] == i as usize;
                                assert(self.log@[t] == i as usize);
                                assert(old(self).prepared_as(i, prep[i], paths@));
                                let b = prep[i]->Some_0;
                                assert(old(self).prepared_as(i, Some(b), paths@));
                            }
                            assert(self.saw_dirty_copies(*old(self), paths@));
                            assert forall|i: int| 0 <= i < self.spec_rules().len() && aff.contains(i as usize) implies #[trigger] self.spec_seen().contains_key(i as usize)
                                && self.ran_on(i, self.spec_seen()[i as usize])
                                && self.spec_seen()[i as usize].shared().dependencies@ == self.spec_finished()[i]->Some_0.shared().dependencies@ by {
                                assert(self.spec_log().contains(i as usize));
                                let t = choose|t: int| 0 <= t < self.log@.len() && self.log@[t] == i as usize;
                                assert(self.logged_ok(self.log@[t]));
                            }
                            let sc = Set::new(|x: usize| aff.contains(x) && !old(self).touched(x as int, paths@));
                            assert forall|i: int| 0 <= i < self.spec_rules().len() && sc.contains(i as usize) implies #[trigger] crate::job::routes(
                                self.spec_seen()[i as usize].contents(),
                            ) == crate::job::matched_routes(*self.spec_rules()[i].spec_kind(), self.spec_paths()) by {
                                assert(self.spec_log().contains(i as usize));
                                let t = choose|t: int| 0 <= t < self.log@.len() && self.log@[t] == i as usize;
                                assert(self.logged_ok(self.log@[t]));
                                assert(old(self).prepared_as(i, prep[i], paths@));
                                assert(self.given@[i] is None);
                            }
                            assert forall|i: int| 0 <= i < n && !aff.contains(i as usize)
                                implies #[trigger] self.spec_finished()[i] == old(self).spec_finished()[i] by {
                                assert(!self.order@.contains(i as usize));
                            }
                        }
                        Ok(count)
                    },
                }
            },
        }
    }
}

impl<H: Handle<Bind>> Manager<H> {
    /// The finished bind of the rule called `name`, if it has one.
    pub fn finished(&self, name: &String) -> (r: Option<Arc<Bind>>)
        requires
            self.wf(),
        ensures
            r is Some ==> exists|i: int|
                0 <= i < self.spec_rules().len() && #[trigger] self.spec_rules()[i].spec_name() == name@
                    && self.spec_finished()[i] == r,
            r is None ==> forall|i: int|
                0 <= i < self.spec_rules().len() && #[trigger] self.spec_rules()[i].spec_name() == name@
                    ==> self.spec_finished()[i] is None,
    {
        match self.position(name) {
            Some(i) => {
                proof {
                    assert(self.spec_rules()[i as int].spec_name() == name@);
                }
                match &self.finished[i] {
                    Some(b) => Some(b.clone()),
                    None => None,
                }
            },
            None => None,
        }
    }

    /// How many rules are registered.
    pub fn rule_count(&self) -> (r: usize)
        ensures
            r == self.spec_rules().len(),
    {
        self.rules.len()
    }
}

impl<H> Manager<H> {
    /// `d` is the data that the rule at `i` was dispatched with.
    closed spec fn keeps(&self, i: int, d: Option<Data>) -> bool {
        d matches Some(x) && x.name@ == self.rules@[i].spec_name() && self.fits_snapshot(i, x.dependencies@)
    }

    /// Each dispatched rule's data is kept until its job comes back.
    closed spec fn out_ok(&self) -> bool {
        &&& self.out@.len() == self.rules@.len()
        &&& forall|i: int|
            0 <= i < self.rules@.len() && #[trigger] self.status@[i] == 1 ==> self.keeps(i, self.out@[i])
    }

    /// The job of the rule at `i` is out.
    pub closed spec fn is_out(&self, i: int) -> bool {
        self.status@[i] == 1
    }

    /// The bookkeeping of a run of every rule driven step by step.
    pub closed spec fn stepping(&self) -> bool {
        &&& self.scheduled()
        &&& self.settled()
        &&& self.out_ok()
        &&& self.order@.to_set() == Set::new(|x: usize| x < self.rules@.len())
    }

    /// No job is out.
    pub closed spec fn nothing_out(&self) -> bool {
        forall|i: int| 0 <= i < self.rules@.len() ==> #[trigger] self.status@[i] != 1
    }
}

impl<H: Handle<Bind>> Manager<H> {
    /// Dispatches the rules that are ready and keeps their data.
    fn dispatch(&mut self) -> (r: Vec<(usize, Job<H>)>)
        requires
            old(self).scheduled(),
            old(self).out_ok(),
            old(self).order@.to_set() == Set::new(|x: usize| x < old(self).rules@.len()),
        ensures
            final(self).stepping(),
            final(self).queue_ok(r@),
            final(self).rules == old(self).rules,
            final(self).finished == old(self).finished,
            final(self).order == old(self).order,
            final(self).log == old(self).log,
            forall|x: int| 0 <= x < old(self).status@.len() ==> (#[trigger] final(self).status@[x] == 2) == (old(self).status@[x] == 2),
            forall|j: int| 0 <= j < old(self).rules@.len() ==> (#[trigger] hands_out(r@, j)
                <==> final(self).status@[j] == 1 && old(self).status@[j] != 1),
    {
        let mut queue: Vec<(usize, Job<H>)> = Vec::new();
        let ghost s0 = *self;
        self.enqueue_ready(&mut queue);
        let ghost s1 = *self;
        let mut t: usize = 0;
        while t < queue.len()
            invariant
                *self == (Manager { out: self.out, ..s1 }),
                s1.scheduled(),
                s1.queue_ok(queue@),
                self.out@.len() == self.rules@.len(),
                s0.out_ok(),
                s0.rules == s1.rules,
                s0.finished == s1.finished,
                s0.deps == s1.deps,
                t <= queue@.len(),
                forall|j: int| 0 <= j < s1.rules@.len() && #[trigger] s1.status@[j] == 1 ==> s0.status@[j] == 1
                    || exists|u: int| 0 <= u < queue@.len() && (#[trigger] queue@[u]).0 == j,
                forall|j: int|
                    0 <= j < s1.rules@.len() && #[trigger] s1.status@[j] == 1 && (s0.status@[j] == 1 || exists|u: int|
                        0 <= u < t && (#[trigger] queue@[u]).0 == j) ==> s1.keeps(j, self.out@[j]),
            decreases queue@.len() - t,
        {
            let i = queue[t].0;
            let ghost o0 = self.out@;
            let data = queue[t].1.bind_data.clone();
            self.out.set(i, Some(data));
            proof {
                assert(s1.fits_job(i as int, queue@[t as int].1));
                assert forall|j: int|
                    0 <= j < s1.rules@.len() && #[trigger] s1.status@[j] == 1 && (s0.status@[j] == 1 || exists|u: int|
                        0 <= u < t + 1 && (#[trigger] queue@[u]).0 == j) implies s1.keeps(j, self.out@[j]) by {
                    if j != i as int {
                        if s0.status@[j] != 1 {
                            let u = choose|u: int| 0 <= u < t + 1 && (#[trigger] queue@[u]).0 == j;
                            assert(u != t);
                        }
                        assert(o0[j] == self.out@[j]);
                    }
                }
            }
            t += 1;
        }
        proof {
            assert forall|i: int|
                0 <= i < self.rules@.len() && #[trigger] self.status@[i] == 1 implies self.keeps(i, self.out@[i]) by {
                assert(s1.status@[i] == 1);
                if s0.status@[i] != 1 {
                    let u = choose|u: int| 0 <= u < queue@.len() && (#[trigger] queue@[u]).0 == i;
                }
            }
            assert forall|u: int| 0 <= u < queue@.len() implies (#[trigger] queue@[u]).0 < self.rules@.len()
                && self.status@[queue@[u].0 as int] == 1 && self.fits_job(queue@[u].0 as int, queue@[u].1) by {
                assert(s1.fits_job(queue@[u].0 as int, queue@[u].1));
            }
            assert forall|j: int| 0 <= j < old(self).rules@.len() implies (#[trigger] hands_out(queue@, j)
                <==> self.status@[j] == 1 && old(self).status@[j] != 1) by {
                if hands_out(queue@, j) {
                    let t = choose|t: int| 0 <= t < queue@.len() && (#[trigger] queue@[t]).0 == j;
                    assert(s0.status@[queue@[t].0 as int] == 0);
                }
            }
            assert(self.order@.to_set() =~= Set::new(|x: usize| x < self.rules@.len())) by {
                assert(s0.order@.to_set() == Set::new(|x: usize| x < s0.rules@.len()));
            }
        }
        queue
    }
}

/// Two managers with the same rules and finished binds agree on
/// everything that a build or an update promises in terms of them.
pub proof fn lemma_same_rules<H: Handle<Bind>>(m0: Manager<H>, m1: Manager<H>)
    requires
        m0.spec_rules() == m1.spec_rules(),
        m0.spec_finished() == m1.spec_finished(),
    ensures
        m0.dependencies_known() == m1.dependencies_known(),
        m0.dependency_graph() == m1.dependency_graph(),
        m0.handlers_succeed() == m1.handlers_succeed(),
        forall|p: Seq<String>| #[trigger] m0.touched_set(p) == m1.touched_set(p),
        forall|p: Seq<String>| #[trigger] m0.affected(p) == m1.affected(p),
        forall|m: Manager<H>, p: Seq<String>| #[trigger] m.saw_dirty_copies(m0, p) == m.saw_dirty_copies(m1, p),
        forall|i: int, p: Seq<String>| #[trigger] m0.touched(i, p) == m1.touched(i, p),
{
    assert forall|x: Seq<char>| m0.resolvable(x) == m1.resolvable(x) by {}
    assert(m0.dependency_graph().nodes =~= m1.dependency_graph().nodes);
    assert(m0.dependency_graph().edges =~= m1.dependency_graph().edges);
    assert forall|p: Seq<String>| #[trigger] m0.touched_set(p) == m1.touched_set(p) by {
        assert(m0.touched_set(p) =~= m1.touched_set(p));
    }
    assert forall|p: Seq<String>| #[trigger] m0.affected(p) == m1.affected(p) by {
        assert(m0.touched_set(p) == m1.touched_set(p));
        assert(m0.affected(p) =~= m1.affected(p));
    }
    assert forall|m: Manager<H>, p: Seq<String>| #[trigger] m.saw_dirty_copies(m0, p) == m.saw_dirty_copies(m1, p) by {
        assert forall|i: int, b: Option<Bind>| #[trigger] m0.prepared_as(i, b, p) == m1.prepared_as(i, b, p) by {}
        assert forall|i: int| #[trigger] m0.touched(i, p) == m1.touched(i, p) by {}
        if m.saw_dirty_copies(m0, p) {
            assert forall|i: int| 0 <= i < m1.spec_rules().len() && #[trigger] m1.touched(i, p) implies m.spec_seen().contains_key(i as usize)
                && m.ran_on(i, m.spec_seen()[i as usize]) && exists|b: Bind|
                m1.prepared_as(i, Some(b), p) && kept(b, m.spec_seen()[i as usize]) by {
                assert(m0.touched(i, p));
                let b = choose|b: Bind| m0.prepared_as(i, Some(b), p) && kept(b, m.spec_seen()[i as usize]);
                assert(m1.prepared_as(i, Some(b), p));
            }
        }
        if m.saw_dirty_copies(m1, p) {
            assert forall|i: int| 0 <= i < m0.spec_rules().len() && #[trigger] m0.touched(i, p) implies m.spec_seen().contains_key(i as usize)
                && m.ran_on(i, m.spec_seen()[i as usize]) && exists|b: Bind|
                m0.prepared_as(i, Some(b), p) && kept(b, m.spec_seen()[i as usize]) by {
                assert(m1.touched(i, p));
                let b = choose|b: Bind| m1.prepared_as(i, Some(b), p) && kept(b, m.spec_seen()[i as usize]);
                assert(m0.prepared_as(i, Some(b), p));
            }
        }
    }
}

} // verus!
