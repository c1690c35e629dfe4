//! A site: the rules of a build, checked when registered, and the
//! manager that builds them.

use crate::binding::Bind;
use crate::configuration::Configuration;
use crate::handle::Handle;
use crate::job::Job;
use crate::manager::{lemma_same_rules, BuildError, Manager};
use crate::rule::{distinct_names, holds_name, names_hold, Rule};
use std::sync::Arc;
use vstd::prelude::*;

verus! {

/// Some rule of `rules` is called `x`.
pub open spec fn registered<H>(rules: Seq<Rule<H>>, x: Seq<char>) -> bool {
    exists|j: int| 0 <= j < rules.len() && #[trigger] rules[j].spec_name() == x
}

/// Every dependency that a rule of `rules` names is a rule of `rules`.
pub open spec fn closed_under_dependencies<H>(rules: Seq<Rule<H>>) -> bool {
    forall|i: int, x: Seq<char>|
        0 <= i < rules.len() && #[trigger] names_hold(rules[i].spec_dependencies(), x) ==> registered(rules, x)
}

/// The rules of a build and the manager that builds them.
pub struct Site<H> {
    configuration: Arc<Configuration>,
    manager: Manager<H>,
}

impl<H: Handle<Bind>> Site<H> {
    pub closed spec fn spec_manager(&self) -> Manager<H> {
        self.manager
    }

    pub closed spec fn spec_configuration(&self) -> Arc<Configuration> {
        self.configuration
    }

    /// Registers `rules`; fails, naming the rule and what it misses, where
    /// a rule depends on a name that no rule has.
    pub fn new(rules: Vec<Rule<H>>, configuration: Configuration) -> (r: Result<Site<H>, BuildError>)
        requires
            forall|p: int, q: int|
                0 <= p < rules@.len() && 0 <= q < rules@.len() && p != q ==> (#[trigger] rules@[p]).spec_name()
                    != (#[trigger] rules@[q]).spec_name(),
            forall|i: int| 0 <= i < rules@.len() ==> distinct_names((#[trigger] rules@[i]).spec_dependencies()),
        ensures
            r is Ok <==> closed_under_dependencies(rules@),
            r matches Ok(site) ==> site.spec_manager().wf() && site.spec_manager().spec_rules() == rules@,
            r matches Err(e) ==> e matches BuildError::MissingDependency { rule, missing } && exists|i: int|
                0 <= i < rules@.len() && #[trigger] rules@[i].spec_name() == rule@ && missing@.len() > 0 && (forall|k: int|
                    0 <= k < missing@.len() ==> names_hold(rules@[i].spec_dependencies(), (#[trigger] missing@[k])@)
                        && !registered(rules@, missing@[k]@)) && forall|x: Seq<char>|
                    #[trigger] names_hold(rules@[i].spec_dependencies(), x) && !registered(rules@, x) ==> names_hold(missing@, x),
    {
        let ghost rs = rules@;
        let mut names: Vec<String> = Vec::new();
        let mut k: usize = 0;
        while k < rules.len()
            invariant
                rs == rules@,
                k <= rs.len(),
                names@.len() == k,
                forall|m: int| 0 <= m < k ==> (#[trigger] names@[m])@ == rs[m].spec_name(),
            decreases rs.len() - k,
        {
            names.push(rules[k].name().clone());
            k += 1;
        }
        proof {
            assert forall|x: Seq<char>| names_hold(names@, x) <==> registered(rs, x) by {
                if names_hold(names@, x) {
                    let m = choose|m: int| 0 <= m < names@.len() && (#[trigger] names@[m])@ == x;
                    assert(rs[m].spec_name() == x);
                }
                if registered(rs, x) {
                    let j = choose|j: int| 0 <= j < rs.len() && #[trigger] rs[j].spec_name() == x;
                    assert(names@[j]@ == x);
                }
            }
        }
        let mut i: usize = 0;
        while i < rules.len()
            invariant
                rs == rules@,
                i <= rs.len(),
                forall|x: Seq<char>| names_hold(names@, x) <==> registered(rs, x),
                forall|m: int, x: Seq<char>| 0 <= m < i && #[trigger] names_hold(rs[m].spec_dependencies(), x) ==> registered(rs, x),
            decreases rs.len() - i,
        {
            let deps = rules[i].dependencies();
            let mut missing: Vec<String> = Vec::new();
            let mut k: usize = 0;
            while k < deps.len()
                invariant
                    rs == rules@,
                    i < rs.len(),
                    deps@ == rs[i as int].spec_dependencies(),
                    k <= deps@.len(),
                    forall|x: Seq<char>| names_hold(names@, x) <==> registered(rs, x),
                    forall|m: int| 0 <= m < missing@.len() ==> names_hold(deps@, (#[trigger] missing@[m])@) && !registered(rs, missing@[m]@),
                    missing@.len() == 0 <==> forall|m: int| 0 <= m < k ==> registered(rs, (#[trigger] deps@[m])@),
                    forall|m: int| 0 <= m < k && !registered(rs, (#[trigger] deps@[m])@) ==> names_hold(missing@, deps@[m]@),
                decreases deps@.len() - k,
            {
                let ghost m0 = missing@;
                if !holds_name(&names, &deps[k]) {
                    proof {
                        assert(names_hold(deps@, deps@[k as int]@));
                    }
                    missing.push(deps[k].clone());
                    proof {
                        assert(missing@[m0.len() as int]@ == deps@[k as int]@);
                    }
                }
                proof {
                    assert forall|m: int| 0 <= m < k + 1 && !registered(rs, (#[trigger] deps@[m])@) implies names_hold(missing@, deps@[m]@) by {
                        if m < k {
                            let q = choose|q: int| 0 <= q < m0.len() && (#[trigger] m0[q])@ == deps@[m]@;
                            assert(missing@[q] == m0[q]);
                        }
                    }
                }
                k += 1;
            }
            proof {
                assert forall|x: Seq<char>| #[trigger] names_hold(deps@, x) && !registered(rs, x) implies names_hold(missing@, x) by {
                    let m = choose|m: int| 0 <= m < deps@.len() && (#[trigger] deps@[m])@ == x;
                }
            }
            if missing.len() > 0 {
                proof {
                    assert(!closed_under_dependencies(rs)) by {
                        let y = missing@[0]@;
                        assert(names_hold(rs[i as int].spec_dependencies(), y));
                    }
                    assert(rs[i as int].spec_name() == rules@[i as int].spec_name());
                }
                return Err(BuildError::MissingDependency { rule: rules[i].name().clone(), missing });
            }
            proof {
                assert forall|m: int, x: Seq<char>| 0 <= m < i + 1 && #[trigger] names_hold(rs[m].spec_dependencies(), x) implies registered(rs, x) by {
                    if m == i {
                        let j = choose|j: int| 0 <= j < deps@.len() && (#[trigger] deps@[j])@ == x;
                        assert(registered(rs, deps@[j]@));
                    }
                }
            }
            i += 1;
        }
        let configuration = Arc::new(configuration);
        let mut manager = Manager::new(configuration.clone());
        let mut rules = rules;
        let ghost n = rs.len();
        assert(rs.skip(0) =~= rs);
        assert(rs.take(0) =~= Seq::<Rule<H>>::empty());
        while rules.len() > 0
            invariant
                manager.wf(),
                n == rs.len(),
                rules@.len() <= n,
                rules@ == rs.skip(n - rules@.len()),
                manager.spec_rules() == rs.take(n - rules@.len()),
                forall|p: int, q: int| 0 <= p < n && 0 <= q < n && p != q ==> (#[trigger] rs[p]).spec_name() != (#[trigger] rs[q]).spec_name(),
                forall|i: int| 0 <= i < n ==> distinct_names((#[trigger] rs[i]).spec_dependencies()),
            decreases rules@.len(),
        {
            let ghost done = n - rules@.len();
            let rule = rules.remove(0);
            assert(rule == rs[done]);
            proof {
                assert forall|j: int| 0 <= j < manager.spec_rules().len() implies #[trigger] manager.spec_rules()[j].spec_name() != rule.spec_name() by {
                    assert(manager.spec_rules()[j] == rs[j]);
                }
            }
            manager.add(rule);
            assert(rules@ =~= rs.skip(n - rules@.len()));
            assert(manager.spec_rules() =~= rs.take(n - rules@.len()));
        }
        assert(rs.take(n as int) =~= rs);
        Ok(Site { configuration, manager })
    }

    /// Runs every rule once over `paths`, the input paths relative to the
    /// input directory (see [`Manager::build`]).
    pub fn build(&mut self, paths: Vec<String>) -> (r: Result<(), BuildError>)
        requires
            old(self).spec_manager().wf(),
        ensures
            final(self).spec_manager().wf(),
            final(self).spec_manager().spec_rules() == old(self).spec_manager().spec_rules(),
            (r matches Err(BuildError::MissingDependency { .. })) <==> !old(self).spec_manager().dependencies_known(),
            (r matches Err(BuildError::Cycle(_))) <==> old(self).spec_manager().dependencies_known()
                && old(self).spec_manager().dependency_graph().has_cycle(),
            !(r matches Err(BuildError::NotBuilt { .. })),
            !(r matches Err(BuildError::NotDispatched { .. })),
            r is Ok ==> final(self).spec_manager().ran_each_once(Set::new(|x: usize| x < old(self).spec_manager().spec_rules().len())),
            r is Ok ==> forall|i: int|
                0 <= i < final(self).spec_manager().spec_rules().len() ==> (#[trigger] final(self).spec_manager().spec_finished()[i]) is Some,
            r is Ok ==> final(self).spec_manager().sees_dependencies(Set::new(|x: usize| x < old(self).spec_manager().spec_rules().len())),
            r is Ok ==> final(self).spec_manager().finished_whole(Set::new(|x: usize| x < old(self).spec_manager().spec_rules().len())),
            r is Ok ==> final(self).spec_manager().handlers_ran(old(self).spec_manager().spec_rules().len()),
            old(self).spec_manager().dependencies_known() && !old(self).spec_manager().dependency_graph().has_cycle()
                && old(self).spec_manager().handlers_succeed() ==> r is Ok,
            (r matches Err(BuildError::MissingDependency { .. })) || (r matches Err(BuildError::Cycle(_)))
                ==> final(self).spec_manager().spec_finished() == old(self).spec_manager().spec_finished(),
            old(self).spec_manager().spec_rules().len() == 0 ==> r is Ok,
    {
        self.manager.update_paths(paths);
        proof {
            lemma_same_rules(old(self).spec_manager(), self.manager);
        }
        self.manager.build()
    }

    /// Rebuilds after `changed` changed, over `paths`, the input paths
    /// relative to the input directory (see [`Manager::update`]).
    pub fn update(&mut self, paths: Vec<String>, changed: &Vec<String>) -> (r: Result<usize, BuildError>)
        requires
            old(self).spec_manager().wf(),
        ensures
            final(self).spec_manager().wf(),
            final(self).spec_manager().spec_rules() == old(self).spec_manager().spec_rules(),
            r is Ok ==> forall|i: int|
                0 <= i < old(self).spec_manager().spec_rules().len() && !old(self).spec_manager().affected(changed@).contains(i as usize)
                    ==> #[trigger] final(self).spec_manager().spec_finished()[i] == old(self).spec_manager().spec_finished()[i],
            r matches Ok(k) ==> k == old(self).spec_manager().affected(changed@).len(),
            r matches Ok(k) && k > 0 ==> final(self).spec_manager().ran_each_once(old(self).spec_manager().affected(changed@)),
            r matches Ok(k) && k > 0 ==> final(self).spec_manager().sees_dependencies(old(self).spec_manager().affected(changed@)),
            r matches Ok(k) && k > 0 ==> final(self).spec_manager().finished_whole(old(self).spec_manager().affected(changed@)),
            r matches Ok(k) && k > 0 ==> final(self).spec_manager().saw_dirty_copies(old(self).spec_manager(), changed@),
            r matches Ok(k) && k > 0 ==> final(self).spec_manager().handlers_saw(old(self).spec_manager().affected(changed@)),
            r matches Ok(k) && k > 0 ==> final(self).spec_manager().populated(
                Set::new(
                    |x: usize|
                        old(self).spec_manager().affected(changed@).contains(x) && !old(self).spec_manager().touched(x as int, changed@),
                ),
            ),
            (forall|x: u64| !old(self).spec_manager().touched_set(changed@).contains(x)) ==> r == Ok::<usize, BuildError>(0)
                && final(self).spec_manager().spec_finished() == old(self).spec_manager().spec_finished(),
            old(self).spec_manager().dependencies_known() && !old(self).spec_manager().dependency_graph().has_cycle_from(
                old(self).spec_manager().touched_set(changed@),
            ) && (forall|i: int|
                0 <= i < old(self).spec_manager().spec_rules().len() && !old(self).spec_manager().affected(changed@).contains(i as usize)
                    ==> #[trigger] old(self).spec_manager().spec_finished()[i] is Some) && old(self).spec_manager().handlers_succeed()
                ==> r is Ok,
    {
        self.manager.update_paths(paths);
        proof {
            lemma_same_rules(old(self).spec_manager(), self.manager);
            assert(old(self).spec_manager().touched_set(changed@) == self.manager.touched_set(changed@));
            assert(old(self).spec_manager().affected(changed@) == self.manager.affected(changed@));
            assert(Set::new(
                |x: usize|
                    old(self).spec_manager().affected(changed@).contains(x) && !old(self).spec_manager().touched(x as int, changed@),
            ) =~= Set::new(|x: usize| self.manager.affected(changed@).contains(x) && !self.manager.touched(x as int, changed@)));
        }
        self.manager.update(changed)
    }

    /// Plans a run of every rule over `paths` and hands out the jobs that
    /// are ready (see [`Manager::start`]).
    pub fn start(&mut self, paths: Vec<String>) -> (r: Result<Vec<(usize, Job<H>)>, BuildError>)
        requires
            old(self).spec_manager().wf(),
        ensures
            final(self).spec_manager().wf(),
            final(self).spec_manager().spec_rules() == old(self).spec_manager().spec_rules(),
            r is Ok ==> final(self).spec_manager().stepping(),
            (r matches Err(BuildError::MissingDependency { .. })) <==> !old(self).spec_manager().dependencies_known(),
            (r matches Err(BuildError::Cycle(_))) <==> old(self).spec_manager().dependencies_known()
                && old(self).spec_manager().dependency_graph().has_cycle(),
            !(r matches Err(BuildError::NotBuilt { .. })),
            !(r matches Err(BuildError::NotDispatched { .. })),
            !(r matches Err(BuildError::Failed { .. })),
            r matches Ok(jobs) ==> forall|i: int|
                0 <= i < old(self).spec_manager().spec_rules().len() ==> (#[trigger] crate::manager::hands_out(jobs@, i)
                    <==> old(self).spec_manager().spec_rules()[i].spec_dependencies().len() == 0),
    {
        self.manager.update_paths(paths);
        proof {
            lemma_same_rules(old(self).spec_manager(), self.manager);
        }
        self.manager.start()
    }

    /// Takes back the bind of a job that was handed out, and hands out the
    /// jobs that became ready (see [`Manager::complete`]).
    pub fn complete(&mut self, position: usize, bind: Bind) -> (r: Result<Vec<(usize, Job<H>)>, BuildError>)
        requires
            old(self).spec_manager().stepping(),
        ensures
            final(self).spec_manager().stepping(),
            final(self).spec_manager().wf(),
            final(self).spec_manager().spec_rules() == old(self).spec_manager().spec_rules(),
            r matches Ok(jobs) ==> (jobs@.len() == 0 && final(self).spec_manager().nothing_out() ==> {
                &&& final(self).spec_manager().ran_each_once(Set::new(|x: usize| x < old(self).spec_manager().spec_rules().len()))
                &&& forall|i: int|
                    0 <= i < final(self).spec_manager().spec_rules().len() ==> (#[trigger] final(self).spec_manager().spec_finished()[i]) is Some
                &&& final(self).spec_manager().sees_dependencies(Set::new(|x: usize| x < old(self).spec_manager().spec_rules().len()))
            }),
    {
        self.manager.complete(position, bind)
    }

    /// The settings of the build.
    pub fn configuration(&self) -> (r: Arc<Configuration>)
        ensures
            r == self.spec_configuration(),
    {
        self.configuration.clone()
    }

    /// The manager, with the finished binds.
    pub fn manager(&self) -> (r: &Manager<H>)
        ensures
            *r == self.spec_manager(),
    {
        &self.manager
    }
}

} // verus!
